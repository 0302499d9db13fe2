//! The object model: blobs, trees and commits, their stored form
//! `<kind> <size>\0<contents>`, their SHA-1 names, and tree entries.
use vstd::prelude::*;
use vstd::utf8::*;
use crate::codec::{
    sha1_digest, sha1_of, string_from_utf8, zlib_compress, zlib_compressed, zlib_decompress,
    zlib_decompressed,
};
use crate::error::GitError;
use crate::hexcode::{hex_decode, hex_decoded, hex_encode, hex_encoded, lemma_hex_encoded_len};
use crate::text::{
    byte_index_from, chars_of, decimal, decimal_bytes, index_from, lemma_index_from, parse_usize,
    parse_usize_of, push_bytes, push_str, string_of,
};

verus! {

/// The kind of an object.
#[derive(Clone, Copy, Debug, PartialEq, Eq, Structural)]
pub enum Kind {
    Blob,
    Commit,
    Tree,
}

/// The name of a kind in an object header.
pub open spec fn kind_name(k: Kind) -> Seq<u8> {
    match k {
        Kind::Blob => seq!['b' as u8, 'l' as u8, 'o' as u8, 'b' as u8],
        Kind::Tree => seq!['t' as u8, 'r' as u8, 'e' as u8, 'e' as u8],
        Kind::Commit => seq!['c' as u8, 'o' as u8, 'm' as u8, 'm' as u8, 'i' as u8, 't' as u8],
    }
}

/// The kind that a header names, if any.
pub open spec fn kind_of_name(name: Seq<u8>) -> Option<Kind> {
    if name == kind_name(Kind::Blob) {
        Some(Kind::Blob)
    } else if name == kind_name(Kind::Tree) {
        Some(Kind::Tree)
    } else if name == kind_name(Kind::Commit) {
        Some(Kind::Commit)
    } else {
        None
    }
}

/// How a kind is shown to the user.
pub open spec fn kind_display(k: Kind) -> Seq<char> {
    match k {
        Kind::Blob => "blob"@,
        Kind::Tree => "Tree"@,
        Kind::Commit => "Commit"@,
    }
}

impl Kind {
    /// How the kind is shown to the user: `blob`, `Tree` or `Commit`.
    pub fn display_name(&self) -> (res: String)
        ensures
            res@ == kind_display(*self),
    {
        match self {
            Kind::Blob => "blob".to_string(),
            Kind::Tree => "Tree".to_string(),
            Kind::Commit => "Commit".to_string(),
        }
    }
}

/// The header of an object of `size` content bytes: kind, space, decimal
/// size, and a NUL byte.
pub open spec fn object_header(k: Kind, size: nat) -> Seq<u8> {
    kind_name(k) + seq![' ' as u8] + decimal(size) + seq![0u8]
}

/// The stored form of an object: header, then contents.
pub open spec fn object_bytes(k: Kind, contents: Seq<u8>) -> Seq<u8> {
    object_header(k, contents.len()) + contents
}

/// An entry of a tree: a name, the kind it stands for, the 20-byte hash of
/// that object, and the mode text.
pub struct TreeEntry {
    filename: String,
    kind: Kind,
    hash: Vec<u8>,
    mode: String,
}

/// What a tree entry holds.
pub struct TreeEntryView {
    pub filename: Seq<char>,
    pub kind: Kind,
    pub hash: Seq<u8>,
    pub mode: Seq<char>,
}

impl View for TreeEntry {
    type V = TreeEntryView;

    closed spec fn view(&self) -> TreeEntryView {
        TreeEntryView { filename: self.filename@, kind: self.kind, hash: self.hash@, mode: self.mode@ }
    }
}

impl TreeEntry {
    /// The entry's file name.
    pub fn filename(&self) -> (res: &String)
        ensures
            res@ == self@.filename,
    {
        &self.filename
    }

    /// The kind of object the entry stands for.
    pub fn kind(&self) -> (res: &Kind)
        ensures
            *res == self@.kind,
    {
        &self.kind
    }

    /// The entry's hash as lower-case hex.
    pub fn hex_string(&self) -> (res: String)
        ensures
            res@ == hex_encoded(self@.hash),
    {
        hex_encode(self.hash.as_slice())
    }

    /// The entry's mode text.
    pub fn mode(&self) -> (res: &String)
        ensures
            res@ == self@.mode,
    {
        &self.mode
    }
}

/// An object: its kind, its header, its contents, and its hash.
pub struct GitObject {
    kind: Kind,
    header: Vec<u8>,
    contents: Vec<u8>,
    hash: Vec<u8>,
}

/// What an object holds.
pub struct GitObjectView {
    pub kind: Kind,
    pub header: Seq<u8>,
    pub contents: Seq<u8>,
    pub hash: Seq<u8>,
}

impl View for GitObject {
    type V = GitObjectView;

    closed spec fn view(&self) -> GitObjectView {
        GitObjectView {
            kind: self.kind,
            header: self.header@,
            contents: self.contents@,
            hash: self.hash@,
        }
    }
}

/// The object of a kind and contents, named by the SHA-1 of its stored form.
pub open spec fn built_object(k: Kind, contents: Seq<u8>) -> GitObjectView {
    GitObjectView {
        kind: k,
        header: object_header(k, contents.len()),
        contents,
        hash: sha1_of(object_bytes(k, contents)),
    }
}

/// The text of a commit.
pub open spec fn commit_text(
    tree: Seq<char>,
    parent: Option<Seq<char>>,
    committer: Seq<char>,
    msg: Seq<char>,
) -> Seq<char> {
    "tree "@ + tree + "\n"@ + match parent {
        Some(p) => "parent "@ + p + "\n"@,
        None => Seq::empty(),
    } + "author "@ + committer + "\n"@ + "committer "@ + committer + "\n"@ + "\n"@ + msg + "\n"@
}

/// Where an object file goes: a directory named by the first two hex digits
/// of the hash, a file named by the rest, and the compressed stored form.
pub struct ObjectFile {
    pub dir: String,
    pub file: String,
    pub data: Vec<u8>,
}

fn push_kind_name(v: &mut Vec<u8>, k: Kind)
    ensures
        final(v)@ == old(v)@ + kind_name(k),
{
    match k {
        Kind::Blob => {
            v.push('b' as u8);
            v.push('l' as u8);
            v.push('o' as u8);
            v.push('b' as u8);
        },
        Kind::Tree => {
            v.push('t' as u8);
            v.push('r' as u8);
            v.push('e' as u8);
            v.push('e' as u8);
        },
        Kind::Commit => {
            v.push('c' as u8);
            v.push('o' as u8);
            v.push('m' as u8);
            v.push('m' as u8);
            v.push('i' as u8);
            v.push('t' as u8);
        },
    }
    assert(final(v)@ =~= old(v)@ + kind_name(k));
}

/// The kind named by header bytes.
fn kind_from_name(name: &[u8]) -> (res: Option<Kind>)
    ensures
        res == kind_of_name(name@),
{
    let mut tmp: Vec<u8> = Vec::new();
    push_kind_name(&mut tmp, Kind::Blob);
    if bytes_equal(name, tmp.as_slice()) {
        return Some(Kind::Blob);
    }
    let mut tmp: Vec<u8> = Vec::new();
    push_kind_name(&mut tmp, Kind::Tree);
    if bytes_equal(name, tmp.as_slice()) {
        return Some(Kind::Tree);
    }
    let mut tmp: Vec<u8> = Vec::new();
    push_kind_name(&mut tmp, Kind::Commit);
    if bytes_equal(name, tmp.as_slice()) {
        return Some(Kind::Commit);
    }
    None
}

/// Whether two byte strings are equal.
pub fn bytes_equal(a: &[u8], b: &[u8]) -> (res: bool)
    ensures
        res == (a@ == b@),
{
    if a.len() != b.len() {
        return false;
    }
    let mut k: usize = 0;
    while k < a.len()
        invariant
            a.len() == b.len(),
            k <= a.len(),
            forall|q: int| 0 <= q < k ==> a@[q] == b@[q],
        decreases a.len() - k,
    {
        if a[k] != b[k] {
            return false;
        }
        k = k + 1;
    }
    assert(a@ =~= b@);
    true
}

impl GitObject {
    /// The directory that holds the objects.
    pub fn object_dir_path() -> (res: String)
        ensures
            res@ == ".git/objects"@,
    {
        ".git/objects".to_string()
    }

    /// The committer written into commits.
    pub fn commiter() -> (res: String)
        ensures
            res@ == Seq::<char>::empty(),
    {
        String::new()
    }

    /// An object of the given kind and contents, named by the SHA-1 of its
    /// stored form; nothing is written.
    pub fn build(kind: Kind, contents: Vec<u8>) -> (res: Result<Self, GitError>)
        ensures
            res matches Ok(o) && o@ == built_object(kind, contents@) && o@.hash.len() == 20,
    {
        let mut header: Vec<u8> = Vec::new();
        push_kind_name(&mut header, kind);
        header.push(' ' as u8);
        let size = decimal_bytes(contents.len());
        push_bytes(&mut header, size.as_slice(), 0, size.len());
        header.push(0u8);
        let mut all: Vec<u8> = Vec::new();
        push_bytes(&mut all, header.as_slice(), 0, header.len());
        push_bytes(&mut all, contents.as_slice(), 0, contents.len());
        proof {
            assert(header@ =~= object_header(kind, contents@.len()));
            assert(all@ =~= object_bytes(kind, contents@));
        }
        let hash = sha1_digest(all.as_slice());
        Ok(GitObject { kind, header, contents, hash })
    }

    /// A commit object of a tree, an optional parent, and a message.
    pub fn build_commit(msg: &str, tree_hash: &str, parent_hash: Option<&str>) -> (res: Result<Self, GitError>)
        ensures
            res matches Ok(o) && o@ == built_object(
                Kind::Commit,
                encode_utf8(
                    commit_text(
                        tree_hash@,
                        match parent_hash {
                            Some(p) => Some(p@),
                            None => None,
                        },
                        Seq::empty(),
                        msg@,
                    ),
                ),
            ),
    {
        let mut contents = String::new();
        let committer = GitObject::commiter();
        push_str(&mut contents, "tree ");
        push_str(&mut contents, tree_hash);
        push_str(&mut contents, "\n");
        let ghost before_parent = contents@;
        if let Some(p) = parent_hash {
            push_str(&mut contents, "parent ");
            push_str(&mut contents, p);
            push_str(&mut contents, "\n");
        }
        push_str(&mut contents, "author ");
        push_str(&mut contents, committer.as_str());
        push_str(&mut contents, "\n");
        push_str(&mut contents, "committer ");
        push_str(&mut contents, committer.as_str());
        push_str(&mut contents, "\n");
        push_str(&mut contents, "\n");
        push_str(&mut contents, msg);
        push_str(&mut contents, "\n");
        proof {
            let parent = match parent_hash {
                Some(p) => Some(p@),
                None => None,
            };
            assert(contents@ =~= commit_text(tree_hash@, parent, Seq::empty(), msg@));
        }
        let bytes = vstd::slice::slice_to_vec(contents.as_str().as_bytes());
        Self::build(Kind::Commit, bytes)
    }

    /// A blob of a file's contents; the caller reads the file and, where it
    /// wants the blob stored, writes the object file that `write` gives.
    pub fn from_path(file_contents: Vec<u8>) -> (res: Result<Self, GitError>)
        ensures
            res matches Ok(o) && o@ == built_object(Kind::Blob, file_contents@),
    {
        Self::build(Kind::Blob, file_contents)
    }

    /// The kind of the object.
    pub fn kind(&self) -> (res: &Kind)
        ensures
            *res == self@.kind,
    {
        &self.kind
    }

    /// The contents of the object.
    pub fn contents(&self) -> (res: &Vec<u8>)
        ensures
            res@ == self@.contents,
    {
        &self.contents
    }

    /// The hash of the object as lower-case hex.
    pub fn hex_string(&self) -> (res: String)
        ensures
            res@ == hex_encoded(self@.hash),
    {
        hex_encode(self.hash.as_slice())
    }

    /// The object file to store: under the directory named by the first two
    /// hex digits of the hash, in the file named by the rest, the zlib
    /// stream of header and contents, which reads back as them.
    pub fn write(&self) -> (res: Result<ObjectFile, GitError>)
        requires
            self@.hash.len() >= 1,
        ensures
            res matches Ok(f) && {
                &&& f.dir@ == hex_encoded(self@.hash).subrange(0, 2)
                &&& f.file@ == hex_encoded(self@.hash).subrange(2, hex_encoded(self@.hash).len() as int)
                &&& f.data@ == zlib_compressed(self@.header + self@.contents)
                &&& zlib_decompressed(f.data@) == Some(self@.header + self@.contents)
            },
    {
        let mut all: Vec<u8> = Vec::new();
        push_bytes(&mut all, self.header.as_slice(), 0, self.header.len());
        push_bytes(&mut all, self.contents.as_slice(), 0, self.contents.len());
        assert(all@ =~= self@.header + self@.contents);
        let data = match zlib_compress(all.as_slice()) {
            Ok(d) => d,
            Err(_) => {
                return Err(GitError::CompressionFailed);
            },
        };
        let hex = self.hex_string();
        proof {
            lemma_hex_encoded_len(self@.hash);
        }
        let cs = chars_of(hex.as_str());
        let dir = string_of(cs.as_slice(), 0, 2);
        let file = string_of(cs.as_slice(), 2, cs.len());
        Ok(ObjectFile { dir, file, data })
    }
}


/// What reading the stored form of an object gives: its kind, its header
/// (the bytes before the first NUL, and the NUL), and as many content bytes
/// as the header's size says. The header is the kind name, a space, and a
/// size that `str::parse::<usize>` accepts. `None` where the size is larger
/// than the bytes that follow the header.
pub open spec fn parse_object_of(data: Seq<u8>) -> Option<Result<(Kind, Seq<u8>, Seq<u8>), GitError>> {
    let z = index_from(data, 0u8, 0);
    let header = data.subrange(0, z);
    let sp = index_from(header, ' ' as u8, 0);
    match kind_of_name(header.subrange(0, sp)) {
        None => Some(Err(GitError::UnknownObjectKind)),
        Some(k) => {
            let size = if sp < header.len() {
                parse_usize_of(header.subrange(sp + 1, header.len() as int))
            } else {
                None
            };
            match size {
                None => Some(Err(GitError::InvalidObjectFormat)),
                Some(n) => {
                    if z == data.len() {
                        Some(Err(GitError::InvalidObjectFormat))
                    } else if n > data.len() - (z + 1) {
                        None
                    } else {
                        Some(Ok((k, header.push(0u8), data.subrange(z + 1, z + 1 + n))))
                    }
                },
            }
        },
    }
}

/// What reading the object named `hex` from the zlib stream `compressed`
/// gives; `None` where the stored size is larger than the stored contents.
pub open spec fn read_object_of(hex: Seq<char>, compressed: Seq<u8>) -> Option<Result<GitObjectView, GitError>> {
    match hex_decoded(hex) {
        None => Some(Err(GitError::InvalidHex)),
        Some(hash) => match zlib_decompressed(compressed) {
            None => Some(Err(GitError::CorruptObject)),
            Some(data) => match parse_object_of(data) {
                None => None,
                Some(Err(e)) => Some(Err(e)),
                Some(Ok((k, header, contents))) => Some(
                    Ok(GitObjectView { kind: k, header, contents, hash }),
                ),
            },
        },
    }
}

/// The view of an object result.
pub open spec fn object_result_view(r: Result<GitObject, GitError>) -> Result<GitObjectView, GitError> {
    match r {
        Ok(o) => Ok(o@),
        Err(e) => Err(e),
    }
}

impl GitObject {
    /// Reads the stored form of an object named `hash`; `None` where the
    /// stored size is larger than the stored contents.
    pub fn parse_object(hash: Vec<u8>, data: &[u8]) -> (res: Option<Result<GitObject, GitError>>)
        ensures
            match (res, parse_object_of(data@)) {
                (None, None) => true,
                (Some(Err(e1)), Some(Err(e2))) => e1 == e2,
                (Some(Ok(o)), Some(Ok((k, h, c)))) => o@ == GitObjectView {
                    kind: k,
                    header: h,
                    contents: c,
                    hash: hash@,
                },
                _ => false,
            },
    {
        let z = byte_index_from(data, 0u8, 0);
        proof {
            lemma_index_from(data@, 0u8, 0);
        }
        let mut header: Vec<u8> = Vec::new();
        push_bytes(&mut header, data, 0, z);
        proof {
            lemma_index_from(header@, ' ' as u8, 0);
            assert(header@ =~= data@.subrange(0, z as int));
        }
        let sp = byte_index_from(header.as_slice(), ' ' as u8, 0);
        let mut kind_part: Vec<u8> = Vec::new();
        push_bytes(&mut kind_part, header.as_slice(), 0, sp);
        assert(kind_part@ =~= header@.subrange(0, sp as int));
        let kind = match kind_from_name(kind_part.as_slice()) {
            None => {
                return Some(Err(GitError::UnknownObjectKind));
            },
            Some(k) => k,
        };
        if sp == header.len() {
            return Some(Err(GitError::InvalidObjectFormat));
        }
        let mut size_part: Vec<u8> = Vec::new();
        push_bytes(&mut size_part, header.as_slice(), sp + 1, header.len());
        let size = match parse_usize(size_part.as_slice()) {
            None => {
                return Some(Err(GitError::InvalidObjectFormat));
            },
            Some(n) => n,
        };
        if z == data.len() {
            return Some(Err(GitError::InvalidObjectFormat));
        }
        if size > data.len() - (z + 1) {
            return None;
        }
        let mut contents: Vec<u8> = Vec::new();
        push_bytes(&mut contents, data, z + 1, z + 1 + size);
        header.push(0u8);
        Some(Ok(GitObject { kind, header, contents, hash }))
    }

    /// Reads the object named `hex_string` from its object file
    /// `compressed` (which the caller has read).
    pub fn from_hex_string(hex_string: &str, compressed: &[u8]) -> (res: Result<Self, GitError>)
        requires
            read_object_of(hex_string@, compressed@) is Some,
        ensures
            read_object_of(hex_string@, compressed@) == Some(object_result_view(res)),
    {
        let hash = match hex_decode(hex_string) {
            Ok(h) => h,
            Err(_) => {
                return Err(GitError::InvalidHex);
            },
        };
        let data = match zlib_decompress(compressed) {
            Ok(d) => d,
            Err(_) => {
                return Err(GitError::CorruptObject);
            },
        };
        match Self::parse_object(hash, data.as_slice()) {
            Some(r) => r,
            None => Err(GitError::InvalidObjectFormat),
        }
    }

    /// Reads the object named `hex_string` from its object file, or `None`
    /// where the stored size is larger than the stored contents.
    pub fn read_object(hex_string: &str, compressed: &[u8]) -> (res: Option<Result<Self, GitError>>)
        ensures
            match res {
                None => read_object_of(hex_string@, compressed@) is None,
                Some(r) => read_object_of(hex_string@, compressed@) == Some(object_result_view(r)),
            },
    {
        let fits = match hex_decode(hex_string) {
            Err(_) => true,
            Ok(h) => match zlib_decompress(compressed) {
                Err(_) => true,
                Ok(data) => Self::parse_object(h, data.as_slice()).is_some(),
            },
        };
        if fits {
            Some(Self::from_hex_string(hex_string, compressed))
        } else {
            None
        }
    }
}

/// Reading the stored form of an object gives back its kind, header and
/// contents.
pub proof fn law_object_roundtrip(k: Kind, contents: Seq<u8>)
    requires
        contents.len() <= usize::MAX,
    ensures
        parse_object_of(object_bytes(k, contents)) == Some(
            Ok::<(Kind, Seq<u8>, Seq<u8>), GitError>((k, object_header(k, contents.len()), contents)),
        ),
{
    let n = contents.len();
    let data = object_bytes(k, contents);
    let name = kind_name(k);
    let dec = decimal(n);
    crate::text::lemma_decimal(n);
    crate::text::lemma_parse_decimal(n as usize);
    let z: int = (name.len() + 1 + dec.len()) as int;
    assert(data[z] == 0u8);
    assert forall|q: int| 0 <= q < z implies data[q] != 0u8 by {
        if q < name.len() {
            assert(data[q] == name[q]);
        } else if q > name.len() {
            assert(data[q] == dec[q - name.len() - 1]);
            assert(crate::text::is_digit(dec[q - name.len() - 1]));
        }
    }
    crate::text::lemma_index_from_is(data, 0u8, 0, z);
    let header = data.subrange(0, z);
    assert(header =~= name + seq![' ' as u8] + dec);
    assert(header[name.len() as int] == ' ' as u8);
    assert forall|q: int| 0 <= q < name.len() implies header[q] != ' ' as u8 by {
        assert(header[q] == name[q]);
    }
    crate::text::lemma_index_from_is(header, ' ' as u8, 0, name.len() as int);
    assert(header.subrange(0, name.len() as int) =~= name);
    assert(header.subrange(name.len() + 1int, header.len() as int) =~= dec);
    assert(header.push(0u8) =~= object_header(k, n));
    assert(data.subrange(z + 1, z + 1 + n as int) =~= contents);
}

/// An object file that reads back as the stored form of an object built of
/// `k` and `contents` (as what `write` gives does) reads, under the hex
/// name of that object's hash, as that object.
pub proof fn law_written_object_reads_back(k: Kind, contents: Seq<u8>, compressed: Seq<u8>)
    requires
        contents.len() <= usize::MAX,
        zlib_decompressed(compressed) == Some(object_bytes(k, contents)),
    ensures
        read_object_of(hex_encoded(built_object(k, contents).hash), compressed) == Some(
            Ok::<GitObjectView, GitError>(built_object(k, contents)),
        ),
{
    law_object_roundtrip(k, contents);
    crate::hexcode::lemma_hex_roundtrip(built_object(k, contents).hash);
}


/// The kind that a tree entry's mode stands for: files, executables and
/// links are blobs, `40000` is a tree.
pub open spec fn tree_mode_kind(mode: Seq<u8>) -> Option<Kind> {
    if mode == seq!['1' as u8, '0' as u8, '0' as u8, '6' as u8, '4' as u8, '4' as u8]
        || mode == seq!['1' as u8, '0' as u8, '0' as u8, '7' as u8, '5' as u8, '5' as u8]
        || mode == seq!['1' as u8, '2' as u8, '0' as u8, '0' as u8, '0' as u8, '0' as u8] {
        Some(Kind::Blob)
    } else if mode == seq!['4' as u8, '0' as u8, '0' as u8, '0' as u8, '0' as u8] {
        Some(Kind::Tree)
    } else {
        None
    }
}

/// Adds an entry in front of a parse result.
pub open spec fn prepend_entry(
    e: TreeEntryView,
    r: Result<Seq<TreeEntryView>, GitError>,
) -> Result<Seq<TreeEntryView>, GitError> {
    match r {
        Ok(rest) => Ok(seq![e] + rest),
        Err(err) => Err(err),
    }
}

/// The entries of tree contents from byte `pos` on. Each entry is a mode up
/// to the next space, a name up to the next NUL, and a 20-byte hash; name and
/// mode must be UTF-8, and the mode one of the tree modes. The entries go on
/// until the contents end right after a hash.
pub open spec fn parse_tree_from(c: Seq<u8>, pos: int) -> Result<Seq<TreeEntryView>, GitError>
    decreases c.len() - pos,
{
    if !(0 <= pos <= c.len()) {
        Err(GitError::TruncatedTree)
    } else {
        let sp = index_from(c, ' ' as u8, pos);
        let after_mode = if sp < c.len() {
            sp + 1
        } else {
            sp
        };
        proof {
            lemma_index_from(c, ' ' as u8, pos);
            lemma_index_from(c, 0u8, after_mode);
        }
        let nul = index_from(c, 0u8, after_mode);
        let after_name = if nul < c.len() {
            nul + 1
        } else {
            nul
        };
        if after_name + 20 > c.len() {
            Err(GitError::TruncatedTree)
        } else {
            let name = c.subrange(after_mode, nul);
            let mode = c.subrange(pos, sp);
            if !valid_utf8(name) || !valid_utf8(mode) {
                Err(GitError::InvalidUtf8)
            } else {
                match tree_mode_kind(mode) {
                    None => Err(GitError::UnrecognizedTreeEntry),
                    Some(k) => {
                        let e = TreeEntryView {
                            filename: decode_utf8(name),
                            kind: k,
                            hash: c.subrange(after_name, after_name + 20),
                            mode: decode_utf8(mode),
                        };
                        if after_name + 20 == c.len() {
                            Ok(seq![e])
                        } else {
                            prepend_entry(e, parse_tree_from(c, after_name + 20))
                        }
                    },
                }
            }
        }
    }
}

/// The view of a list of entries.
pub open spec fn entries_view(v: Seq<TreeEntry>) -> Seq<TreeEntryView> {
    v.map_values(|e: TreeEntry| e@)
}

/// The kind of a tree mode.
pub(crate) fn mode_kind(m: &[u8]) -> (res: Option<Kind>)
    ensures
        res == tree_mode_kind(m@),
{
    if m.len() == 6 && m[0] == '1' as u8 && m[1] == '0' as u8 && m[2] == '0' as u8 && m[3] == '6' as u8
        && m[4] == '4' as u8 && m[5] == '4' as u8 {
        assert(m@ =~= seq!['1' as u8, '0' as u8, '0' as u8, '6' as u8, '4' as u8, '4' as u8]);
        return Some(Kind::Blob);
    }
    if m.len() == 6 && m[0] == '1' as u8 && m[1] == '0' as u8 && m[2] == '0' as u8 && m[3] == '7' as u8
        && m[4] == '5' as u8 && m[5] == '5' as u8 {
        assert(m@ =~= seq!['1' as u8, '0' as u8, '0' as u8, '7' as u8, '5' as u8, '5' as u8]);
        return Some(Kind::Blob);
    }
    if m.len() == 6 && m[0] == '1' as u8 && m[1] == '2' as u8 && m[2] == '0' as u8 && m[3] == '0' as u8
        && m[4] == '0' as u8 && m[5] == '0' as u8 {
        assert(m@ =~= seq!['1' as u8, '2' as u8, '0' as u8, '0' as u8, '0' as u8, '0' as u8]);
        return Some(Kind::Blob);
    }
    if m.len() == 5 && m[0] == '4' as u8 && m[1] == '0' as u8 && m[2] == '0' as u8 && m[3] == '0' as u8
        && m[4] == '0' as u8 {
        assert(m@ =~= seq!['4' as u8, '0' as u8, '0' as u8, '0' as u8, '0' as u8]);
        return Some(Kind::Tree);
    }
    None
}

impl GitObject {
    /// The entries of a tree object; for any other object the error
    /// `NotATree`.
    pub fn tree_entries(&self) -> (res: Result<Vec<TreeEntry>, GitError>)
        ensures
            self@.kind != Kind::Tree ==> res == Err::<Vec<TreeEntry>, GitError>(GitError::NotATree),
            self@.kind == Kind::Tree ==> match res {
                Ok(v) => parse_tree_from(self@.contents, 0) == Ok::<Seq<TreeEntryView>, GitError>(entries_view(v@)),
                Err(e) => parse_tree_from(self@.contents, 0) == Err::<Seq<TreeEntryView>, GitError>(e),
            },
    {
        match self.kind {
            Kind::Tree => {},
            _ => {
                return Err(GitError::NotATree);
            },
        }
        let c = self.contents.as_slice();
        let mut entries: Vec<TreeEntry> = Vec::new();
        let mut pos: usize = 0;
        loop
            invariant
                c@ == self@.contents,
                self@.kind == Kind::Tree,
                pos <= c.len(),
                parse_tree_from(c@, 0) == match parse_tree_from(c@, pos as int) {
                    Ok(rest) => Ok(entries_view(entries@) + rest),
                    Err(e) => Err::<Seq<TreeEntryView>, GitError>(e),
                },
            decreases c.len() - pos,
        {
            let ghost before = entries@;
            let sp = byte_index_from(c, ' ' as u8, pos);
            proof {
                lemma_index_from(c@, ' ' as u8, pos as int);
            }
            let after_mode = if sp < c.len() {
                sp + 1
            } else {
                sp
            };
            let nul = byte_index_from(c, 0u8, after_mode);
            proof {
                lemma_index_from(c@, 0u8, after_mode as int);
            }
            let after_name = if nul < c.len() {
                nul + 1
            } else {
                nul
            };
            if after_name > c.len() || c.len() - after_name < 20 {
                return Err(GitError::TruncatedTree);
            }
            let mut name: Vec<u8> = Vec::new();
            push_bytes(&mut name, c, after_mode, nul);
            let mut mode: Vec<u8> = Vec::new();
            push_bytes(&mut mode, c, pos, sp);
            let mut hash: Vec<u8> = Vec::new();
            push_bytes(&mut hash, c, after_name, after_name + 20);
            let ghost name_bytes = name@;
            let ghost mode_bytes = mode@;
            assert(name_bytes =~= c@.subrange(after_mode as int, nul as int));
            assert(mode_bytes =~= c@.subrange(pos as int, sp as int));
            let filename = match string_from_utf8(name) {
                Ok(s) => s,
                Err(_) => {
                    return Err(GitError::InvalidUtf8);
                },
            };
            let kind = match mode_kind(mode.as_slice()) {
                Some(k) => k,
                None => {
                    if string_from_utf8(mode).is_err() {
                        return Err(GitError::InvalidUtf8);
                    }
                    return Err(GitError::UnrecognizedTreeEntry);
                },
            };
            let mode_text = match string_from_utf8(mode) {
                Ok(s) => s,
                Err(_) => {
                    return Err(GitError::InvalidUtf8);
                },
            };
            let entry = TreeEntry { filename, kind, hash, mode: mode_text };
            entries.push(entry);
            let next = after_name + 20;
            proof {
                assert(entries_view(entries@) =~= entries_view(before).push(entry@));
                assert(entries_view(before).push(entry@) =~= entries_view(before) + seq![entry@]);
                match parse_tree_from(c@, next as int) {
                    Ok(rest) => {
                        assert(entries_view(before) + (seq![entry@] + rest) =~= entries_view(entries@) + rest);
                    },
                    Err(_) => {},
                }
            }
            if next == c.len() {
                proof {
                    assert(entries_view(before) + seq![entry@] =~= entries_view(entries@));
                }
                return Ok(entries);
            }
            pos = next;
        }
    }
}

/// The stored form of a tree entry: mode, space, name, NUL, hash.
pub open spec fn tree_entry_bytes(mode: Seq<char>, name: Seq<char>, hash: Seq<u8>) -> Seq<u8> {
    encode_utf8(mode) + seq![' ' as u8] + encode_utf8(name) + seq![0u8] + hash
}

/// The contents of a tree with the given (mode, name, hash) entries, in order.
pub open spec fn tree_bytes(entries: Seq<(Seq<char>, Seq<char>, Seq<u8>)>) -> Seq<u8>
    decreases entries.len(),
{
    if entries.len() == 0 {
        Seq::empty()
    } else {
        tree_entry_bytes(entries[0].0, entries[0].1, entries[0].2) + tree_bytes(entries.drop_first())
    }
}

/// The (mode, name, hash) text of tree entries, by view.
pub open spec fn tree_input_view(v: Seq<(String, String, Vec<u8>)>) -> Seq<(Seq<char>, Seq<char>, Seq<u8>)> {
    v.map_values(|e: (String, String, Vec<u8>)| (e.0@, e.1@, e.2@))
}

/// The contents of a tree with the given (mode, name, hash) entries.
pub fn tree_contents(entries: &Vec<(String, String, Vec<u8>)>) -> (res: Vec<u8>)
    ensures
        res@ == tree_bytes(tree_input_view(entries@)),
{
    let ghost ev = tree_input_view(entries@);
    let mut out: Vec<u8> = Vec::new();
    let mut i: usize = 0;
    assert(ev.skip(0) =~= ev);
    assert(tree_bytes(ev) =~= out@ + tree_bytes(ev));
    while i < entries.len()
        invariant
            i <= entries.len(),
            ev == tree_input_view(entries@),
            tree_bytes(ev) == out@ + tree_bytes(ev.skip(i as int)),
        decreases entries.len() - i,
    {
        let e = &entries[i];
        let ghost before = out@;
        let mb = e.0.as_str().as_bytes();
        push_bytes(&mut out, mb, 0, mb.len());
        out.push(' ' as u8);
        let nb = e.1.as_str().as_bytes();
        push_bytes(&mut out, nb, 0, nb.len());
        out.push(0u8);
        push_bytes(&mut out, e.2.as_slice(), 0, e.2.len());
        proof {
            assert(ev.skip(i as int)[0] == ev[i as int]);
            assert(ev.skip(i as int).drop_first() =~= ev.skip(i + 1));
            assert(mb@.subrange(0, mb@.len() as int) =~= mb@);
            assert(nb@.subrange(0, nb@.len() as int) =~= nb@);
            assert(e.2@.subrange(0, e.2@.len() as int) =~= e.2@);
            assert(out@ =~= before + tree_entry_bytes(ev[i as int].0, ev[i as int].1, ev[i as int].2));
        }
        i = i + 1;
    }
    assert(ev.skip(i as int) =~= Seq::<(Seq<char>, Seq<char>, Seq<u8>)>::empty());
    assert(out@ =~= out@ + Seq::<u8>::empty());
    out
}


/// A tree mode, as text.
pub open spec fn is_tree_mode(mode: Seq<char>) -> bool {
    ||| mode == seq!['1', '0', '0', '6', '4', '4']
    ||| mode == seq!['1', '0', '0', '7', '5', '5']
    ||| mode == seq!['1', '2', '0', '0', '0', '0']
    ||| mode == seq!['4', '0', '0', '0', '0']
}

proof fn lemma_encode_scalar_nonzero(c: char)
    requires
        c != '\0',
    ensures
        forall|j: int| 0 <= j < encode_scalar(c as u32).len() ==> #[trigger] encode_scalar(c as u32)[j] != 0u8,
{
    let v = c as u32;
    assert(v != 0);
    if has_width_1_encoding(v) {
        assert(v != 0 && v <= 0x7F ==> (v & 0x7F) as u8 != 0u8) by (bit_vector);
    } else {
        assert((0xC0u8 | ((v >> 6) & 0x1F) as u8) != 0u8) by (bit_vector);
        assert((0xE0u8 | ((v >> 12) & 0x0F) as u8) != 0u8) by (bit_vector);
        assert((0xF0u8 | ((v >> 18) & 0x7) as u8) != 0u8) by (bit_vector);
        assert((0x80u8 | (v & 0x3F) as u8) != 0u8) by (bit_vector);
        assert((0x80u8 | ((v >> 6) & 0x3F) as u8) != 0u8) by (bit_vector);
        assert((0x80u8 | ((v >> 12) & 0x3F) as u8) != 0u8) by (bit_vector);
    }
}

/// Text without NUL characters has no NUL byte in UTF-8.
pub proof fn lemma_encode_utf8_no_nul(chars: Seq<char>)
    requires
        forall|i: int| 0 <= i < chars.len() ==> chars[i] != '\0',
    ensures
        forall|j: int| 0 <= j < encode_utf8(chars).len() ==> #[trigger] encode_utf8(chars)[j] != 0u8,
    decreases chars.len(),
{
    if chars.len() > 0 {
        lemma_encode_scalar_nonzero(chars[0]);
        lemma_encode_utf8_no_nul(chars.drop_first());
        let first = encode_scalar(chars[0] as u32);
        let rest = encode_utf8(chars.drop_first());
        assert forall|j: int| 0 <= j < encode_utf8(chars).len() implies #[trigger] encode_utf8(chars)[j] != 0u8 by {
            if j < first.len() {
                assert(encode_utf8(chars)[j] == first[j]);
            } else {
                assert(encode_utf8(chars)[j] == rest[j - first.len()]);
            }
        }
    }
}

proof fn lemma_tree_mode_bytes(mode: Seq<char>)
    requires
        is_tree_mode(mode),
    ensures
        encode_utf8(mode).len() == mode.len(),
        forall|j: int| 0 <= j < mode.len() ==> #[trigger] encode_utf8(mode)[j] == mode[j] as u8,
        forall|j: int| 0 <= j < mode.len() ==> #[trigger] encode_utf8(mode)[j] != ' ' as u8,
        valid_utf8(encode_utf8(mode)),
        decode_utf8(encode_utf8(mode)) == mode,
        tree_mode_kind(encode_utf8(mode)) is Some,
        tree_mode_kind(encode_utf8(mode)) == Some(if mode == seq!['4', '0', '0', '0', '0'] {
            Kind::Tree
        } else {
            Kind::Blob
        }),
{
    assert(is_ascii_chars(mode));
    is_ascii_chars_encode_utf8(mode);
    encode_utf8_valid_utf8(mode);
    encode_utf8_decode_utf8(mode);
    let b = encode_utf8(mode);
    if mode == seq!['1', '0', '0', '6', '4', '4'] {
        assert(b =~= seq!['1' as u8, '0' as u8, '0' as u8, '6' as u8, '4' as u8, '4' as u8]);
    } else if mode == seq!['1', '0', '0', '7', '5', '5'] {
        assert(b =~= seq!['1' as u8, '0' as u8, '0' as u8, '7' as u8, '5' as u8, '5' as u8]);
    } else if mode == seq!['1', '2', '0', '0', '0', '0'] {
        assert(b =~= seq!['1' as u8, '2' as u8, '0' as u8, '0' as u8, '0' as u8, '0' as u8]);
    } else {
        assert(b =~= seq!['4' as u8, '0' as u8, '0' as u8, '0' as u8, '0' as u8]);
    }
}

/// The entry that a (mode, name, hash) triple is read back as.
pub open spec fn entry_of(e: (Seq<char>, Seq<char>, Seq<u8>)) -> TreeEntryView {
    TreeEntryView {
        filename: e.1,
        kind: if e.0 == seq!['4', '0', '0', '0', '0'] {
            Kind::Tree
        } else {
            Kind::Blob
        },
        hash: e.2,
        mode: e.0,
    }
}

/// Entries that a tree can hold: a tree mode, a name without NUL, a 20-byte hash.
pub open spec fn storable_entries(entries: Seq<(Seq<char>, Seq<char>, Seq<u8>)>) -> bool {
    forall|i: int|
        0 <= i < entries.len() ==> {
            &&& is_tree_mode(#[trigger] entries[i].0)
            &&& (forall|k: int| 0 <= k < entries[i].1.len() ==> entries[i].1[k] != '\0')
            &&& entries[i].2.len() == 20
        }
}

proof fn lemma_tree_roundtrip_from(prefix: Seq<u8>, entries: Seq<(Seq<char>, Seq<char>, Seq<u8>)>)
    requires
        entries.len() > 0,
        storable_entries(entries),
    ensures
        parse_tree_from(prefix + tree_bytes(entries), prefix.len() as int) == Ok::<Seq<TreeEntryView>, GitError>(
            entries.map_values(|e: (Seq<char>, Seq<char>, Seq<u8>)| entry_of(e)),
        ),
    decreases entries.len(),
{
    let e = entries[0];
    let rest = entries.drop_first();
    let mb = encode_utf8(e.0);
    let nb = encode_utf8(e.1);
    let eb = tree_entry_bytes(e.0, e.1, e.2);
    let c = prefix + tree_bytes(entries);
    let pos = prefix.len() as int;
    assert(storable_entries(rest)) by {
        assert forall|i: int| 0 <= i < rest.len() implies {
            &&& is_tree_mode(#[trigger] rest[i].0)
            &&& (forall|k: int| 0 <= k < rest[i].1.len() ==> rest[i].1[k] != '\0')
            &&& rest[i].2.len() == 20
        } by {
            assert(rest[i] == entries[i + 1]);
        }
    }
    assert(is_tree_mode(entries[0].0));
    lemma_tree_mode_bytes(e.0);
    lemma_encode_utf8_no_nul(e.1);
    encode_utf8_valid_utf8(e.1);
    encode_utf8_decode_utf8(e.1);
    assert(c =~= prefix + eb + tree_bytes(rest));
    let sp = pos + mb.len();
    assert(c[sp] == ' ' as u8);
    assert forall|q: int| pos <= q < sp implies c[q] != ' ' as u8 by {
        assert(c[q] == mb[q - pos]);
    }
    crate::text::lemma_index_from_is(c, ' ' as u8, pos, sp);
    let after_mode = sp + 1;
    let nul = after_mode + nb.len();
    assert(c[nul] == 0u8);
    assert forall|q: int| after_mode <= q < nul implies c[q] != 0u8 by {
        assert(c[q] == nb[q - after_mode]);
    }
    crate::text::lemma_index_from_is(c, 0u8, after_mode, nul);
    let after_name = nul + 1;
    assert(c.subrange(after_mode, nul) =~= nb);
    assert(c.subrange(pos, sp) =~= mb);
    assert(c.subrange(after_name, after_name + 20) =~= e.2);
    let views = entries.map_values(|x: (Seq<char>, Seq<char>, Seq<u8>)| entry_of(x));
    if rest.len() == 0 {
        assert(tree_bytes(rest) =~= Seq::<u8>::empty());
        assert(after_name + 20 == c.len());
        assert(views =~= seq![entry_of(e)]);
    } else {
        let prefix2 = prefix + eb;
        lemma_tree_roundtrip_from(prefix2, rest);
        assert(prefix2 + tree_bytes(rest) =~= c);
        assert(prefix2.len() == after_name + 20);
        assert(tree_bytes(rest).len() > 0) by {
            assert(tree_bytes(rest) =~= tree_entry_bytes(rest[0].0, rest[0].1, rest[0].2) + tree_bytes(rest.drop_first()));
        }
        assert(views =~= seq![entry_of(e)] + rest.map_values(|x: (Seq<char>, Seq<char>, Seq<u8>)| entry_of(x)));
    }
}

/// Reading the contents of a tree written from entries gives the entries
/// back, each with the kind its mode stands for.
pub proof fn law_tree_roundtrip(entries: Seq<(Seq<char>, Seq<char>, Seq<u8>)>)
    requires
        entries.len() > 0,
        storable_entries(entries),
    ensures
        parse_tree_from(tree_bytes(entries), 0) == Ok::<Seq<TreeEntryView>, GitError>(
            entries.map_values(|e: (Seq<char>, Seq<char>, Seq<u8>)| entry_of(e)),
        ),
{
    lemma_tree_roundtrip_from(Seq::empty(), entries);
    assert(Seq::<u8>::empty() + tree_bytes(entries) =~= tree_bytes(entries));
}


proof fn lemma_encode_scalar_not_space(c: char)
    requires
        c != ' ',
    ensures
        forall|j: int| 0 <= j < encode_scalar(c as u32).len() ==> #[trigger] encode_scalar(c as u32)[j] != ' ' as u8,
{
    let v = c as u32;
    assert(v != 0x20);
    if has_width_1_encoding(v) {
        assert(v != 0x20 && v <= 0x7F ==> (v & 0x7F) as u8 != 0x20u8) by (bit_vector);
    } else {
        assert((0xC0u8 | ((v >> 6) & 0x1F) as u8) != 0x20u8) by (bit_vector);
        assert((0xE0u8 | ((v >> 12) & 0x0F) as u8) != 0x20u8) by (bit_vector);
        assert((0xF0u8 | ((v >> 18) & 0x7) as u8) != 0x20u8) by (bit_vector);
        assert((0x80u8 | (v & 0x3F) as u8) != 0x20u8) by (bit_vector);
        assert((0x80u8 | ((v >> 6) & 0x3F) as u8) != 0x20u8) by (bit_vector);
        assert((0x80u8 | ((v >> 12) & 0x3F) as u8) != 0x20u8) by (bit_vector);
    }
}

/// Text without spaces has no space byte in UTF-8.
pub proof fn lemma_encode_utf8_no_space(chars: Seq<char>)
    requires
        forall|i: int| 0 <= i < chars.len() ==> chars[i] != ' ',
    ensures
        forall|j: int| 0 <= j < encode_utf8(chars).len() ==> #[trigger] encode_utf8(chars)[j] != ' ' as u8,
    decreases chars.len(),
{
    if chars.len() > 0 {
        lemma_encode_scalar_not_space(chars[0]);
        lemma_encode_utf8_no_space(chars.drop_first());
        let first = encode_scalar(chars[0] as u32);
        let rest = encode_utf8(chars.drop_first());
        assert forall|j: int| 0 <= j < encode_utf8(chars).len() implies #[trigger] encode_utf8(chars)[j] != ' ' as u8 by {
            if j < first.len() {
                assert(encode_utf8(chars)[j] == first[j]);
            } else {
                assert(encode_utf8(chars)[j] == rest[j - first.len()]);
            }
        }
    }
}

/// The mode bytes that tree modes are read from name a kind only where they
/// are the UTF-8 of a tree mode, and then the kind that mode stands for.
proof fn lemma_mode_kind_chars(b: Seq<u8>)
    requires
        valid_utf8(b),
    ensures
        tree_mode_kind(b) is Some ==> is_tree_mode(decode_utf8(b)) && tree_mode_kind(b) == Some(
            if decode_utf8(b) == seq!['4', '0', '0', '0', '0'] {
                Kind::Tree
            } else {
                Kind::Blob
            },
        ),
        is_tree_mode(decode_utf8(b)) ==> tree_mode_kind(b) is Some,
{
    let t1 = seq!['1', '0', '0', '6', '4', '4'];
    let t2 = seq!['1', '0', '0', '7', '5', '5'];
    let t3 = seq!['1', '2', '0', '0', '0', '0'];
    let t4 = seq!['4', '0', '0', '0', '0'];
    assert(is_tree_mode(t1) && is_tree_mode(t2) && is_tree_mode(t3) && is_tree_mode(t4));
    lemma_tree_mode_bytes(t1);
    lemma_tree_mode_bytes(t2);
    lemma_tree_mode_bytes(t3);
    lemma_tree_mode_bytes(t4);
    assert(encode_utf8(t1) =~= seq!['1' as u8, '0' as u8, '0' as u8, '6' as u8, '4' as u8, '4' as u8]);
    assert(encode_utf8(t2) =~= seq!['1' as u8, '0' as u8, '0' as u8, '7' as u8, '5' as u8, '5' as u8]);
    assert(encode_utf8(t3) =~= seq!['1' as u8, '2' as u8, '0' as u8, '0' as u8, '0' as u8, '0' as u8]);
    assert(encode_utf8(t4) =~= seq!['4' as u8, '0' as u8, '0' as u8, '0' as u8, '0' as u8]);
    decode_utf8_encode_utf8(b);
    assert(t1 != t4 && t2 != t4 && t3 != t4) by {
        assert(t1.len() != t4.len() && t2.len() != t4.len() && t3.len() != t4.len());
    }
}

/// Each entry read out of tree contents has a tree mode and the kind that
/// mode stands for: `Tree` for `40000`, `Blob` for the others, never `Commit`.
pub proof fn law_entry_kind_of_mode(c: Seq<u8>, pos: int)
    ensures
        parse_tree_from(c, pos) matches Ok(es) ==> forall|i: int|
            0 <= i < es.len() ==> is_tree_mode(#[trigger] es[i].mode) && es[i].kind == (if es[i].mode
                == seq!['4', '0', '0', '0', '0'] {
                Kind::Tree
            } else {
                Kind::Blob
            }),
    decreases c.len() - pos,
{
    if 0 <= pos <= c.len() {
        let sp = index_from(c, ' ' as u8, pos);
        let after_mode = if sp < c.len() {
            sp + 1
        } else {
            sp
        };
        lemma_index_from(c, ' ' as u8, pos);
        lemma_index_from(c, 0u8, after_mode);
        let nul = index_from(c, 0u8, after_mode);
        let after_name = if nul < c.len() {
            nul + 1
        } else {
            nul
        };
        let mode = c.subrange(pos, sp);
        if after_name + 20 <= c.len() && valid_utf8(mode) && valid_utf8(c.subrange(after_mode, nul)) {
            lemma_mode_kind_chars(mode);
            if after_name + 20 < c.len() {
                law_entry_kind_of_mode(c, after_name + 20);
            }
        }
    }
}

/// Entries whose names hold no NUL, whose modes hold no space and whose
/// hashes are 20 bytes, from `prefix.len()` on, read as a failure with
/// `UnrecognizedTreeEntry` where one mode is not a tree mode.
proof fn lemma_tree_bad_mode_from(prefix: Seq<u8>, entries: Seq<(Seq<char>, Seq<char>, Seq<u8>)>)
    requires
        forall|i: int|
            0 <= i < entries.len() ==> {
                &&& (forall|k: int| 0 <= k < (#[trigger] entries[i]).0.len() ==> entries[i].0[k] != ' ')
                &&& (forall|k: int| 0 <= k < entries[i].1.len() ==> entries[i].1[k] != '\0')
                &&& entries[i].2.len() == 20
            },
        exists|i: int| 0 <= i < entries.len() && !is_tree_mode(#[trigger] entries[i].0),
    ensures
        parse_tree_from(prefix + tree_bytes(entries), prefix.len() as int) == Err::<Seq<TreeEntryView>, GitError>(
            GitError::UnrecognizedTreeEntry,
        ),
    decreases entries.len(),
{
    let e = entries[0];
    let rest = entries.drop_first();
    let mb = encode_utf8(e.0);
    let nb = encode_utf8(e.1);
    let eb = tree_entry_bytes(e.0, e.1, e.2);
    let c = prefix + tree_bytes(entries);
    let pos = prefix.len() as int;
    assert(entries[0] == e);
    lemma_encode_utf8_no_space(e.0);
    lemma_encode_utf8_no_nul(e.1);
    encode_utf8_valid_utf8(e.0);
    encode_utf8_valid_utf8(e.1);
    encode_utf8_decode_utf8(e.0);
    assert(c =~= prefix + eb + tree_bytes(rest));
    let sp = pos + mb.len();
    assert(c[sp] == ' ' as u8);
    assert forall|q: int| pos <= q < sp implies c[q] != ' ' as u8 by {
        assert(c[q] == mb[q - pos]);
    }
    crate::text::lemma_index_from_is(c, ' ' as u8, pos, sp);
    let after_mode = sp + 1;
    let nul = after_mode + nb.len();
    assert(c[nul] == 0u8);
    assert forall|q: int| after_mode <= q < nul implies c[q] != 0u8 by {
        assert(c[q] == nb[q - after_mode]);
    }
    crate::text::lemma_index_from_is(c, 0u8, after_mode, nul);
    let after_name = nul + 1;
    assert(c.subrange(after_mode, nul) =~= nb);
    assert(c.subrange(pos, sp) =~= mb);
    lemma_mode_kind_chars(mb);
    if is_tree_mode(e.0) {
        let w = choose|i: int| 0 <= i < entries.len() && !is_tree_mode(#[trigger] entries[i].0);
        assert(w > 0);
        assert forall|i: int| 0 <= i < rest.len() implies {
            &&& (forall|k: int| 0 <= k < (#[trigger] rest[i]).0.len() ==> rest[i].0[k] != ' ')
            &&& (forall|k: int| 0 <= k < rest[i].1.len() ==> rest[i].1[k] != '\0')
            &&& rest[i].2.len() == 20
        } by {
            assert(rest[i] == entries[i + 1]);
        }
        assert(rest[w - 1] == entries[w]);
        let prefix2 = prefix + eb;
        lemma_tree_bad_mode_from(prefix2, rest);
        assert(prefix2 + tree_bytes(rest) =~= c);
        assert(prefix2.len() == after_name + 20);
        assert(tree_bytes(rest).len() > 0) by {
            assert(tree_bytes(rest) =~= tree_entry_bytes(rest[0].0, rest[0].1, rest[0].2) + tree_bytes(rest.drop_first()));
        }
    }
}

/// Reading the contents of a tree written from entries whose names hold no
/// NUL, whose modes hold no space and whose hashes are 20 bytes gives the
/// entries back, each with the kind of its mode, where every mode is a tree
/// mode; where one is not, it fails with `UnrecognizedTreeEntry`.
pub proof fn law_tree_modes(entries: Seq<(Seq<char>, Seq<char>, Seq<u8>)>)
    requires
        entries.len() > 0,
        forall|i: int|
            0 <= i < entries.len() ==> {
                &&& (forall|k: int| 0 <= k < (#[trigger] entries[i]).0.len() ==> entries[i].0[k] != ' ')
                &&& (forall|k: int| 0 <= k < entries[i].1.len() ==> entries[i].1[k] != '\0')
                &&& entries[i].2.len() == 20
            },
    ensures
        (forall|i: int| 0 <= i < entries.len() ==> is_tree_mode(#[trigger] entries[i].0)) ==> parse_tree_from(
            tree_bytes(entries),
            0,
        ) == Ok::<Seq<TreeEntryView>, GitError>(
            entries.map_values(|e: (Seq<char>, Seq<char>, Seq<u8>)| entry_of(e)),
        ),
        (exists|i: int| 0 <= i < entries.len() && !is_tree_mode(#[trigger] entries[i].0)) ==> parse_tree_from(
            tree_bytes(entries),
            0,
        ) == Err::<Seq<TreeEntryView>, GitError>(GitError::UnrecognizedTreeEntry),
{
    assert(Seq::<u8>::empty() + tree_bytes(entries) =~= tree_bytes(entries));
    if forall|i: int| 0 <= i < entries.len() ==> is_tree_mode(#[trigger] entries[i].0) {
        assert(storable_entries(entries));
        law_tree_roundtrip(entries);
    } else {
        lemma_tree_bad_mode_from(Seq::empty(), entries);
    }
}

} // verus!
