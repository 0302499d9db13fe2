//! `cat-file`: the text that showing a stored object prints.
use vstd::prelude::*;
use vstd::utf8::*;
use crate::codec::str_from_utf8;
use crate::error::GitError;
use crate::hexcode::{hex_decode, hex_decoded, hex_encode, hex_encoded};
use crate::objects::{
    lemma_encode_utf8_no_nul, lemma_encode_utf8_no_space, read_object_of, tree_bytes,
    GitObject, GitObjectView, Kind,
};
use crate::text::{byte_index_from, index_from, lemma_index_from, push_bytes, push_str};

verus! {

/// How showing an object ends.
pub enum CatEnd {
    /// All was shown.
    Done,
    /// It stops with this error.
    Failed(GitError),
    /// The object is malformed in a way that stops the program.
    Stops,
}

/// How showing an object ends, by view.
pub enum CatEndView {
    Done,
    Failed(GitError),
    Stops,
}

/// The view of an ending.
pub open spec fn cat_end_view(e: CatEnd) -> CatEndView {
    match e {
        CatEnd::Done => CatEndView::Done,
        CatEnd::Failed(g) => CatEndView::Failed(g),
        CatEnd::Stops => CatEndView::Stops,
    }
}

/// A listing's text in front of an outcome.
pub open spec fn prepend_shown(
    t: Seq<char>,
    r: (Seq<char>, CatEndView),
) -> (Seq<char>, CatEndView) {
    (t + r.0, r.1)
}

/// The lines that listing tree contents prints (`mode hash\tname`), and how
/// it ends: it stops where an entry lacks a space, a NUL or a whole hash, and
/// fails where a mode or name is not UTF-8.
pub open spec fn tree_listing(data: Seq<u8>) -> (Seq<char>, CatEndView)
    decreases data.len(),
{
    if data.len() == 0 {
        (Seq::empty(), CatEndView::Done)
    } else {
        let sp = index_from(data, ' ' as u8, 0);
        if sp >= data.len() {
            (Seq::empty(), CatEndView::Stops)
        } else if !valid_utf8(data.subrange(0, sp)) {
            (Seq::empty(), CatEndView::Failed(GitError::InvalidUtf8))
        } else {
            let rest = data.subrange(sp + 1, data.len() as int);
            let np = index_from(rest, 0u8, 0);
            if np >= rest.len() {
                (Seq::empty(), CatEndView::Stops)
            } else if !valid_utf8(rest.subrange(0, np)) {
                (Seq::empty(), CatEndView::Failed(GitError::InvalidUtf8))
            } else if np + 21 > rest.len() {
                (Seq::empty(), CatEndView::Stops)
            } else {
                let line = decode_utf8(data.subrange(0, sp)) + " "@ + hex_encoded(rest.subrange(np + 1, np + 21))
                    + "\t"@ + decode_utf8(rest.subrange(0, np)) + "\n"@;
                proof {
                    lemma_index_from(data, ' ' as u8, 0);
                    lemma_index_from(rest, 0u8, 0);
                }
                prepend_shown(line, tree_listing(rest.subrange(np + 21, rest.len() as int)))
            }
        }
    }
}

/// What showing an object prints, and how it ends: a blob's text, a tree's
/// listing, a commit's text and a newline.
pub open spec fn show_object(o: GitObjectView) -> (Seq<char>, CatEndView) {
    match o.kind {
        Kind::Tree => tree_listing(o.contents),
        _ => if valid_utf8(o.contents) {
            (
                if o.kind == Kind::Commit {
                    decode_utf8(o.contents) + "\n"@
                } else {
                    decode_utf8(o.contents)
                },
                CatEndView::Done,
            )
        } else {
            (Seq::empty(), CatEndView::Failed(GitError::InvalidUtf8))
        },
    }
}

/// What `cat-file` with these arguments prints, and how it ends, given the
/// stored bytes of the object that the last argument names (where they could
/// be read).
pub open spec fn cat_file_of(args: Seq<Seq<char>>, stored: Option<Seq<u8>>) -> (Seq<char>, CatEndView) {
    if args.len() == 0 {
        (Seq::empty(), CatEndView::Failed(GitError::MissingObjectHash))
    } else if encode_utf8(args.last()).len() != 40 {
        (Seq::empty(), CatEndView::Failed(GitError::InvalidObjectHash))
    } else if hex_decoded(args.last()) is None {
        (Seq::empty(), CatEndView::Failed(GitError::InvalidHex))
    } else {
        match stored {
            None => (Seq::empty(), CatEndView::Failed(GitError::ObjectMissing)),
            Some(bytes) => match read_object_of(args.last(), bytes) {
                None => (Seq::empty(), CatEndView::Stops),
                Some(Err(e)) => (Seq::empty(), CatEndView::Failed(e)),
                Some(Ok(o)) => show_object(o),
            },
        }
    }
}

/// The lines that listing tree contents prints, and how it ends.
pub fn list_tree(data: &[u8]) -> (res: (String, CatEnd))
    ensures
        (res.0@, cat_end_view(res.1)) == tree_listing(data@),
{
    let mut out = String::new();
    let mut pos: usize = 0;
    assert(data@.subrange(0, data@.len() as int) =~= data@);
    assert(tree_listing(data@) == prepend_shown(out@, tree_listing(data@.subrange(0, data@.len() as int))));
    loop
        invariant
            pos <= data.len(),
            tree_listing(data@) == prepend_shown(out@, tree_listing(data@.subrange(pos as int, data.len() as int))),
        decreases data.len() - pos,
    {
        let ghost d = data@.subrange(pos as int, data.len() as int);
        if pos == data.len() {
            assert(d.len() == 0);
            assert(out@ + Seq::<char>::empty() =~= out@);
            return (out, CatEnd::Done);
        }
        let sp = byte_index_from(data, ' ' as u8, pos);
        proof {
            lemma_index_from(data@, ' ' as u8, pos as int);
            lemma_index_shift_u8(data@, ' ' as u8, pos as int, pos as int);
        }
        if sp >= data.len() {
            assert(out@ + Seq::<char>::empty() =~= out@);
            return (out, CatEnd::Stops);
        }
        let mut mode: Vec<u8> = Vec::new();
        push_bytes(&mut mode, data, pos, sp);
        assert(mode@ =~= d.subrange(0, sp - pos));
        let mode_text = match str_from_utf8(mode.as_slice()) {
            Ok(t) => t,
            Err(_) => {
                assert(out@ + Seq::<char>::empty() =~= out@);
                return (out, CatEnd::Failed(GitError::InvalidUtf8));
            },
        };
        let ghost rest = d.subrange(sp - pos + 1, d.len() as int);
        assert(rest =~= data@.subrange(sp + 1, data.len() as int));
        let np = byte_index_from(data, 0u8, sp + 1);
        proof {
            lemma_index_from(data@, 0u8, sp + 1);
            lemma_index_shift_u8(data@, 0u8, sp + 1, sp + 1);
        }
        if np >= data.len() {
            assert(out@ + Seq::<char>::empty() =~= out@);
            return (out, CatEnd::Stops);
        }
        let mut name: Vec<u8> = Vec::new();
        push_bytes(&mut name, data, sp + 1, np);
        assert(name@ =~= rest.subrange(0, np - sp - 1));
        let name_text = match str_from_utf8(name.as_slice()) {
            Ok(t) => t,
            Err(_) => {
                assert(out@ + Seq::<char>::empty() =~= out@);
                return (out, CatEnd::Failed(GitError::InvalidUtf8));
            },
        };
        if data.len() - np < 21 {
            assert(out@ + Seq::<char>::empty() =~= out@);
            return (out, CatEnd::Stops);
        }
        let mut hash: Vec<u8> = Vec::new();
        push_bytes(&mut hash, data, np + 1, np + 21);
        assert(hash@ =~= rest.subrange(np - sp - 1 + 1, np - sp - 1 + 21));
        let hex = hex_encode(hash.as_slice());
        let ghost before = out@;
        push_str(&mut out, mode_text);
        push_str(&mut out, " ");
        push_str(&mut out, hex.as_str());
        push_str(&mut out, "\t");
        push_str(&mut out, name_text);
        push_str(&mut out, "\n");
        proof {
            let line = decode_utf8(d.subrange(0, sp - pos)) + " "@ + hex_encoded(rest.subrange(np - sp, np - sp + 20))
                + "\t"@ + decode_utf8(rest.subrange(0, np - sp - 1)) + "\n"@;
            assert(out@ =~= before + line);
            assert(rest.subrange(np - sp - 1 + 21, rest.len() as int) =~= data@.subrange(np + 21, data.len() as int));
            assert(before + (line + tree_listing(data@.subrange(np + 21, data.len() as int)).0) =~= out@ + tree_listing(data@.subrange(np + 21, data.len() as int)).0);
        }
        pos = np + 21;
    }
}

proof fn lemma_index_shift_u8(s: Seq<u8>, x: u8, base: int, q: int)
    requires
        0 <= base <= q <= s.len(),
    ensures
        index_from(s.subrange(base, s.len() as int), x, q - base) == index_from(s, x, q) - base,
    decreases s.len() - q,
{
    if q < s.len() && s[q] != x {
        lemma_index_shift_u8(s, x, base, q + 1);
    }
}

/// What showing an object prints, and how it ends.
pub fn show(o: &GitObject) -> (res: (String, CatEnd))
    ensures
        (res.0@, cat_end_view(res.1)) == show_object(o@),
{
    match o.kind() {
        Kind::Tree => list_tree(o.contents().as_slice()),
        k => match str_from_utf8(o.contents().as_slice()) {
            Ok(t) => {
                let mut out = t.to_string();
                if matches!(k, Kind::Commit) {
                    push_str(&mut out, "\n");
                }
                (out, CatEnd::Done)
            },
            Err(_) => (String::new(), CatEnd::Failed(GitError::InvalidUtf8)),
        },
    }
}

/// What `cat-file` with these arguments prints, and how it ends, given the
/// stored bytes of the object the last argument names (where they could be
/// read).
pub fn cat_file(args: &Vec<String>, stored: &Option<Vec<u8>>) -> (res: (String, CatEnd))
    ensures
        (res.0@, cat_end_view(res.1)) == cat_file_of(
            crate::diff3::lines_view(args@),
            match stored {
                Some(b) => Some(b@),
                None => None,
            },
        ),
{
    if args.len() == 0 {
        return (String::new(), CatEnd::Failed(GitError::MissingObjectHash));
    }
    let hex_string = &args[args.len() - 1];
    if hex_string.as_str().as_bytes().len() != 40 {
        return (String::new(), CatEnd::Failed(GitError::InvalidObjectHash));
    }
    if hex_decode(hex_string.as_str()).is_err() {
        return (String::new(), CatEnd::Failed(GitError::InvalidHex));
    }
    let bytes = match stored {
        None => {
            return (String::new(), CatEnd::Failed(GitError::ObjectMissing));
        },
        Some(b) => b,
    };
    match GitObject::read_object(hex_string.as_str(), bytes.as_slice()) {
        None => (String::new(), CatEnd::Stops),
        Some(Err(e)) => (String::new(), CatEnd::Failed(e)),
        Some(Ok(o)) => show(&o),
    }
}

/// One line for each (mode, name, hash) entry, in order: the mode, a space,
/// the hash in hex, a tab, the name and a newline.
pub open spec fn entry_lines(es: Seq<(Seq<char>, Seq<char>, Seq<u8>)>) -> Seq<char>
    decreases es.len(),
{
    if es.len() == 0 {
        Seq::empty()
    } else {
        es[0].0 + " "@ + hex_encoded(es[0].2) + "\t"@ + es[0].1 + "\n"@ + entry_lines(es.drop_first())
    }
}

/// Listing the contents of a tree written from entries whose modes hold no
/// space, whose names hold no NUL and whose hashes are 20 bytes prints one
/// line for each entry, in order, and ends normally.
pub proof fn law_tree_listing(es: Seq<(Seq<char>, Seq<char>, Seq<u8>)>)
    requires
        forall|i: int|
            0 <= i < es.len() ==> {
                &&& (forall|k: int| 0 <= k < (#[trigger] es[i]).0.len() ==> es[i].0[k] != ' ')
                &&& (forall|k: int| 0 <= k < es[i].1.len() ==> es[i].1[k] != '\0')
                &&& es[i].2.len() == 20
            },
    ensures
        tree_listing(tree_bytes(es)) == (entry_lines(es), CatEndView::Done),
    decreases es.len(),
{
    if es.len() > 0 {
        let e = es[0];
        let rest = es.drop_first();
        assert(es[0] == e);
        assert forall|i: int| 0 <= i < rest.len() implies {
            &&& (forall|k: int| 0 <= k < (#[trigger] rest[i]).0.len() ==> rest[i].0[k] != ' ')
            &&& (forall|k: int| 0 <= k < rest[i].1.len() ==> rest[i].1[k] != '\0')
            &&& rest[i].2.len() == 20
        } by {
            assert(rest[i] == es[i + 1]);
        }
        law_tree_listing(rest);
        let mb = encode_utf8(e.0);
        let nb = encode_utf8(e.1);
        lemma_encode_utf8_no_space(e.0);
        lemma_encode_utf8_no_nul(e.1);
        encode_utf8_valid_utf8(e.0);
        encode_utf8_valid_utf8(e.1);
        encode_utf8_decode_utf8(e.0);
        encode_utf8_decode_utf8(e.1);
        let tb = tree_bytes(rest);
        let data = tree_bytes(es);
        assert(data =~= mb + seq![' ' as u8] + nb + seq![0u8] + e.2 + tb);
        let sp = mb.len() as int;
        assert(data[sp] == ' ' as u8);
        assert forall|q: int| 0 <= q < sp implies data[q] != ' ' as u8 by {
            assert(data[q] == mb[q]);
        }
        crate::text::lemma_index_from_is(data, ' ' as u8, 0, sp);
        assert(data.subrange(0, sp) =~= mb);
        let r = data.subrange(sp + 1, data.len() as int);
        assert(r =~= nb + seq![0u8] + e.2 + tb);
        let np = nb.len() as int;
        assert(r[np] == 0u8);
        assert forall|q: int| 0 <= q < np implies r[q] != 0u8 by {
            assert(r[q] == nb[q]);
        }
        crate::text::lemma_index_from_is(r, 0u8, 0, np);
        assert(r.subrange(0, np) =~= nb);
        assert(r.subrange(np + 1, np + 21) =~= e.2);
        assert(r.subrange(np + 21, r.len() as int) =~= tb);
        assert(data.len() > 0);
    }
}

} // verus!
