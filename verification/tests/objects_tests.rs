use rvc::codec::decompress_zlib;
use rvc::error::GitError;
use rvc::objects::{tree_contents, GitObject, Kind};

const HELLO_HASH: &str = "ce013625030ba8dba906f756967f9e9ca394464a";

#[test]
fn blob_hash_matches_git() {
    let o = GitObject::from_path(b"hello\n".to_vec()).unwrap();
    assert_eq!(o.hex_string(), HELLO_HASH);
    assert_eq!(*o.kind(), Kind::Blob);
    assert_eq!(o.contents(), &b"hello\n".to_vec());
}

#[test]
fn empty_blob_hash_matches_git() {
    let o = GitObject::build(Kind::Blob, Vec::new()).unwrap();
    assert_eq!(o.hex_string(), "e69de29bb2d1d6434b8b29ae775ad8c2e48c5391");
}

#[test]
fn write_places_object_under_its_hash() {
    let o = GitObject::from_path(b"hello\n".to_vec()).unwrap();
    let f = o.write().unwrap();
    assert_eq!(f.dir, "ce");
    assert_eq!(f.file, "013625030ba8dba906f756967f9e9ca394464a");
    let raw = decompress_zlib(&f.data).unwrap();
    assert_eq!(raw, b"blob 6\0hello\n".to_vec());
}

#[test]
fn object_dir_path_is_under_git() {
    assert_eq!(GitObject::object_dir_path(), ".git/objects");
    assert_eq!(GitObject::commiter(), "");
}

#[test]
fn read_object_gives_back_what_was_written() {
    let o = GitObject::from_path(b"hello\n".to_vec()).unwrap();
    let f = o.write().unwrap();
    let back = GitObject::read_object(HELLO_HASH, &f.data).unwrap().unwrap();
    assert_eq!(*back.kind(), Kind::Blob);
    assert_eq!(back.contents(), &b"hello\n".to_vec());
    assert_eq!(back.hex_string(), HELLO_HASH);
    let same = GitObject::from_hex_string(HELLO_HASH, &f.data).unwrap();
    assert_eq!(same.contents(), &b"hello\n".to_vec());
}

#[test]
fn read_object_rejects_bad_hex() {
    let o = GitObject::from_path(b"hello\n".to_vec()).unwrap();
    let f = o.write().unwrap();
    match GitObject::read_object("zz", &f.data) {
        Some(Err(e)) => assert_eq!(e, GitError::InvalidHex),
        _ => panic!("expected an error"),
    }
}

#[test]
fn read_object_rejects_corrupt_stream() {
    match GitObject::read_object(HELLO_HASH, b"not a zlib stream") {
        Some(Err(e)) => assert_eq!(e, GitError::CorruptObject),
        _ => panic!("expected an error"),
    }
}

#[test]
fn read_object_stops_where_size_exceeds_contents() {
    let o = GitObject::build(Kind::Blob, b"hi".to_vec()).unwrap();
    let f = o.write().unwrap();
    // a header that claims more bytes than follow
    let bad = GitObject::build(Kind::Blob, Vec::new()).unwrap();
    let _ = bad;
    let mut raw = decompress_zlib(&f.data).unwrap();
    raw[5] = b'9';
    let mut enc = flate2::write::ZlibEncoder::new(Vec::new(), flate2::Compression::default());
    std::io::Write::write_all(&mut enc, &raw).unwrap();
    let stored = enc.finish().unwrap();
    assert!(GitObject::read_object(&o.hex_string(), &stored).is_none());
}

#[test]
fn unknown_kind_is_rejected() {
    let raw = b"blub 2\0hi".to_vec();
    let mut enc = flate2::write::ZlibEncoder::new(Vec::new(), flate2::Compression::default());
    std::io::Write::write_all(&mut enc, &raw).unwrap();
    let stored = enc.finish().unwrap();
    match GitObject::read_object(HELLO_HASH, &stored) {
        Some(Err(e)) => assert_eq!(e, GitError::UnknownObjectKind),
        _ => panic!("expected an error"),
    }
}

#[test]
fn commit_text_with_parent() {
    let c = GitObject::build_commit("msg", "t1", Some("p1")).unwrap();
    assert_eq!(*c.kind(), Kind::Commit);
    assert_eq!(
        String::from_utf8(c.contents().clone()).unwrap(),
        "tree t1\nparent p1\nauthor \ncommitter \n\nmsg\n"
    );
}

#[test]
fn commit_hash_matches_git_form() {
    let c = GitObject::build_commit("first", "aaa96ced2d9a1c8e72c56b253a0e2fe78393feb7", None).unwrap();
    assert_eq!(c.hex_string(), "2ab928916dfb8b4d59d396eafcfa69a4efca5ae7");
}

#[test]
fn tree_entries_read_back() {
    let hello = GitObject::from_path(b"hello\n".to_vec()).unwrap();
    let hash = hex::decode(hello.hex_string()).unwrap();
    let entries = vec![
        ("100644".to_string(), "hello.txt".to_string(), hash.clone()),
        ("40000".to_string(), "src".to_string(), hash.clone()),
    ];
    let contents = tree_contents(&entries);
    let tree = GitObject::build(Kind::Tree, contents).unwrap();
    let read = tree.tree_entries().unwrap();
    assert_eq!(read.len(), 2);
    assert_eq!(read[0].filename(), "hello.txt");
    assert_eq!(*read[0].kind(), Kind::Blob);
    assert_eq!(read[0].mode(), "100644");
    assert_eq!(read[0].hex_string(), HELLO_HASH);
    assert_eq!(read[1].filename(), "src");
    assert_eq!(*read[1].kind(), Kind::Tree);
}

#[test]
fn single_file_tree_hash_matches_git() {
    let hash = hex::decode(HELLO_HASH).unwrap();
    let entries = vec![("100644".to_string(), "hello.txt".to_string(), hash)];
    let tree = GitObject::build(Kind::Tree, tree_contents(&entries)).unwrap();
    assert_eq!(tree.hex_string(), "aaa96ced2d9a1c8e72c56b253a0e2fe78393feb7");
}

#[test]
fn tree_entries_of_a_blob_fail() {
    let o = GitObject::from_path(b"x".to_vec()).unwrap();
    assert_eq!(o.tree_entries().err(), Some(GitError::NotATree));
}

#[test]
fn tree_with_unknown_mode_fails() {
    let entries = vec![("100600".to_string(), "a".to_string(), vec![0u8; 20])];
    let tree = GitObject::build(Kind::Tree, tree_contents(&entries)).unwrap();
    assert_eq!(tree.tree_entries().err(), Some(GitError::UnrecognizedTreeEntry));
}

#[test]
fn kind_names_as_shown() {
    assert_eq!(Kind::Blob.display_name(), "blob");
    assert_eq!(Kind::Tree.display_name(), "Tree");
    assert_eq!(Kind::Commit.display_name(), "Commit");
}

#[test]
fn truncated_tree_fails() {
    let mut contents = b"100644 a\0".to_vec();
    contents.extend_from_slice(&[1u8; 5]);
    let tree = GitObject::build(Kind::Tree, contents).unwrap();
    assert_eq!(tree.tree_entries().err(), Some(GitError::TruncatedTree));
}

#[test]
fn tree_kinds_follow_modes_and_a_later_bad_mode_fails() {
    let h = vec![7u8; 20];
    let good = vec![
        ("40000".to_string(), "dir".to_string(), h.clone()),
        ("100755".to_string(), "run.sh".to_string(), h.clone()),
        ("120000".to_string(), "link".to_string(), h.clone()),
    ];
    let tree = GitObject::build(Kind::Tree, tree_contents(&good)).unwrap();
    let read = tree.tree_entries().unwrap();
    assert_eq!(*read[0].kind(), Kind::Tree);
    assert_eq!(*read[1].kind(), Kind::Blob);
    assert_eq!(*read[2].kind(), Kind::Blob);
    let mut bad = good.clone();
    bad.push(("100600".to_string(), "odd".to_string(), h.clone()));
    let tree = GitObject::build(Kind::Tree, tree_contents(&bad)).unwrap();
    assert_eq!(tree.tree_entries().err(), Some(GitError::UnrecognizedTreeEntry));
}

#[test]
fn written_tree_reads_back_by_its_name() {
    let entries = vec![("100644".to_string(), "a.txt".to_string(), vec![1u8; 20])];
    let o = GitObject::build(Kind::Tree, tree_contents(&entries)).unwrap();
    let f = o.write().unwrap();
    let back = GitObject::from_hex_string(&o.hex_string(), &f.data).unwrap();
    assert_eq!(*back.kind(), Kind::Tree);
    assert_eq!(back.contents(), o.contents());
    assert_eq!(back.hex_string(), o.hex_string());
}
