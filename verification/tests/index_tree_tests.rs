use rvc::commit::{commit, commit_tree, conflict_markers_in, merge_head_of, unresolved_files};
use rvc::diff3::diff3_merge;
use rvc::error::GitError;
use rvc::index::{add, add_paths, get_staged_files, stage_file, AddOutcome};
use rvc::objects::Kind;
use rvc::tree::write_tree;

const HELLO: &str = "ce013625030ba8dba906f756967f9e9ca394464a";
const WORLD: &str = "cc628ccd10742baea8241c5924df992b5c019f71";

fn entry(m: &str, h: &str, p: &str) -> (String, String, String) {
    (m.to_string(), h.to_string(), p.to_string())
}

#[test]
fn staging_replaces_the_old_entry() {
    let idx = stage_file("", "100644", "aaa", "src/a.rs");
    assert_eq!(idx, "100644 aaa src/a.rs\n");
    let idx = stage_file(&idx, "100644", "bbb", "b.rs");
    let idx = stage_file(&idx, "100755", "ccc", "src/a.rs");
    assert_eq!(idx, "100644 bbb b.rs\n100755 ccc src/a.rs\n");
    assert_eq!(
        get_staged_files(&idx),
        vec![entry("100644", "bbb", "b.rs"), entry("100755", "ccc", "src/a.rs")]
    );
}

#[test]
fn staged_files_skip_blank_and_short_lines() {
    let idx = "100644 aaa a file with spaces\n\n   \nonly two\n";
    assert_eq!(get_staged_files(idx), vec![entry("100644", "aaa", "a file with spaces")]);
    assert_eq!(get_staged_files(""), Vec::<(String, String, String)>::new());
}

#[test]
fn add_stores_blob_and_stages_it() {
    let (blob, idx) = add(b"hello\n".to_vec(), false, 0o644, "hello.txt", "").unwrap();
    assert_eq!(blob.hex_string(), HELLO);
    assert_eq!(idx, format!("100644 {} hello.txt\n", HELLO));
    let (_, idx2) = add(b"x".to_vec(), false, 0o755, "run.sh", &idx).unwrap();
    assert!(idx2.ends_with("run.sh\n"));
    assert!(idx2.contains("100755 "));
    let (_, idx3) = add(b"x".to_vec(), true, 0o644, "link", "").unwrap();
    assert!(idx3.starts_with("120000 "));
}

#[test]
fn add_paths_reports_each_failure() {
    assert_eq!(add_paths(&vec![], &vec![]), Err(GitError::NothingSpecified));
    let paths = vec!["a".to_string(), "b".to_string(), "c".to_string(), "d".to_string()];
    let outcomes = vec![
        AddOutcome::Added,
        AddOutcome::Missing,
        AddOutcome::Unsupported,
        AddOutcome::Failed("denied".to_string()),
    ];
    assert_eq!(
        add_paths(&paths, &outcomes),
        Err(GitError::AddFailures(
            "pathspec 'b' did not match any files\nc: unsupported path type: c\nd: denied".to_string()
        ))
    );
    assert_eq!(add_paths(&vec!["a".to_string()], &vec![AddOutcome::Added]), Ok(()));
}

#[test]
fn write_tree_of_one_file_matches_git() {
    let (hash, objs) = write_tree(&vec![entry("100644", HELLO, "hello.txt")]).unwrap();
    assert_eq!(hash, "aaa96ced2d9a1c8e72c56b253a0e2fe78393feb7");
    assert_eq!(objs.len(), 1);
    assert_eq!(*objs[0].kind(), Kind::Tree);
}

#[test]
fn write_tree_nests_directories() {
    let staged = vec![entry("100644", WORLD, "src/main.rs"), entry("100644", HELLO, "hello.txt")];
    let (hash, objs) = write_tree(&staged).unwrap();
    assert_eq!(hash, "f0e9c2eb50b741166c8ce490dfbda48cd64ebc22");
    assert_eq!(objs.len(), 2);
    assert_eq!(objs[0].hex_string(), "71cf5ddb94c1045ba7b785e1834a28f7c315d888");
    assert_eq!(objs[1].hex_string(), hash);
}

#[test]
fn write_tree_errors() {
    assert_eq!(write_tree(&vec![]).err(), Some(GitError::NothingToCommit));
    assert_eq!(
        write_tree(&vec![entry("100644", "xyz", "a")]).err(),
        Some(GitError::InvalidHash("xyz".to_string()))
    );
    assert_eq!(
        write_tree(&vec![entry("100644", HELLO, "..")]).err(),
        Some(GitError::InvalidPath("..".to_string()))
    );
}

#[test]
fn commit_tree_parses_flags() {
    let tree = "aaa96ced2d9a1c8e72c56b253a0e2fe78393feb7";
    let args = vec!["-m".to_string(), "first".to_string(), tree.to_string()];
    let c = commit_tree(&args).unwrap();
    assert_eq!(c.hex_string(), "2ab928916dfb8b4d59d396eafcfa69a4efca5ae7");
    let with_parent = vec![
        tree.to_string(),
        "-p".to_string(),
        "p".to_string(),
        "-m".to_string(),
        "old".to_string(),
        "-m".to_string(),
        "new".to_string(),
    ];
    let c2 = commit_tree(&with_parent).unwrap();
    assert_eq!(
        String::from_utf8(c2.contents().clone()).unwrap(),
        format!("tree {}\nparent p\nauthor \ncommitter \n\nnew\n", tree)
    );
}

#[test]
fn commit_tree_errors() {
    assert_eq!(commit_tree(&vec!["tree".to_string()]).err(), Some(GitError::MissingMessage));
    assert_eq!(
        commit_tree(&vec!["-m".to_string(), "x".to_string()]).err(),
        Some(GitError::MissingTreeHash)
    );
    assert_eq!(
        commit_tree(&vec!["-m".to_string(), "x".to_string(), "short".to_string()]).err(),
        Some(GitError::InvalidTreeHash)
    );
    assert_eq!(commit_tree(&vec!["x".to_string(), "-m".to_string()]).err(), Some(GitError::MissingMessage));
}

#[test]
fn merge_head_must_be_a_full_hash() {
    let full = format!("{}\n", HELLO);
    assert_eq!(merge_head_of(&Some(full)), Some(HELLO.to_string()));
    assert_eq!(merge_head_of(&Some("abc".to_string())), None);
    assert_eq!(merge_head_of(&None), None);
}

#[test]
fn conflict_markers_are_found() {
    assert!(conflict_markers_in("a\n<<<<<<< LOCAL\nb"));
    assert!(conflict_markers_in("=======\n"));
    assert!(conflict_markers_in("x\n>>>>>>> REMOTE extra"));
    assert!(!conflict_markers_in("a\n <<<<<<< LOCAL\n"));
    let staged = vec![entry("100644", HELLO, "a"), entry("100644", HELLO, "b")];
    let texts = vec!["clean".to_string(), "=======".to_string()];
    assert_eq!(unresolved_files(&staged, &texts), vec!["b".to_string()]);
}

#[test]
fn commit_makes_tree_and_commit() {
    let staged = vec![entry("100644", HELLO, "hello.txt")];
    let r = commit(&"first".to_string(), &None, &staged, &vec![], &None).unwrap();
    assert_eq!(r.tree_hash, "aaa96ced2d9a1c8e72c56b253a0e2fe78393feb7");
    assert_eq!(r.trees.len(), 1);
    assert_eq!(r.commit.hex_string(), "2ab928916dfb8b4d59d396eafcfa69a4efca5ae7");
}

#[test]
fn merge_commit_has_two_parents() {
    let staged = vec![entry("100644", HELLO, "hello.txt")];
    let r = commit(
        &"merged".to_string(),
        &Some("m".repeat(40)),
        &staged,
        &vec!["fine\n".to_string()],
        &Some("p".to_string()),
    )
    .unwrap();
    let text = String::from_utf8(r.commit.contents().clone()).unwrap();
    let who = "Code Crafters <000000000+codecrafters@users.noreply.github.com> 1750973235 +0000";
    assert_eq!(
        text,
        format!(
            "tree aaa96ced2d9a1c8e72c56b253a0e2fe78393feb7\nparent p\nparent {}\nauthor {}\ncommitter {}\n\nmerged\n",
            "m".repeat(40),
            who,
            who
        )
    );
}

#[test]
fn commit_refusals() {
    assert_eq!(commit(&"m".to_string(), &None, &vec![], &vec![], &None).err(), Some(GitError::NothingToCommit));
    let staged = vec![entry("100644", HELLO, "a")];
    assert_eq!(
        commit(&"m".to_string(), &Some("x".repeat(40)), &staged, &vec!["<<<<<<< LOCAL".to_string()], &None).err(),
        Some(GitError::UnresolvedConflicts)
    );
}

#[test]
fn conflicted_merge_text_blocks_commit() {
    let base = vec!["a".to_string(), "b".to_string()];
    let local = vec!["a".to_string(), "L".to_string()];
    let remote = vec!["a".to_string(), "R".to_string()];
    let (merged, conflict) = diff3_merge(&base, &local, &remote);
    assert!(conflict);
    let text = merged.join("\n");
    assert!(conflict_markers_in(&text));
    let staged = vec![entry("100644", HELLO, "f.txt")];
    assert_eq!(
        commit(&"m".to_string(), &Some("x".repeat(40)), &staged, &vec![text], &None).err(),
        Some(GitError::UnresolvedConflicts)
    );
}

#[test]
fn staging_with_tabs_reads_back() {
    let idx = stage_file("100644 aaa b.rs\n", "100\t644", "h\tx", "a b");
    assert_eq!(
        get_staged_files(&idx),
        vec![entry("100644", "aaa", "b.rs"), entry("100\t644", "h\tx", "a b")]
    );
}
