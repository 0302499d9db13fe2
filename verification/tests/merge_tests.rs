use rvc::catfile::{cat_file, CatEnd};
use rvc::error::GitError;
use rvc::merge::{
    blob_contents, list_files_at_commit, merge_message, merge_branch, read_blob_lines, FileStep,
    MergePlan,
};
use rvc::objects::{tree_contents, GitObject, Kind};
use rvc::store::ObjectStore;

fn put(store: &mut ObjectStore, o: &GitObject) -> String {
    let f = o.write().unwrap();
    let h = o.hex_string();
    store.insert(h.clone(), f.data);
    h
}

fn blob(store: &mut ObjectStore, text: &str) -> String {
    put(store, &GitObject::from_path(text.as_bytes().to_vec()).unwrap())
}

fn tree(store: &mut ObjectStore, entries: &[(&str, &str, &str)]) -> String {
    let es: Vec<(String, String, Vec<u8>)> = entries
        .iter()
        .map(|(m, n, h)| (m.to_string(), n.to_string(), hex::decode(h).unwrap()))
        .collect();
    put(store, &GitObject::build(Kind::Tree, tree_contents(&es)).unwrap())
}

fn commit(store: &mut ObjectStore, tree: &str, parent: Option<&str>, msg: &str) -> String {
    put(store, &GitObject::build_commit(msg, tree, parent).unwrap())
}

fn sorted(mut v: Vec<(String, String)>) -> Vec<(String, String)> {
    v.sort();
    v
}

#[test]
fn files_of_a_commit_walk_subtrees() {
    let mut s = ObjectStore::new();
    let a = blob(&mut s, "a\n");
    let b = blob(&mut s, "b\n");
    let sub = tree(&mut s, &[("100644", "b.txt", &b)]);
    let top = tree(&mut s, &[("100644", "a.txt", &a), ("40000", "dir", &sub)]);
    let c = commit(&mut s, &top, None, "c");
    let files = list_files_at_commit(&s, &c).unwrap();
    assert_eq!(sorted(files), vec![("a.txt".to_string(), a.clone()), ("dir/b.txt".to_string(), b.clone())]);
    assert_eq!(read_blob_lines(&s, &a), vec!["a".to_string()]);
    assert_eq!(blob_contents(&s, &b), Some(b"b\n".to_vec()));
    assert_eq!(list_files_at_commit(&s, &"missing".to_string()), Some(Vec::new()));
}

struct History {
    s: ObjectStore,
    base: String,
    local: String,
    remote: String,
    ahead: String,
}

fn history() -> History {
    let mut s = ObjectStore::new();
    let same = blob(&mut s, "same\n");
    let f0 = blob(&mut s, "one\ntwo\nthree\n");
    let f_local = blob(&mut s, "ONE\ntwo\nthree\n");
    let f_remote = blob(&mut s, "one\ntwo\nTHREE\n");
    let g0 = blob(&mut s, "x\n");
    let g_local = blob(&mut s, "local\n");
    let g_remote = blob(&mut s, "remote\n");
    let t0 = tree(&mut s, &[("100644", "f.txt", &f0), ("100644", "g.txt", &g0), ("100644", "same.txt", &same)]);
    let t_local = tree(&mut s, &[("100644", "f.txt", &f_local), ("100644", "g.txt", &g_local), ("100644", "same.txt", &same)]);
    let t_remote = tree(&mut s, &[("100644", "f.txt", &f_remote), ("100644", "g.txt", &g_remote), ("100644", "new.txt", &same)]);
    let base = commit(&mut s, &t0, None, "base");
    let local = commit(&mut s, &t_local, Some(&base), "local");
    let remote = commit(&mut s, &t_remote, Some(&base), "remote");
    let ahead = commit(&mut s, &t_local, Some(&local), "ahead");
    History { s, base, local, remote, ahead }
}

#[test]
fn trivial_merge_plans() {
    let h = history();
    assert!(matches!(merge_branch(&h.s, &h.local, &h.local), Some(MergePlan::UpToDate)));
    assert!(matches!(merge_branch(&h.s, &h.local, &h.base), Some(MergePlan::RemoteBehind)));
    match merge_branch(&h.s, &h.local, &h.ahead) {
        Some(MergePlan::FastForward { files }) => assert_eq!(files.len(), 3),
        _ => panic!("expected a fast-forward"),
    }
    match merge_branch(&h.s, &String::new(), &h.remote) {
        Some(MergePlan::NewBranch { files }) => assert_eq!(files.len(), 3),
        _ => panic!("expected a new branch"),
    }
    let mut s2 = ObjectStore::new();
    let lone = commit(&mut s2, "0000000000000000000000000000000000000000", None, "lone");
    assert!(matches!(merge_branch(&h.s, &h.local, &lone), Some(MergePlan::Unrelated)));
}

#[test]
fn three_way_merge_plan() {
    let h = history();
    match merge_branch(&h.s, &h.local, &h.remote) {
        Some(MergePlan::ThreeWay { base, steps, conflicts }) => {
            assert_eq!(base, h.base);
            assert_eq!(conflicts, vec!["g.txt".to_string()]);
            assert_eq!(steps.len(), 4);
            let mut seen = Vec::new();
            for st in &steps {
                match st {
                    FileStep::Merged { path, text, conflict } if path == "f.txt" => {
                        assert_eq!(text, "ONE\ntwo\nTHREE");
                        assert!(!conflict);
                        seen.push("f");
                    }
                    FileStep::Merged { path, text, conflict } if path == "g.txt" => {
                        assert_eq!(text, "<<<<<<< LOCAL\nlocal\n=======\nremote\n>>>>>>> REMOTE");
                        assert!(*conflict);
                        seen.push("g");
                    }
                    FileStep::Delete { path } if path == "same.txt" => seen.push("deleted"),
                    FileStep::Update { path, .. } if path == "new.txt" => seen.push("new"),
                    _ => panic!("unexpected step"),
                }
            }
            seen.sort();
            assert_eq!(seen, vec!["deleted", "f", "g", "new"]);
        }
        _ => panic!("expected a three-way merge"),
    }
    assert_eq!(merge_message(&"main".to_string()), "Merge branch 'main' from remote");
}

#[test]
fn cat_file_shows_objects() {
    let mut s = ObjectStore::new();
    let a = blob(&mut s, "hello\n");
    let t = tree(&mut s, &[("100644", "a.txt", &a)]);
    let stored = |h: &str| s.get(&h.to_string()).cloned();
    let (out, end) = cat_file(&vec![a.clone()], &stored(&a));
    assert_eq!(out, "hello\n");
    assert!(matches!(end, CatEnd::Done));
    let (out, end) = cat_file(&vec!["-p".to_string(), t.clone()], &stored(&t));
    assert_eq!(out, format!("100644 {}\ta.txt\n", a));
    assert!(matches!(end, CatEnd::Done));
    let c = commit(&mut s, &t, None, "msg");
    let (out, _) = cat_file(&vec![c.clone()], &s.get(&c).cloned());
    assert_eq!(out, format!("tree {}\nauthor \ncommitter \n\nmsg\n\n", t));
}

#[test]
fn cat_file_errors() {
    let (_, end) = cat_file(&vec![], &None);
    assert!(matches!(end, CatEnd::Failed(GitError::MissingObjectHash)));
    let (_, end) = cat_file(&vec!["abc".to_string()], &None);
    assert!(matches!(end, CatEnd::Failed(GitError::InvalidObjectHash)));
    let (_, end) = cat_file(&vec!["z".repeat(40)], &None);
    assert!(matches!(end, CatEnd::Failed(GitError::InvalidHex)));
    let (_, end) = cat_file(&vec!["a".repeat(40)], &None);
    assert!(matches!(end, CatEnd::Failed(GitError::ObjectMissing)));
}

#[test]
fn cat_file_of_cut_tree_stops() {
    let o = GitObject::build(Kind::Tree, b"100644 a\0short".to_vec()).unwrap();
    let f = o.write().unwrap();
    let (out, end) = cat_file(&vec![o.hex_string()], &Some(f.data));
    assert_eq!(out, "");
    assert!(matches!(end, CatEnd::Stops));
}

#[test]
fn merge_base_is_a_lowest_common_ancestor() {
    let mut s = ObjectStore::new();
    let x = blob(&mut s, "x\n");
    let t0 = tree(&mut s, &[("100644", "f.txt", &x)]);
    let c = commit(&mut s, &t0, None, "c");
    let d = commit(&mut s, &t0, Some(&c), "d");
    let y = blob(&mut s, "y\n");
    let t1 = tree(&mut s, &[("100644", "f.txt", &y)]);
    let local = commit(&mut s, &t1, Some(&d), "local");
    let z = blob(&mut s, "z\n");
    let t2 = tree(&mut s, &[("100644", "g.txt", &z)]);
    let text = format!("tree {}\nparent {}\nparent {}\n\nremote\n", t2, c, d);
    let remote = put(&mut s, &GitObject::build(Kind::Commit, text.into_bytes()).unwrap());
    match merge_branch(&s, &local, &remote) {
        Some(MergePlan::ThreeWay { base, .. }) => assert_eq!(base, d),
        _ => panic!("expected a three-way merge"),
    }
}
