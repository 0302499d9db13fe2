use rvc::history::{
    collect_ancestors, find_lca, get_all_commits_of_branch, get_all_parent_hashes,
    get_missing_commits,
};
use rvc::node::message_text;
use rvc::objects::{tree_contents, GitObject, Kind};
use rvc::objwalk::collect_all_objects;
use rvc::protocol::{handle_request, read_ref, RequestOutcome};
use rvc::state::{AppState, ResponseAction};
use rvc::store::ObjectStore;

struct Repo {
    store: ObjectStore,
    c1: String,
    c2: String,
    t1: String,
    t2: String,
    b1: String,
    b2: String,
}

fn put(store: &mut ObjectStore, o: &GitObject) -> String {
    let f = o.write().unwrap();
    let h = o.hex_string();
    store.insert(h.clone(), f.data);
    h
}

fn tree_of(name: &str, blob: &str) -> GitObject {
    let entries = vec![("100644".to_string(), name.to_string(), hex::decode(blob).unwrap())];
    GitObject::build(Kind::Tree, tree_contents(&entries)).unwrap()
}

fn repo() -> Repo {
    let mut store = ObjectStore::new();
    let b1 = put(&mut store, &GitObject::from_path(b"one\n".to_vec()).unwrap());
    let t1 = put(&mut store, &tree_of("file.txt", &b1));
    let c1 = put(&mut store, &GitObject::build_commit("first", &t1, None).unwrap());
    let b2 = put(&mut store, &GitObject::from_path(b"two\n".to_vec()).unwrap());
    let t2 = put(&mut store, &tree_of("file.txt", &b2));
    let c2 = put(&mut store, &GitObject::build_commit("second", &t2, Some(c1.as_str())).unwrap());
    Repo { store, c1, c2, t1, t2, b1, b2 }
}

#[test]
fn parents_of_commits() {
    let r = repo();
    assert_eq!(get_all_parent_hashes(&r.store, &r.c2), vec![r.c1.clone()]);
    assert_eq!(get_all_parent_hashes(&r.store, &r.c1), Vec::<String>::new());
    assert_eq!(get_all_parent_hashes(&r.store, &"missing".to_string()), Vec::<String>::new());
}

#[test]
fn commits_of_branch_newest_first() {
    let r = repo();
    assert_eq!(get_all_commits_of_branch(&r.store, &r.c2), vec![r.c2.clone(), r.c1.clone()]);
    assert_eq!(get_all_commits_of_branch(&r.store, &String::new()), Vec::<String>::new());
    assert_eq!(collect_ancestors(&r.store, &r.c2), vec![r.c2.clone(), r.c1.clone()]);
}

#[test]
fn lca_and_missing_commits() {
    let r = repo();
    assert_eq!(find_lca(&r.store, &r.c2, &vec![r.c1.clone()]), Some(r.c1.clone()));
    assert_eq!(find_lca(&r.store, &r.c2, &vec!["other".to_string()]), None);
    let local = vec![r.c2.clone(), r.c1.clone()];
    assert_eq!(get_missing_commits(&local, &r.c1), vec![r.c2.clone()]);
    assert_eq!(get_missing_commits(&local, &"absent".to_string()), local);
}

#[test]
fn objects_reached_depth_first() {
    let r = repo();
    let mut out = Vec::new();
    collect_all_objects(&r.store, &r.c2, &mut out);
    assert_eq!(
        out,
        vec![r.c2.clone(), r.t2.clone(), r.b2.clone(), r.c1.clone(), r.t1.clone(), r.b1.clone()]
    );
    assert!(r.store.has_object(&r.b1));
    assert!(!r.store.has_object(&"nope".to_string()));
}

fn respond(o: RequestOutcome) -> String {
    match o {
        RequestOutcome::Respond(t) => t,
        RequestOutcome::NoResponse => panic!("no response"),
        RequestOutcome::Stop => panic!("stopped"),
    }
}

#[test]
fn answers_peers_and_refs() {
    let r = repo();
    let peers = vec!["p1".to_string(), "p2".to_string()];
    let refs = vec![("main".to_string(), r.c2.clone()), ("dev".to_string(), r.c1.clone())];
    assert_eq!(respond(handle_request("GET_PEERS", &peers, &refs, &refs, &r.store)), "PEERS|p1,p2");
    assert_eq!(
        respond(handle_request("GET_REFS", &peers, &refs, &refs, &r.store)),
        format!("REFS|main {}\ndev {}", r.c2, r.c1)
    );
    assert!(matches!(handle_request("HELLO", &peers, &refs, &refs, &r.store), RequestOutcome::NoResponse));
    assert_eq!(read_ref(&refs, &"dev".to_string()), r.c1);
    assert_eq!(read_ref(&refs, &"none".to_string()), "");
}

#[test]
fn answers_sync_requests() {
    let r = repo();
    let refs = vec![("main".to_string(), r.c2.clone())];
    let req = format!("SYNC_REQ|main|{}", r.c1);
    assert_eq!(
        respond(handle_request(&req, &vec![], &refs, &refs, &r.store)),
        format!("SYNC_RES|main|{}", r.c2)
    );
    let all = respond(handle_request("SYNC_REQ|main|", &vec![], &refs, &refs, &r.store));
    assert_eq!(all, format!("SYNC_RES|main|{},{}", r.c2, r.c1));
    let unknown = respond(handle_request("SYNC_REQ|gone|x", &vec![], &refs, &refs, &r.store));
    assert_eq!(unknown, "SYNC_RES|gone|");
    assert!(matches!(handle_request("SYNC_REQ|main", &vec![], &refs, &refs, &r.store), RequestOutcome::Stop));
}

#[test]
fn objects_sent_are_objects_received() {
    let r = repo();
    let req = format!("GET_OBJS|main|{}", r.c2);
    let answer = respond(handle_request(&req, &vec![], &vec![], &vec![], &r.store));
    assert!(answer.starts_with("OBJS|main|"));
    let mut st = AppState::new();
    match st.handle_response(&"peer".to_string(), &answer) {
        ResponseAction::Objects { objects, merge } => {
            assert!(merge.is_none());
            let hashes: Vec<String> = objects.iter().map(|o| o.0.clone()).collect();
            assert_eq!(
                hashes,
                vec![r.c2.clone(), r.t2.clone(), r.b2.clone(), r.c1.clone(), r.t1.clone(), r.b1.clone()]
            );
            for (h, data) in &objects {
                assert_eq!(r.store.get(h), Some(data));
            }
        }
        _ => panic!("expected objects"),
    }
    assert!(matches!(handle_request("GET_OBJS|main", &vec![], &vec![], &vec![], &r.store), RequestOutcome::NoResponse));
}

#[test]
fn client_stores_listed_branches() {
    let mut st = AppState::new();
    match st.handle_response(&"peer".to_string(), "REFS|main abc\ndev def\nbad line here\ndev ghi") {
        ResponseAction::Refs(list) => {
            assert_eq!(list, vec![("main".to_string(), "abc".to_string()), ("dev".to_string(), "ghi".to_string())]);
        }
        _ => panic!("expected refs"),
    }
}

#[test]
fn client_learns_peers() {
    let id = libp2p::identity::Keypair::generate_ed25519().public().to_peer_id().to_string();
    let mut st = AppState::new();
    let data = format!("PEERS|{},not-a-peer", id);
    assert!(matches!(st.handle_response(&"x".to_string(), &data), ResponseAction::Peers));
    assert_eq!(st.peer_ids(), vec![id.clone()]);
    assert_eq!(st.addresses_of(&id), Some(Vec::new()));
}

#[test]
fn discovered_then_expired_peer_is_forgotten() {
    let mut st = AppState::new();
    st.add_peer_address("p".to_string(), "/ip4/1.2.3.4/tcp/1".to_string());
    st.add_peer_address("p".to_string(), "/ip4/1.2.3.4/tcp/2".to_string());
    assert_eq!(
        st.addresses_of(&"p".to_string()),
        Some(vec!["/ip4/1.2.3.4/tcp/1".to_string(), "/ip4/1.2.3.4/tcp/2".to_string()])
    );
    st.remove_peer_address(&"p".to_string(), &"/ip4/1.2.3.4/tcp/1".to_string());
    assert_eq!(st.addresses_of(&"p".to_string()), Some(vec!["/ip4/1.2.3.4/tcp/2".to_string()]));
    st.remove_peer_address(&"p".to_string(), &"/ip4/1.2.3.4/tcp/2".to_string());
    assert_eq!(st.addresses_of(&"p".to_string()), None);
    assert!(st.peer_ids().is_empty());
}

#[test]
fn merge_fetch_flow() {
    let mut st = AppState::new();
    let payload = st.begin_merge(&"main".to_string(), "local".to_string(), &vec!["c2".to_string(), "c1".to_string()]);
    assert_eq!(payload, "SYNC_REQ|main|c2,c1");
    match st.handle_response(&"peer".to_string(), "SYNC_RES|main|x,y") {
        ResponseAction::Request(t) => assert_eq!(t, "GET_OBJS|local|x,y"),
        _ => panic!("expected a request"),
    }
    assert!(matches!(st.handle_response(&"peer".to_string(), "SYNC_RES|main|"), ResponseAction::NothingMissing));
    match st.handle_response(&"peer".to_string(), "OBJS|local|abc:aGk=,broken,q:!!") {
        ResponseAction::Objects { objects, merge } => {
            assert_eq!(objects, vec![("abc".to_string(), b"hi".to_vec())]);
            let m = merge.unwrap();
            assert_eq!(m.branch, "local");
            assert_eq!(m.remote_head, "x");
        }
        _ => panic!("expected objects"),
    }
    assert!(matches!(st.handle_response(&"peer".to_string(), "OBJS|only"), ResponseAction::Stop));
    assert!(matches!(st.handle_response(&"peer".to_string(), "WHAT"), ResponseAction::Unknown));
}

#[test]
fn message_bytes_must_be_text() {
    assert_eq!(message_text(b"GET_REFS".to_vec()), Some("GET_REFS".to_string()));
    assert_eq!(message_text(vec![0xff, 0xfe]), None);
}

#[test]
fn collecting_again_lists_nothing_twice() {
    let r = repo();
    let mut out = vec![r.t1.clone()];
    collect_all_objects(&r.store, &r.c2, &mut out);
    collect_all_objects(&r.store, &r.c1, &mut out);
    assert_eq!(out, vec![r.t1.clone(), r.c2.clone(), r.t2.clone(), r.b2.clone(), r.c1.clone()]);
}

#[test]
fn merge_history_lists_each_commit_once() {
    let mut r = repo();
    let c3 = put(&mut r.store, &GitObject::build_commit("side", &r.t1, Some(r.c1.as_str())).unwrap());
    let text = format!("tree {}\nparent {}\nparent {}\n\nmerge\n", r.t2, r.c2, c3);
    let c4 = put(&mut r.store, &GitObject::build(Kind::Commit, text.into_bytes()).unwrap());
    assert_eq!(get_all_parent_hashes(&r.store, &c4), vec![r.c2.clone(), c3.clone()]);
    assert_eq!(
        get_all_commits_of_branch(&r.store, &c4),
        vec![c4.clone(), r.c2.clone(), c3.clone(), r.c1.clone()]
    );
    assert_eq!(collect_ancestors(&r.store, &c4), vec![c4.clone(), r.c2.clone(), c3.clone(), r.c1.clone()]);
}

#[test]
fn sync_finds_nested_branch_heads() {
    let r = repo();
    let refs = vec![("main".to_string(), r.c2.clone())];
    let heads = vec![("main".to_string(), r.c2.clone()), ("feature/x".to_string(), r.c1.clone())];
    assert_eq!(
        respond(handle_request("SYNC_REQ|feature/x|", &vec![], &refs, &heads, &r.store)),
        format!("SYNC_RES|feature/x|{}", r.c1)
    );
    assert_eq!(respond(handle_request("GET_REFS", &vec![], &refs, &heads, &r.store)), format!("REFS|main {}", r.c2));
}

#[test]
fn branch_commits_come_newest_first() {
    let mut r = repo();
    // b is c1; a has parent b; the head h has parents a and b.
    let a = put(&mut r.store, &GitObject::build_commit("a", &r.t2, Some(r.c1.as_str())).unwrap());
    let text = format!("tree {}\nparent {}\nparent {}\n\nh\n", r.t2, a, r.c1);
    let h = put(&mut r.store, &GitObject::build(Kind::Commit, text.into_bytes()).unwrap());
    assert_eq!(get_all_commits_of_branch(&r.store, &h), vec![h.clone(), a.clone(), r.c1.clone()]);
}
