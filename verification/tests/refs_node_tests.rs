use rvc::node::{parse_node_line, peers_request, refs_request, CliLine, Command};
use rvc::refs::{
    create_branch, get_current_branch, get_head_commit, get_refs, head_ref_path, switch_branch,
    update_head,
};

#[test]
fn current_branch_of_head() {
    assert_eq!(get_current_branch("ref: refs/heads/main\n"), Some("main".to_string()));
    assert_eq!(get_current_branch("ce013625030ba8dba906f756967f9e9ca394464a"), None);
}

#[test]
fn switching_makes_the_branch_current() {
    let head = switch_branch("dev");
    assert_eq!(head, "ref: refs/heads/dev");
    assert_eq!(get_current_branch(&head), Some("dev".to_string()));
    assert_eq!(update_head(&Some(head)), "refs/heads/dev");
    assert_eq!(update_head(&Some("abc".to_string())), "HEAD");
    assert_eq!(update_head(&None), "HEAD");
}

#[test]
fn head_resolves_to_a_commit() {
    assert_eq!(head_ref_path("ref: refs/heads/main\n"), Some("refs/heads/main".to_string()));
    assert_eq!(head_ref_path("abc"), None);
    assert_eq!(
        get_head_commit("ref: refs/heads/main\n", &Some("c1\n".to_string())),
        Some("c1".to_string())
    );
    assert_eq!(get_head_commit("ref: refs/heads/main\n", &None), None);
    assert_eq!(get_head_commit(" c2 \n", &None), Some("c2".to_string()));
}

#[test]
fn new_branch_starts_at_head_or_zeros() {
    assert_eq!(create_branch(&Some("c1".to_string())), "c1");
    assert_eq!(create_branch(&None), "0000000000000000000000000000000000000000");
}

#[test]
fn refs_skip_empty_files() {
    let files = vec![
        ("main".to_string(), "c1\n".to_string()),
        ("empty".to_string(), "  \n".to_string()),
        ("dev".to_string(), "c2".to_string()),
    ];
    assert_eq!(
        get_refs(&files),
        vec![("main".to_string(), "c1".to_string()), ("dev".to_string(), "c2".to_string())]
    );
}

fn said(l: CliLine) -> String {
    match l {
        CliLine::Say(t) => t,
        _ => panic!("expected a message"),
    }
}

#[test]
fn node_command_lines() {
    let id = libp2p::identity::Keypair::generate_ed25519().public().to_peer_id().to_string();
    assert!(matches!(parse_node_line("   "), CliLine::Blank));
    assert_eq!(said(parse_node_line("git status")), "Unknown command");
    assert_eq!(said(parse_node_line("rvcd")), "Usage: rvcd <command>");
    assert!(matches!(parse_node_line(" rvcd discover "), CliLine::Run(Command::Discover)));
    assert_eq!(said(parse_node_line("rvcd branches")), "Usage: rvcd branches <peer_id>");
    assert_eq!(said(parse_node_line("rvcd branches nope")), "Invalid peer_id");
    match parse_node_line(&format!("rvcd branches {}", id)) {
        CliLine::Run(Command::Branches { peer }) => assert_eq!(peer, id),
        _ => panic!("expected branches"),
    }
    assert_eq!(said(parse_node_line("rvcd join x")), "Usage: rvcd join <peer_id> <addr>");
    assert_eq!(said(parse_node_line(&format!("rvcd dial {} nowhere", id))), "Invalid multiaddr");
    match parse_node_line(&format!("rvcd join {} /ip4/127.0.0.1/tcp/4001", id)) {
        CliLine::Run(Command::Dial { peer, addr }) => {
            assert_eq!(peer, id);
            assert_eq!(addr, "/ip4/127.0.0.1/tcp/4001");
        }
        _ => panic!("expected a dial"),
    }
    match parse_node_line(&format!("rvcd merge {} main", id)) {
        CliLine::Run(Command::Merge { peer, branch }) => {
            assert_eq!(peer, id);
            assert_eq!(branch, "main");
        }
        _ => panic!("expected a merge"),
    }
    assert_eq!(said(parse_node_line("rvcd merge x")), "Usage: rvcd merge <peer_id> <branch>");
    assert_eq!(said(parse_node_line("rvcd fly")), "Unknown rvcd command");
}

#[test]
fn request_texts() {
    assert_eq!(peers_request(), "GET_PEERS");
    assert_eq!(refs_request(), "GET_REFS");
}

#[test]
fn update_then_resolve_head() {
    let hash = "ce013625030ba8dba906f756967f9e9ca394464a".to_string();
    let head = "ref: refs/heads/main\n".to_string();
    let path = update_head(&Some(head.clone()));
    assert_eq!(head_ref_path(&head), Some(path.clone()));
    assert_eq!(get_head_commit(&head, &Some(hash.clone())), Some(hash.clone()));
    assert_eq!(update_head(&None), "HEAD");
    assert_eq!(get_head_commit(&hash, &None), Some(hash.clone()));
}
