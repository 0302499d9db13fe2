//! A running node's command line: the commands a line asks for, and the
//! requests they send.
use vstd::prelude::*;
use crate::diff3::lines_view;
use crate::netid::{multiaddr_of, parse_multiaddr, parse_peer_id, peer_id_of};
use crate::text::{push_str, trim, trim_string, words, words_of};

verus! {

/// What the node is asked to do.
pub enum Command {
    /// Ask every known peer for the peers it knows.
    Discover,
    /// Connect to a peer at an address.
    Dial { peer: String, addr: String },
    /// Ask a peer for its branches.
    Branches { peer: String },
    /// Merge a branch of a peer into the current branch.
    Merge { peer: String, branch: String },
}

/// What a line of the node's command line comes to.
pub enum CliLine {
    /// Nothing to do.
    Blank,
    /// Tell the user this.
    Say(String),
    /// Carry out this command.
    Run(Command),
}

/// A command, by view.
pub enum CommandView {
    Discover,
    Dial(Seq<char>, Seq<char>),
    Branches(Seq<char>),
    Merge(Seq<char>, Seq<char>),
}

/// A command line outcome, by view.
pub enum CliLineView {
    Blank,
    Say(Seq<char>),
    Run(CommandView),
}

/// The view of a command.
pub open spec fn command_view(c: Command) -> CommandView {
    match c {
        Command::Discover => CommandView::Discover,
        Command::Dial { peer, addr } => CommandView::Dial(peer@, addr@),
        Command::Branches { peer } => CommandView::Branches(peer@),
        Command::Merge { peer, branch } => CommandView::Merge(peer@, branch@),
    }
}

/// The view of a command line outcome.
pub open spec fn cli_line_view(l: CliLine) -> CliLineView {
    match l {
        CliLine::Blank => CliLineView::Blank,
        CliLine::Say(t) => CliLineView::Say(t@),
        CliLine::Run(c) => CliLineView::Run(command_view(c)),
    }
}

/// What a line of the node's command line comes to: `rvcd discover`,
/// `rvcd branches <peer_id>`, `rvcd join <peer_id> <addr>` (also spelled
/// `dial`) and `rvcd merge <peer_id> <branch>`; a usage or error message for
/// anything else, and nothing for a blank line.
pub open spec fn node_line_of(line: Seq<char>) -> CliLineView {
    let parts = words(trim(line));
    if parts.len() == 0 {
        CliLineView::Blank
    } else if parts[0] != "rvcd"@ {
        CliLineView::Say("Unknown command"@)
    } else if parts.len() < 2 {
        CliLineView::Say("Usage: rvcd <command>"@)
    } else if parts[1] == "discover"@ {
        CliLineView::Run(CommandView::Discover)
    } else if parts[1] == "branches"@ {
        if parts.len() != 3 {
            CliLineView::Say("Usage: rvcd branches <peer_id>"@)
        } else {
            match peer_id_of(parts[2]) {
                None => CliLineView::Say("Invalid peer_id"@),
                Some(p) => CliLineView::Run(CommandView::Branches(p)),
            }
        }
    } else if parts[1] == "dial"@ || parts[1] == "join"@ {
        if parts.len() != 4 {
            CliLineView::Say("Usage: rvcd "@ + parts[1] + " <peer_id> <addr>"@)
        } else {
            match peer_id_of(parts[2]) {
                None => CliLineView::Say("Invalid peer_id"@),
                Some(p) => match multiaddr_of(parts[3]) {
                    None => CliLineView::Say("Invalid multiaddr"@),
                    Some(a) => CliLineView::Run(CommandView::Dial(p, a)),
                },
            }
        }
    } else if parts[1] == "merge"@ {
        if parts.len() != 4 {
            CliLineView::Say("Usage: rvcd merge <peer_id> <branch>"@)
        } else {
            match peer_id_of(parts[2]) {
                None => CliLineView::Say("Invalid peer_id"@),
                Some(p) => CliLineView::Run(CommandView::Merge(p, parts[3])),
            }
        }
    } else {
        CliLineView::Say("Unknown rvcd command"@)
    }
}

/// Whether a string is `word`.
fn is_word(s: &String, word: &str) -> (res: bool)
    ensures
        res == (s@ == word@),
{
    *s == word.to_string()
}

/// What a line of the node's command line comes to.
pub fn parse_node_line(line: &str) -> (res: CliLine)
    ensures
        cli_line_view(res) == node_line_of(line@),
{
    let trimmed = trim_string(line);
    let parts = words_of(trimmed.as_str());
    let ghost pv = lines_view(parts@);
    assert(pv == words(trim(line@)));
    if parts.len() == 0 {
        return CliLine::Blank;
    }
    if !is_word(&parts[0], "rvcd") {
        return CliLine::Say("Unknown command".to_string());
    }
    if parts.len() < 2 {
        return CliLine::Say("Usage: rvcd <command>".to_string());
    }
    if is_word(&parts[1], "discover") {
        return CliLine::Run(Command::Discover);
    }
    if is_word(&parts[1], "branches") {
        if parts.len() != 3 {
            return CliLine::Say("Usage: rvcd branches <peer_id>".to_string());
        }
        return match parse_peer_id(parts[2].as_str()) {
            None => CliLine::Say("Invalid peer_id".to_string()),
            Some(p) => CliLine::Run(Command::Branches { peer: p }),
        };
    }
    if is_word(&parts[1], "dial") || is_word(&parts[1], "join") {
        if parts.len() != 4 {
            let mut m = "Usage: rvcd ".to_string();
            push_str(&mut m, parts[1].as_str());
            push_str(&mut m, " <peer_id> <addr>");
            return CliLine::Say(m);
        }
        return match parse_peer_id(parts[2].as_str()) {
            None => CliLine::Say("Invalid peer_id".to_string()),
            Some(p) => match parse_multiaddr(parts[3].as_str()) {
                None => CliLine::Say("Invalid multiaddr".to_string()),
                Some(a) => CliLine::Run(Command::Dial { peer: p, addr: a }),
            },
        };
    }
    if is_word(&parts[1], "merge") {
        if parts.len() != 4 {
            return CliLine::Say("Usage: rvcd merge <peer_id> <branch>".to_string());
        }
        return match parse_peer_id(parts[2].as_str()) {
            None => CliLine::Say("Invalid peer_id".to_string()),
            Some(p) => CliLine::Run(Command::Merge { peer: p, branch: parts[3].clone() }),
        };
    }
    CliLine::Say("Unknown rvcd command".to_string())
}

/// The request that asks a peer for the peers it knows.
pub fn peers_request() -> (res: String)
    ensures
        res@ == "GET_PEERS"@,
{
    "GET_PEERS".to_string()
}

/// The request that asks a peer for its branches.
pub fn refs_request() -> (res: String)
    ensures
        res@ == "GET_REFS"@,
{
    "GET_REFS".to_string()
}

/// The text of a message's bytes, where they are UTF-8.
pub fn message_text(bytes: Vec<u8>) -> (res: Option<String>)
    ensures
        match res {
            Some(t) => vstd::utf8::valid_utf8(bytes@) && t@ == vstd::utf8::decode_utf8(bytes@),
            None => !vstd::utf8::valid_utf8(bytes@),
        },
{
    match crate::codec::string_from_utf8(bytes) {
        Ok(t) => Some(t),
        Err(_) => None,
    }
}

} // verus!
