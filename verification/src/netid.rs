//! Peer ids and network addresses, read from their text by libp2p.
use vstd::prelude::*;

verus! {

/// The base58 text of the peer id that libp2p reads from `text`, where it
/// reads one.
pub uninterp spec fn peer_id_of(text: Seq<char>) -> Option<Seq<char>>;

/// The text of the multiaddress that libp2p reads from `text`, where it
/// reads one.
pub uninterp spec fn multiaddr_of(text: Seq<char>) -> Option<Seq<char>>;

/// Calls `str::parse::<libp2p::PeerId>` (base58 text of a multihash whose
/// code libp2p accepts for a peer id) and writes a parsed id back with its
/// `Display` (base58). The contract names the outcome: it depends on the text
/// alone.
#[verifier::external_body]
pub(crate) fn parse_peer_id(text: &str) -> (res: Option<String>)
    ensures
        match res {
            Some(id) => peer_id_of(text@) == Some(id@),
            None => peer_id_of(text@) is None,
        },
{
    match text.parse::<libp2p::PeerId>() {
        Ok(id) => Some(id.to_string()),
        Err(_) => None,
    }
}

/// Calls `str::parse::<libp2p::Multiaddr>` (text that starts with `/` and
/// names protocols with their values) and writes a parsed address back with
/// its `Display`. The contract names the outcome: it depends on the text
/// alone.
#[verifier::external_body]
pub(crate) fn parse_multiaddr(text: &str) -> (res: Option<String>)
    ensures
        match res {
            Some(a) => multiaddr_of(text@) == Some(a@),
            None => multiaddr_of(text@) is None,
        },
{
    match text.parse::<libp2p::Multiaddr>() {
        Ok(a) => Some(a.to_string()),
        Err(_) => None,
    }
}

} // verus!
