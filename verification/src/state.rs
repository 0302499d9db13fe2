//! What a node knows while it runs: the peers it has found and their
//! addresses, the branches each peer listed, and the fetch it is waiting on.
use vstd::prelude::*;
use crate::diff3::lines_view;
use crate::codec::{base64_decode, base64_decoded};
use crate::netid::{parse_peer_id, peer_id_of};
use crate::protocol::{refs_view, sync_req_text};
use crate::text::{
    join_strings, join_with, lines_of, push_str, split_on, split_str, splitn_on, splitn_str,
    starts_with, str_starts_with, strip_all_prefix, strip_all_prefix_str, text_lines, words,
    words_of,
};

verus! {

/// The map that a list of (key, value) pairs spells, a later pair for a key
/// taking the place of an earlier one.
pub open spec fn pairs_map<K, V>(s: Seq<(K, V)>) -> Map<K, V>
    decreases s.len(),
{
    if s.len() == 0 {
        Map::empty()
    } else {
        pairs_map(s.drop_last()).insert(s.last().0, s.last().1)
    }
}

/// Whether no key occurs twice among the pairs.
pub open spec fn keys_distinct<K, V>(s: Seq<(K, V)>) -> bool {
    forall|i: int, j: int| 0 <= i < s.len() && 0 <= j < s.len() && i != j ==> s[i].0 != s[j].0
}

/// Each pair of a list with distinct keys is in the map it spells.
pub proof fn lemma_pairs_map_has<K, V>(s: Seq<(K, V)>, i: int)
    requires
        keys_distinct(s),
        0 <= i < s.len(),
    ensures
        pairs_map(s).contains_key(s[i].0),
        pairs_map(s)[s[i].0] == s[i].1,
    decreases s.len(),
{
    if i < s.len() - 1 {
        let t = s.drop_last();
        assert(keys_distinct(t)) by {
            assert forall|a: int, b: int| 0 <= a < t.len() && 0 <= b < t.len() && a != b implies t[a].0 != t[b].0 by {
                assert(t[a] == s[a] && t[b] == s[b]);
            }
        }
        lemma_pairs_map_has(t, i);
        assert(t[i] == s[i]);
        assert(s[s.len() - 1].0 != s[i].0);
    }
}

/// A key that no pair has is not in the map.
pub proof fn lemma_pairs_map_lacks<K, V>(s: Seq<(K, V)>, k: K)
    requires
        forall|i: int| 0 <= i < s.len() ==> s[i].0 != k,
    ensures
        !pairs_map(s).contains_key(k),
    decreases s.len(),
{
    if s.len() > 0 {
        let t = s.drop_last();
        assert forall|i: int| 0 <= i < t.len() implies t[i].0 != k by {
            assert(t[i] == s[i]);
        }
        lemma_pairs_map_lacks(t, k);
        assert(s[s.len() - 1].0 != k);
    }
}

/// Replacing the value of the pair at `i` replaces the value of its key.
pub proof fn lemma_pairs_map_update<K, V>(s: Seq<(K, V)>, i: int, v: V)
    requires
        keys_distinct(s),
        0 <= i < s.len(),
    ensures
        keys_distinct(s.update(i, (s[i].0, v))),
        pairs_map(s.update(i, (s[i].0, v))) == pairs_map(s).insert(s[i].0, v),
{
    let t = s.update(i, (s[i].0, v));
    assert(keys_distinct(t)) by {
        assert forall|a: int, b: int| 0 <= a < t.len() && 0 <= b < t.len() && a != b implies t[a].0 != t[b].0 by {
            assert(t[a].0 == s[a].0 && t[b].0 == s[b].0);
        }
    }
    let m = pairs_map(s).insert(s[i].0, v);
    assert forall|k: K| #[trigger] pairs_map(t).contains_key(k) <==> m.contains_key(k) by {
        lemma_pairs_map_dom(s, k);
        lemma_pairs_map_dom(t, k);
        if k == s[i].0 {
            assert(t[i].0 == k);
        }
        if m.contains_key(k) && k != s[i].0 {
            let j = choose|j: int| 0 <= j < s.len() && s[j].0 == k;
            assert(t[j].0 == k);
        }
        if pairs_map(t).contains_key(k) {
            let j = choose|j: int| 0 <= j < t.len() && t[j].0 == k;
            assert(s[j].0 == k);
        }
    }
    assert forall|k: K| #[trigger] pairs_map(t).contains_key(k) implies pairs_map(t)[k] == m[k] by {
        lemma_pairs_map_dom(t, k);
        let j = choose|j: int| 0 <= j < t.len() && t[j].0 == k;
        lemma_pairs_map_has(t, j);
        if j != i {
            assert(t[j] == s[j]);
            lemma_pairs_map_has(s, j);
        }
    }
    assert(pairs_map(t) =~= m);
}

/// The keys of the map are those of the pairs.
pub proof fn lemma_pairs_map_dom<K, V>(s: Seq<(K, V)>, k: K)
    ensures
        pairs_map(s).contains_key(k) <==> exists|j: int| 0 <= j < s.len() && s[j].0 == k,
    decreases s.len(),
{
    if s.len() > 0 {
        let t = s.drop_last();
        lemma_pairs_map_dom(t, k);
        if exists|j: int| 0 <= j < t.len() && t[j].0 == k {
            let j = choose|j: int| 0 <= j < t.len() && t[j].0 == k;
            assert(s[j].0 == k);
        }
        if exists|j: int| 0 <= j < s.len() && s[j].0 == k {
            let j = choose|j: int| 0 <= j < s.len() && s[j].0 == k;
            if j < s.len() - 1 {
                assert(t[j].0 == k);
            }
        }
    }
}

/// Removing the pair at `i` removes its key.
pub proof fn lemma_pairs_map_remove<K, V>(s: Seq<(K, V)>, i: int)
    requires
        keys_distinct(s),
        0 <= i < s.len(),
    ensures
        keys_distinct(s.remove(i)),
        pairs_map(s.remove(i)) == pairs_map(s).remove(s[i].0),
{
    let t = s.remove(i);
    assert forall|a: int| 0 <= a < t.len() implies #[trigger] t[a] == (if a < i { s[a] } else { s[a + 1] }) by {}
    assert(keys_distinct(t)) by {
        assert forall|a: int, b: int| 0 <= a < t.len() && 0 <= b < t.len() && a != b implies t[a].0 != t[b].0 by {
            let sa = if a < i { a } else { a + 1 };
            let sb = if b < i { b } else { b + 1 };
            assert(t[a] == s[sa] && t[b] == s[sb]);
        }
    }
    let m = pairs_map(s).remove(s[i].0);
    assert forall|k: K| #[trigger] pairs_map(t).contains_key(k) <==> m.contains_key(k) by {
        lemma_pairs_map_dom(s, k);
        lemma_pairs_map_dom(t, k);
        if m.contains_key(k) {
            let j = choose|j: int| 0 <= j < s.len() && s[j].0 == k;
            assert(j != i);
            let tj = if j < i { j } else { j - 1 };
            assert(t[tj] == s[j]);
        }
        if pairs_map(t).contains_key(k) {
            let j = choose|j: int| 0 <= j < t.len() && t[j].0 == k;
            let sj = if j < i { j } else { j + 1 };
            assert(t[j] == s[sj]);
            assert(sj != i);
        }
    }
    assert forall|k: K| #[trigger] pairs_map(t).contains_key(k) implies pairs_map(t)[k] == m[k] by {
        lemma_pairs_map_dom(t, k);
        let j = choose|j: int| 0 <= j < t.len() && t[j].0 == k;
        lemma_pairs_map_has(t, j);
        let sj = if j < i { j } else { j + 1 };
        assert(t[j] == s[sj]);
        lemma_pairs_map_has(s, sj);
    }
    assert(pairs_map(t) =~= m);
}

/// Adding a pair with a new key adds that key.
pub proof fn lemma_pairs_map_push<K, V>(s: Seq<(K, V)>, k: K, v: V)
    requires
        keys_distinct(s),
        forall|i: int| 0 <= i < s.len() ==> s[i].0 != k,
    ensures
        keys_distinct(s.push((k, v))),
        pairs_map(s.push((k, v))) == pairs_map(s).insert(k, v),
{
    let t = s.push((k, v));
    assert(t.drop_last() =~= s);
    assert(keys_distinct(t)) by {
        assert forall|a: int, b: int| 0 <= a < t.len() && 0 <= b < t.len() && a != b implies t[a].0 != t[b].0 by {
            if a < s.len() {
                assert(t[a] == s[a]);
            }
            if b < s.len() {
                assert(t[b] == s[b]);
            }
        }
    }
}

/// The position of the pair whose key is `k`, if one is.
pub fn find_key<V>(v: &Vec<(String, V)>, k: &String) -> (res: Option<usize>)
    ensures
        match res {
            Some(i) => i < v.len() && v@[i as int].0@ == k@,
            None => forall|i: int| 0 <= i < v.len() ==> v@[i].0@ != k@,
        },
{
    let mut i: usize = 0;
    while i < v.len()
        invariant
            i <= v.len(),
            forall|q: int| 0 <= q < i ==> v@[q].0@ != k@,
        decreases v.len() - i,
    {
        if v[i].0 == *k {
            return Some(i);
        }
        i = i + 1;
    }
    None
}


/// A fetch that waits for a peer's objects: the local branch they are to be
/// merged into, and the head of the peer's branch once it is known.
pub struct PendingFetch {
    pub branch: String,
    pub remote_head: String,
}

/// The view of a pending fetch: (local branch, remote head).
pub open spec fn fetch_view(f: PendingFetch) -> (Seq<char>, Seq<char>) {
    (f.branch@, f.remote_head@)
}

/// The view of an optional pending fetch.
pub open spec fn pending_view(p: Option<PendingFetch>) -> Option<(Seq<char>, Seq<char>)> {
    match p {
        Some(f) => Some(fetch_view(f)),
        None => None,
    }
}

/// The view of (peer, addresses) pairs.
pub open spec fn addrs_view(v: Seq<(String, Vec<String>)>) -> Seq<(Seq<char>, Seq<Seq<char>>)> {
    v.map_values(|e: (String, Vec<String>)| (e.0@, lines_view(e.1@)))
}

/// The view of (peer, branch list) pairs: each list as the map it spells.
pub open spec fn branch_lists_view(v: Seq<(String, Vec<(String, String)>)>) -> Seq<
    (Seq<char>, Map<Seq<char>, Seq<char>>),
> {
    v.map_values(|e: (String, Vec<(String, String)>)| (e.0@, pairs_map(refs_view(e.1@))))
}

/// The addresses known for `peer`; none where it is not known.
pub open spec fn addrs_or_empty(m: Map<Seq<char>, Seq<Seq<char>>>, peer: Seq<char>) -> Seq<Seq<char>> {
    if m.contains_key(peer) {
        m[peer]
    } else {
        Seq::empty()
    }
}

/// The addresses other than `x`, in order.
pub open spec fn without(s: Seq<Seq<char>>, x: Seq<char>) -> Seq<Seq<char>>
    decreases s.len(),
{
    if s.len() == 0 {
        Seq::empty()
    } else if s.last() == x {
        without(s.drop_last(), x)
    } else {
        without(s.drop_last(), x).push(s.last())
    }
}

/// The known peers once `addr` of `peer` has expired: the address goes, and
/// the peer with it when it has no address left.
pub open spec fn expire_address(
    m: Map<Seq<char>, Seq<Seq<char>>>,
    peer: Seq<char>,
    addr: Seq<char>,
) -> Map<Seq<char>, Seq<Seq<char>>> {
    if m.contains_key(peer) {
        let left = without(m[peer], addr);
        if left.len() == 0 {
            m.remove(peer)
        } else {
            m.insert(peer, left)
        }
    } else {
        m
    }
}

/// The known peers once `peer` is known, with no address where it had none.
pub open spec fn know_peer(m: Map<Seq<char>, Seq<Seq<char>>>, peer: Seq<char>) -> Map<
    Seq<char>,
    Seq<Seq<char>>,
> {
    if m.contains_key(peer) {
        m
    } else {
        m.insert(peer, Seq::empty())
    }
}

/// A peer found at one address and then expired at it is forgotten again,
/// where it was not known before.
pub proof fn law_discover_then_expire(m: Map<Seq<char>, Seq<Seq<char>>>, peer: Seq<char>, addr: Seq<char>)
    requires
        !m.contains_key(peer),
    ensures
        expire_address(m.insert(peer, addrs_or_empty(m, peer).push(addr)), peer, addr) == m,
{
    let one = Seq::<Seq<char>>::empty().push(addr);
    assert(one.drop_last() =~= Seq::<Seq<char>>::empty());
    assert(without(one, addr) == without(Seq::<Seq<char>>::empty(), addr));
    assert(m.insert(peer, one).remove(peer) =~= m);
}

/// A copy of a list of strings.
pub fn copy_strings(v: &Vec<String>) -> (res: Vec<String>)
    ensures
        res@ == v@,
{
    let res = v.clone();
    assert(res@ =~= v@);
    res
}

/// What a node knows while it runs.
pub struct AppState {
    peers: Vec<(String, Vec<String>)>,
    peer_refs: Vec<(String, Vec<(String, String)>)>,
    pending_fetch: Option<PendingFetch>,
    connected_peers: Vec<String>,
}

impl AppState {
    /// No peer is listed twice, in either list.
    pub closed spec fn wf(&self) -> bool {
        &&& keys_distinct(addrs_view(self.peers@))
        &&& keys_distinct(branch_lists_view(self.peer_refs@))
    }

    /// The known peers, each with the addresses it was found at.
    pub closed spec fn known_peers(&self) -> Map<Seq<char>, Seq<Seq<char>>> {
        pairs_map(addrs_view(self.peers@))
    }

    /// The branches, with their heads, that each peer listed last.
    pub closed spec fn peer_branches(&self) -> Map<Seq<char>, Map<Seq<char>, Seq<char>>> {
        pairs_map(branch_lists_view(self.peer_refs@))
    }

    /// The fetch this node waits on.
    pub closed spec fn pending(&self) -> Option<(Seq<char>, Seq<char>)> {
        pending_view(self.pending_fetch)
    }

    /// The peers this node holds a connection to.
    pub closed spec fn connected(&self) -> Seq<Seq<char>> {
        lines_view(self.connected_peers@)
    }

    /// A node that knows nothing yet.
    pub fn new() -> (res: Self)
        ensures
            res.wf(),
            res.known_peers() == Map::<Seq<char>, Seq<Seq<char>>>::empty(),
            res.peer_branches() == Map::<Seq<char>, Map<Seq<char>, Seq<char>>>::empty(),
            res.pending() is None,
            res.connected() == Seq::<Seq<char>>::empty(),
    {
        let res = AppState {
            peers: Vec::new(),
            peer_refs: Vec::new(),
            pending_fetch: None,
            connected_peers: Vec::new(),
        };
        assert(addrs_view(res.peers@) =~= Seq::empty());
        assert(branch_lists_view(res.peer_refs@) =~= Seq::empty());
        assert(res.connected() =~= Seq::empty());
        res
    }

    /// The known peers, each once.
    pub fn peer_ids(&self) -> (res: Vec<String>)
        requires
            self.wf(),
        ensures
            lines_view(res@).no_duplicates(),
            forall|p: Seq<char>| #[trigger] lines_view(res@).contains(p) <==> self.known_peers().contains_key(p),
    {
        let ghost pv = addrs_view(self.peers@);
        let mut out: Vec<String> = Vec::new();
        let mut i: usize = 0;
        while i < self.peers.len()
            invariant
                i <= self.peers.len(),
                pv == addrs_view(self.peers@),
                keys_distinct(pv),
                lines_view(out@).len() == i,
                forall|q: int| 0 <= q < i ==> #[trigger] lines_view(out@)[q] == pv[q].0,
            decreases self.peers.len() - i,
        {
            let ghost before = lines_view(out@);
            out.push(self.peers[i].0.clone());
            assert(lines_view(out@) =~= before.push(pv[i as int].0));
            i = i + 1;
        }
        let ghost ov = lines_view(out@);
        assert forall|a: int, b: int| 0 <= a < ov.len() && 0 <= b < ov.len() && a != b implies ov[a] != ov[b] by {
            assert(ov[a] == pv[a].0 && ov[b] == pv[b].0);
        }
        assert forall|p: Seq<char>| #[trigger] ov.contains(p) <==> self.known_peers().contains_key(p) by {
            lemma_pairs_map_dom(pv, p);
            if ov.contains(p) {
                let j = choose|j: int| 0 <= j < ov.len() && ov[j] == p;
                assert(pv[j].0 == p);
            }
            if self.known_peers().contains_key(p) {
                let j = choose|j: int| 0 <= j < pv.len() && pv[j].0 == p;
                assert(ov[j] == p);
            }
        }
        out
    }

    /// The addresses a known peer was found at.
    pub fn addresses_of(&self, peer: &String) -> (res: Option<Vec<String>>)
        requires
            self.wf(),
        ensures
            match res {
                Some(v) => self.known_peers().contains_key(peer@) && lines_view(v@) == self.known_peers()[peer@],
                None => !self.known_peers().contains_key(peer@),
            },
    {
        let ghost pv = addrs_view(self.peers@);
        match find_key(&self.peers, peer) {
            Some(i) => {
                proof {
                    lemma_pairs_map_has(pv, i as int);
                }
                Some(copy_strings(&self.peers[i].1))
            },
            None => {
                proof {
                    lemma_pairs_map_lacks(pv, peer@);
                }
                None
            },
        }
    }

    /// Records that `peer` was found at `addr`.
    pub fn add_peer_address(&mut self, peer: String, addr: String)
        requires
            old(self).wf(),
        ensures
            final(self).wf(),
            final(self).known_peers() == old(self).known_peers().insert(
                peer@,
                addrs_or_empty(old(self).known_peers(), peer@).push(addr@),
            ),
            final(self).peer_branches() == old(self).peer_branches(),
            final(self).pending() == old(self).pending(),
            final(self).connected() == old(self).connected(),
    {
        let ghost pv = addrs_view(self.peers@);
        match find_key(&self.peers, &peer) {
            Some(i) => {
                proof {
                    lemma_pairs_map_has(pv, i as int);
                }
                let (k, mut addrs) = self.peers.remove(i);
                let ghost oa = lines_view(addrs@);
                assert(oa == pv[i as int].1);
                addrs.push(addr);
                let ghost na = lines_view(addrs@);
                assert(na =~= oa.push(addr@));
                self.peers.insert(i, (k, addrs));
                proof {
                    assert(addrs_view(self.peers@) =~= pv.update(i as int, (pv[i as int].0, na)));
                    lemma_pairs_map_update(pv, i as int, na);
                }
            },
            None => {
                proof {
                    lemma_pairs_map_lacks(pv, peer@);
                }
                let mut addrs: Vec<String> = Vec::new();
                addrs.push(addr);
                let ghost na = lines_view(addrs@);
                self.peers.push((peer, addrs));
                proof {
                    assert(addrs_view(self.peers@) =~= pv.push((peer@, na)));
                    assert(na =~= Seq::<Seq<char>>::empty().push(addr@));
                    lemma_pairs_map_push(pv, peer@, na);
                }
            },
        }
    }

    /// Records that `peer` is known, keeping the addresses it has.
    pub fn add_peer(&mut self, peer: String)
        requires
            old(self).wf(),
        ensures
            final(self).wf(),
            final(self).known_peers() == know_peer(old(self).known_peers(), peer@),
            final(self).peer_branches() == old(self).peer_branches(),
            final(self).pending() == old(self).pending(),
            final(self).connected() == old(self).connected(),
    {
        let ghost pv = addrs_view(self.peers@);
        match find_key(&self.peers, &peer) {
            Some(i) => {
                proof {
                    lemma_pairs_map_has(pv, i as int);
                }
            },
            None => {
                proof {
                    lemma_pairs_map_lacks(pv, peer@);
                }
                let addrs: Vec<String> = Vec::new();
                let ghost na = lines_view(addrs@);
                self.peers.push((peer, addrs));
                proof {
                    assert(addrs_view(self.peers@) =~= pv.push((peer@, na)));
                    assert(na =~= Seq::<Seq<char>>::empty());
                    lemma_pairs_map_push(pv, peer@, na);
                }
            },
        }
    }

    /// Records that `addr` of `peer` has expired: the address is dropped, and
    /// the peer too when no address is left.
    pub fn remove_peer_address(&mut self, peer: &String, addr: &String)
        requires
            old(self).wf(),
        ensures
            final(self).wf(),
            final(self).known_peers() == expire_address(old(self).known_peers(), peer@, addr@),
            final(self).peer_branches() == old(self).peer_branches(),
            final(self).pending() == old(self).pending(),
            final(self).connected() == old(self).connected(),
    {
        let ghost pv = addrs_view(self.peers@);
        match find_key(&self.peers, peer) {
            Some(i) => {
                proof {
                    lemma_pairs_map_has(pv, i as int);
                }
                let (k, addrs) = self.peers.remove(i);
                let ghost av = lines_view(addrs@);
                let mut left: Vec<String> = Vec::new();
                let mut j: usize = 0;
                while j < addrs.len()
                    invariant
                        j <= addrs.len(),
                        av == lines_view(addrs@),
                        lines_view(left@) == without(av.take(j as int), addr@),
                    decreases addrs.len() - j,
                {
                    let ghost t = av.take(j + 1);
                    assert(t.drop_last() =~= av.take(j as int));
                    if addrs[j] != *addr {
                        let ghost before = lines_view(left@);
                        left.push(addrs[j].clone());
                        assert(lines_view(left@) =~= before.push(t.last()));
                    }
                    j = j + 1;
                }
                assert(av.take(addrs.len() as int) =~= av);
                let ghost rest = self.peers@;
                if left.len() == 0 {
                    proof {
                        assert(addrs_view(self.peers@) =~= pv.remove(i as int));
                        lemma_pairs_map_remove(pv, i as int);
                    }
                } else {
                    let ghost lv = lines_view(left@);
                    self.peers.insert(i, (k, left));
                    proof {
                        assert(addrs_view(self.peers@) =~= pv.update(i as int, (pv[i as int].0, lv)));
                        lemma_pairs_map_update(pv, i as int, lv);
                    }
                }
            },
            None => {
                proof {
                    lemma_pairs_map_lacks(pv, peer@);
                }
            },
        }
    }
}


/// The branches a list of lines names: each line of exactly two words is a
/// branch and its head, a later line for a branch taking the place of an
/// earlier one.
pub open spec fn refs_from_lines(ls: Seq<Seq<char>>) -> Map<Seq<char>, Seq<char>>
    decreases ls.len(),
{
    if ls.len() == 0 {
        Map::empty()
    } else {
        let m = refs_from_lines(ls.drop_last());
        let w = words(ls.last());
        if w.len() == 2 {
            m.insert(w[0], w[1])
        } else {
            m
        }
    }
}

/// The known peers once each piece that reads as a peer id is known.
pub open spec fn peers_known_after(m: Map<Seq<char>, Seq<Seq<char>>>, ps: Seq<Seq<char>>) -> Map<
    Seq<char>,
    Seq<Seq<char>>,
>
    decreases ps.len(),
{
    if ps.len() == 0 {
        m
    } else {
        let before = peers_known_after(m, ps.drop_last());
        match peer_id_of(ps.last()) {
            Some(id) => know_peer(before, id),
            None => before,
        }
    }
}

/// The commits a sync response says are missing: the pieces between commas
/// of its third field, none where that field is absent or empty.
pub open spec fn sync_res_missing(data: Seq<char>) -> Seq<Seq<char>> {
    let parts = split_on(data, '|');
    if parts.len() > 2 && parts[2].len() > 0 {
        split_on(parts[2], ',')
    } else {
        Seq::empty()
    }
}

/// The objects that `hash:base64` entries carry: each entry with both parts
/// whose base64 text decodes, in order.
pub open spec fn decoded_entries(es: Seq<Seq<char>>) -> Seq<(Seq<char>, Seq<u8>)>
    decreases es.len(),
{
    if es.len() == 0 {
        Seq::empty()
    } else {
        let rest = decoded_entries(es.drop_last());
        let hp = splitn_on(es.last(), 2, ':');
        if hp.len() == 2 {
            match base64_decoded(hp[1]) {
                Some(b) => rest.push((hp[0], b)),
                None => rest,
            }
        } else {
            rest
        }
    }
}

/// The view of (hash, bytes) pairs.
pub open spec fn objects_view(v: Seq<(String, Vec<u8>)>) -> Seq<(Seq<char>, Seq<u8>)> {
    v.map_values(|e: (String, Vec<u8>)| (e.0@, e.1@))
}

/// What a node does once a peer has answered.
pub enum ResponseAction {
    /// The peer's branches were stored; here they are.
    Refs(Vec<(String, String)>),
    /// The peers the peer knows are now known here too.
    Peers,
    /// Send this request to the same peer.
    Request(String),
    /// The peer lacks nothing that this node needs.
    NothingMissing,
    /// Store these objects (hash, stored bytes), then run the merge that was
    /// waiting for them, if one was.
    Objects { objects: Vec<(String, Vec<u8>)>, merge: Option<PendingFetch> },
    /// Stop serving.
    Stop,
    /// The answer is of no known kind.
    Unknown,
}

/// A copy of (branch, head) pairs.
pub fn copy_refs(v: &Vec<(String, String)>) -> (res: Vec<(String, String)>)
    ensures
        refs_view(res@) == refs_view(v@),
{
    let mut out: Vec<(String, String)> = Vec::new();
    let mut i: usize = 0;
    while i < v.len()
        invariant
            i <= v.len(),
            out@.len() == i,
            refs_view(out@) == refs_view(v@).take(i as int),
        decreases v.len() - i,
    {
        let a = v[i].0.clone();
        let b = v[i].1.clone();
        assert(a@ == v@[i as int].0@);
        assert(b@ == v@[i as int].1@);
        let ghost item = (a@, b@);
        out.push((a, b));
        assert(refs_view(out@)[i as int] == item);
        assert(refs_view(out@) =~= refs_view(v@).take(i + 1));
        i = i + 1;
    }
    assert(refs_view(v@).take(v.len() as int) =~= refs_view(v@));
    out
}

/// Sets the head of branch `k` among pairs with distinct branches.
pub(crate) fn put_ref(v: &mut Vec<(String, String)>, k: String, val: String)
    requires
        keys_distinct(refs_view(old(v)@)),
    ensures
        keys_distinct(refs_view(final(v)@)),
        pairs_map(refs_view(final(v)@)) == pairs_map(refs_view(old(v)@)).insert(k@, val@),
{
    let ghost rv = refs_view(v@);
    match find_key(v, &k) {
        Some(i) => {
            let ghost vv = val@;
            v.set(i, (k, val));
            proof {
                assert(refs_view(v@) =~= rv.update(i as int, (rv[i as int].0, vv)));
                lemma_pairs_map_update(rv, i as int, vv);
            }
        },
        None => {
            let ghost kv = k@;
            let ghost vv = val@;
            v.push((k, val));
            proof {
                assert(refs_view(v@) =~= rv.push((kv, vv)));
                lemma_pairs_map_push(rv, kv, vv);
            }
        },
    }
}

/// The branches that the lines of a REFS answer name.
pub fn refs_of_lines(lines: &Vec<String>) -> (res: Vec<(String, String)>)
    ensures
        keys_distinct(refs_view(res@)),
        pairs_map(refs_view(res@)) == refs_from_lines(lines_view(lines@)),
{
    let ghost lv = lines_view(lines@);
    let mut out: Vec<(String, String)> = Vec::new();
    let mut i: usize = 0;
    assert(refs_view(out@) =~= Seq::empty());
    assert(pairs_map(refs_view(out@)) =~= refs_from_lines(lv.take(0)));
    while i < lines.len()
        invariant
            i <= lines.len(),
            lv == lines_view(lines@),
            keys_distinct(refs_view(out@)),
            pairs_map(refs_view(out@)) == refs_from_lines(lv.take(i as int)),
        decreases lines.len() - i,
    {
        let ghost t = lv.take(i + 1);
        assert(t.drop_last() =~= lv.take(i as int));
        let w = words_of(lines[i].as_str());
        if w.len() == 2 {
            put_ref(&mut out, w[0].clone(), w[1].clone());
        }
        i = i + 1;
    }
    assert(lv.take(lines.len() as int) =~= lv);
    out
}

/// The text of the request for the objects of `missing` commits, for the
/// branch of the pending fetch (none where no fetch waits).
pub open spec fn objs_request_text(pending: Option<(Seq<char>, Seq<char>)>, missing: Seq<Seq<char>>) -> Seq<char> {
    "GET_OBJS|"@ + match pending {
        Some(f) => f.0,
        None => Seq::empty(),
    } + "|"@ + join_with(missing, ","@)
}

/// What a response action is, by view.
pub enum ActionView {
    Refs(Map<Seq<char>, Seq<char>>),
    Peers,
    Request(Seq<char>),
    NothingMissing,
    Objects(Seq<(Seq<char>, Seq<u8>)>, Option<(Seq<char>, Seq<char>)>),
    Stop,
    Unknown,
}

/// The view of a response action: branches as the map they spell.
pub open spec fn action_view(a: ResponseAction) -> ActionView {
    match a {
        ResponseAction::Refs(list) => ActionView::Refs(pairs_map(refs_view(list@))),
        ResponseAction::Peers => ActionView::Peers,
        ResponseAction::Request(t) => ActionView::Request(t@),
        ResponseAction::NothingMissing => ActionView::NothingMissing,
        ResponseAction::Objects { objects, merge } => ActionView::Objects(
            objects_view(objects@),
            pending_view(merge),
        ),
        ResponseAction::Stop => ActionView::Stop,
        ResponseAction::Unknown => ActionView::Unknown,
    }
}

/// How an answer `data` of `peer` changes what a node knows (peers,
/// branches of peers, pending fetch) and what the node does next.
pub open spec fn response_effect(
    data: Seq<char>,
    peer: Seq<char>,
    peers: Map<Seq<char>, Seq<Seq<char>>>,
    branches: Map<Seq<char>, Map<Seq<char>, Seq<char>>>,
    pending: Option<(Seq<char>, Seq<char>)>,
    peers2: Map<Seq<char>, Seq<Seq<char>>>,
    branches2: Map<Seq<char>, Map<Seq<char>, Seq<char>>>,
    pending2: Option<(Seq<char>, Seq<char>)>,
    action: ActionView,
) -> bool {
    if starts_with(data, "REFS|"@) {
        let m = refs_from_lines(text_lines(strip_all_prefix(data, "REFS|"@)));
        &&& branches2 == branches.insert(peer, m)
        &&& peers2 == peers
        &&& pending2 == pending
        &&& action == ActionView::Refs(m)
    } else if starts_with(data, "PEERS|"@) {
        &&& peers2 == peers_known_after(peers, split_on(strip_all_prefix(data, "PEERS|"@), ','))
        &&& branches2 == branches
        &&& pending2 == pending
        &&& action == ActionView::Peers
    } else if starts_with(data, "SYNC_RES|"@) {
        let missing = sync_res_missing(data);
        &&& peers2 == peers
        &&& branches2 == branches
        &&& if missing.len() == 0 {
            pending2 == pending && action == ActionView::NothingMissing
        } else {
            &&& pending2 == match pending {
                Some(f) => Some((f.0, missing[0])),
                None => None,
            }
            &&& action == ActionView::Request(objs_request_text(pending, missing))
        }
    } else if starts_with(data, "OBJS|"@) {
        let parts = splitn_on(data, 3, '|');
        &&& peers2 == peers
        &&& branches2 == branches
        &&& if parts.len() < 3 {
            pending2 == pending && action == ActionView::Stop
        } else {
            &&& pending2 is None
            &&& action == ActionView::Objects(decoded_entries(split_on(parts[2], ',')), pending)
        }
    } else {
        &&& peers2 == peers
        &&& branches2 == branches
        &&& pending2 == pending
        &&& action == ActionView::Unknown
    }
}

impl AppState {
    /// Stores the branches that `peer` listed, in place of what it listed before.
    fn set_peer_branches(&mut self, peer: String, refs: Vec<(String, String)>)
        requires
            old(self).wf(),
        ensures
            final(self).wf(),
            final(self).peer_branches() == old(self).peer_branches().insert(
                peer@,
                pairs_map(refs_view(refs@)),
            ),
            final(self).known_peers() == old(self).known_peers(),
            final(self).pending() == old(self).pending(),
            final(self).connected() == old(self).connected(),
    {
        let ghost bv = branch_lists_view(self.peer_refs@);
        let ghost m = pairs_map(refs_view(refs@));
        match find_key(&self.peer_refs, &peer) {
            Some(i) => {
                self.peer_refs.set(i, (peer, refs));
                proof {
                    assert(branch_lists_view(self.peer_refs@) =~= bv.update(i as int, (bv[i as int].0, m)));
                    lemma_pairs_map_update(bv, i as int, m);
                }
            },
            None => {
                let ghost pk = peer@;
                self.peer_refs.push((peer, refs));
                proof {
                    assert(branch_lists_view(self.peer_refs@) =~= bv.push((pk, m)));
                    lemma_pairs_map_push(bv, pk, m);
                }
            },
        }
    }

    /// Starts merging `remote_branch` of a peer into `local_branch`, whose
    /// commits are `local_commits` (newest first): the fetch now waits for
    /// the peer's head, and the sync request to send is returned.
    pub fn begin_merge(&mut self, remote_branch: &String, local_branch: String, local_commits: &Vec<String>) -> (res: String)
        requires
            old(self).wf(),
        ensures
            final(self).wf(),
            res@ == sync_req_text(remote_branch@, lines_view(local_commits@)),
            final(self).pending() == Some((local_branch@, Seq::<char>::empty())),
            final(self).known_peers() == old(self).known_peers(),
            final(self).peer_branches() == old(self).peer_branches(),
            final(self).connected() == old(self).connected(),
    {
        let mut payload = "SYNC_REQ|".to_string();
        push_str(&mut payload, remote_branch.as_str());
        push_str(&mut payload, "|");
        let list = join_strings(local_commits, ",");
        push_str(&mut payload, list.as_str());
        self.pending_fetch = Some(PendingFetch { branch: local_branch, remote_head: String::new() });
        payload
    }

    /// Stores the branches that a `REFS|` answer of `peer` lists.
    fn take_refs(&mut self, peer: &String, data: &str) -> (res: ResponseAction)
        requires
            old(self).wf(),
        ensures
            final(self).wf(),
            final(self).connected() == old(self).connected(),
            final(self).peer_branches() == old(self).peer_branches().insert(
                peer@,
                refs_from_lines(text_lines(strip_all_prefix(data@, "REFS|"@))),
            ),
            final(self).known_peers() == old(self).known_peers(),
            final(self).pending() == old(self).pending(),
            res matches ResponseAction::Refs(list) && keys_distinct(refs_view(list@)) && pairs_map(
                refs_view(list@),
            ) == refs_from_lines(text_lines(strip_all_prefix(data@, "REFS|"@))),
    {
        let payload = strip_all_prefix_str(data, "REFS|");
        let lines = lines_of(payload.as_str());
        let list = refs_of_lines(&lines);
        let stored = copy_refs(&list);
        self.set_peer_branches(peer.clone(), stored);
        ResponseAction::Refs(list)
    }

    /// Makes known each peer that a `PEERS|` answer lists.
    fn take_peers(&mut self, data: &str) -> (res: ResponseAction)
        requires
            old(self).wf(),
        ensures
            final(self).wf(),
            final(self).connected() == old(self).connected(),
            final(self).known_peers() == peers_known_after(
                old(self).known_peers(),
                split_on(strip_all_prefix(data@, "PEERS|"@), ','),
            ),
            final(self).peer_branches() == old(self).peer_branches(),
            final(self).pending() == old(self).pending(),
            res is Peers,
    {
        let payload = strip_all_prefix_str(data, "PEERS|");
        let pieces = split_str(payload.as_str(), ',');
        let ghost pv = lines_view(pieces@);
        let ghost start = self.known_peers();
        let mut i: usize = 0;
        assert(pv.take(0) =~= Seq::<Seq<char>>::empty());
        while i < pieces.len()
            invariant
                i <= pieces.len(),
                pv == lines_view(pieces@),
                start == old(self).known_peers(),
                self.wf(),
                self.known_peers() == peers_known_after(start, pv.take(i as int)),
                self.peer_branches() == old(self).peer_branches(),
                self.pending() == old(self).pending(),
                self.connected() == old(self).connected(),
            decreases pieces.len() - i,
        {
            let ghost t = pv.take(i + 1);
            assert(t.drop_last() =~= pv.take(i as int));
            match parse_peer_id(pieces[i].as_str()) {
                Some(id) => self.add_peer(id),
                None => {},
            }
            i = i + 1;
        }
        assert(pv.take(pieces.len() as int) =~= pv);
        ResponseAction::Peers
    }

    /// On a `SYNC_RES|` answer: notes the peer's head, the first missing
    /// commit, and asks for the objects of the missing commits.
    fn take_sync_res(&mut self, data: &str) -> (res: ResponseAction)
        requires
            old(self).wf(),
        ensures
            final(self).wf(),
            final(self).connected() == old(self).connected(),
            final(self).known_peers() == old(self).known_peers(),
            final(self).peer_branches() == old(self).peer_branches(),
            sync_res_missing(data@).len() == 0 ==> final(self).pending() == old(self).pending()
                && res is NothingMissing,
            sync_res_missing(data@).len() > 0 ==> {
                &&& final(self).pending() == match old(self).pending() {
                    Some(f) => Some((f.0, sync_res_missing(data@)[0])),
                    None => None,
                }
                &&& res matches ResponseAction::Request(t) && t@ == objs_request_text(
                    old(self).pending(),
                    sync_res_missing(data@),
                )
            },
    {
        let parts = split_str(data, '|');
        let missing: Vec<String> = if parts.len() > 2 && parts[2].as_str().unicode_len() > 0 {
            split_str(parts[2].as_str(), ',')
        } else {
            Vec::new()
        };
        assert(lines_view(missing@) == sync_res_missing(data@));
        if missing.len() == 0 {
            return ResponseAction::NothingMissing;
        }
        let remote_head = missing[0].clone();
        let branch = match &self.pending_fetch {
            Some(f) => f.branch.clone(),
            None => String::new(),
        };
        match &self.pending_fetch {
            Some(f) => {
                let b = f.branch.clone();
                self.pending_fetch = Some(PendingFetch { branch: b, remote_head });
            },
            None => {},
        }
        let mut req = "GET_OBJS|".to_string();
        push_str(&mut req, branch.as_str());
        push_str(&mut req, "|");
        let list = join_strings(&missing, ",");
        push_str(&mut req, list.as_str());
        ResponseAction::Request(req)
    }

    /// On an `OBJS|` answer: hands over the objects it carries with the merge
    /// that waited for them; stops where the answer lacks a field.
    fn take_objects(&mut self, data: &str) -> (res: ResponseAction)
        requires
            old(self).wf(),
        ensures
            final(self).wf(),
            final(self).connected() == old(self).connected(),
            final(self).known_peers() == old(self).known_peers(),
            final(self).peer_branches() == old(self).peer_branches(),
            splitn_on(data@, 3, '|').len() < 3 ==> final(self).pending() == old(self).pending()
                && res is Stop,
            splitn_on(data@, 3, '|').len() >= 3 ==> {
                &&& final(self).pending() is None
                &&& res matches ResponseAction::Objects { objects, merge } && objects_view(objects@)
                    == decoded_entries(split_on(splitn_on(data@, 3, '|')[2], ','))
                    && pending_view(merge) == old(self).pending()
            },
    {
        let parts = splitn_str(data, 3, '|');
        if parts.len() < 3 {
            return ResponseAction::Stop;
        }
        let entries = split_str(parts[2].as_str(), ',');
        let ghost ev = lines_view(entries@);
        let mut objects: Vec<(String, Vec<u8>)> = Vec::new();
        let mut i: usize = 0;
        assert(objects_view(objects@) =~= decoded_entries(ev.take(0)));
        while i < entries.len()
            invariant
                i <= entries.len(),
                ev == lines_view(entries@),
                objects_view(objects@) == decoded_entries(ev.take(i as int)),
            decreases entries.len() - i,
        {
            let ghost t = ev.take(i + 1);
            assert(t.drop_last() =~= ev.take(i as int));
            let hp = splitn_str(entries[i].as_str(), 2, ':');
            if hp.len() == 2 {
                match base64_decode(hp[1].as_str()) {
                    Ok(bytes) => {
                        let ghost before = objects_view(objects@);
                        let ghost item = (hp@[0]@, bytes@);
                        objects.push((hp[0].clone(), bytes));
                        assert(objects_view(objects@) =~= before.push(item));
                    },
                    Err(_) => {},
                }
            }
            i = i + 1;
        }
        assert(ev.take(entries.len() as int) =~= ev);
        let merge = self.pending_fetch.take();
        ResponseAction::Objects { objects, merge }
    }

    /// Acts on the answer `data` of `peer`: stores the branches (`REFS|`) or
    /// peers (`PEERS|`) it lists; on a sync response (`SYNC_RES|`) notes the
    /// peer's head and asks for the objects of the missing commits; on
    /// objects (`OBJS|`) hands them over with the merge that waited for them.
    pub fn handle_response(&mut self, peer: &String, data: &str) -> (res: ResponseAction)
        requires
            old(self).wf(),
        ensures
            final(self).wf(),
            final(self).connected() == old(self).connected(),
            response_effect(
                data@,
                peer@,
                old(self).known_peers(),
                old(self).peer_branches(),
                old(self).pending(),
                final(self).known_peers(),
                final(self).peer_branches(),
                final(self).pending(),
                action_view(res),
            ),
    {
        if str_starts_with(data, "REFS|") {
            return self.take_refs(peer, data);
        }
        if str_starts_with(data, "PEERS|") {
            return self.take_peers(data);
        }
        if str_starts_with(data, "SYNC_RES|") {
            return self.take_sync_res(data);
        }
        if str_starts_with(data, "OBJS|") {
            return self.take_objects(data);
        }
        ResponseAction::Unknown
    }
}

} // verus!
