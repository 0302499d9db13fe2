//! Laws of the exchanges between two peers: what one peer answers is what
//! the other reads out of the answer.
use vstd::prelude::*;
use crate::codec::{base64_decoded, base64_encoded, lemma_base64_plain};
use crate::protocol::{
    answer_of, missing_for, nonempty_of, object_entries, objs_answer_text, objs_hashes, parse_sync_req,
    ref_lines, refs_answer_text, stored_objects, sync_req_text, sync_res_text, RequestAnswer,
};
use crate::netid::peer_id_of;
use crate::state::{
    know_peer, peers_known_after, decoded_entries, objs_request_text, pairs_map, refs_from_lines, response_effect,
    sync_res_missing, ActionView,
};
use crate::store::store_get;
use crate::text::{
    has_char, is_ws, join_with, starts_with, lemma_join_no_char, lemma_lines_join, lemma_split_first,
    lemma_split_join, lemma_split_none, lemma_words_pair, split_on, splitn_on, strip_all_prefix,
    text_lines, words,
};

verus! {

/// An item of a list in a request or answer (a commit or object hash): not
/// empty, and without the separators `|`, `,` and `:`.
pub open spec fn plain_item(t: Seq<char>) -> bool {
    t.len() > 0 && !has_char(t, '|') && !has_char(t, ',') && !has_char(t, ':')
}

/// A word of a branch listing (a branch or a head): not empty, and without
/// white space.
pub open spec fn plain_word(t: Seq<char>) -> bool {
    t.len() > 0 && forall|q: int| 0 <= q < t.len() ==> !is_ws(t[q])
}

/// The branch a fetch waits for; none where no fetch waits.
pub open spec fn pending_branch(pending: Option<(Seq<char>, Seq<char>)>) -> Seq<char> {
    match pending {
        Some(f) => f.0,
        None => Seq::empty(),
    }
}

/// Text made of a tag, `|`, a field without `|`, `|` and a rest splits, in at
/// most three pieces, into those three.
proof fn lemma_three_fields(tag: Seq<char>, field: Seq<char>, rest: Seq<char>)
    requires
        !has_char(tag, '|'),
        !has_char(field, '|'),
    ensures
        splitn_on(tag + seq!['|'] + field + seq!['|'] + rest, 3, '|') == seq![tag, field, rest],
        split_on(tag + seq!['|'] + field + seq!['|'] + rest, '|') == seq![tag, field] + split_on(rest, '|'),
{
    let t = tag + seq!['|'] + field + seq!['|'] + rest;
    let r = field + seq!['|'] + rest;
    assert(t =~= tag + seq!['|'] + r);
    lemma_split_first(tag, r, '|');
    lemma_split_first(field, rest, '|');
    assert(splitn_on(t, 3, '|') == seq![tag] + splitn_on(r, 2, '|'));
    assert(splitn_on(r, 2, '|') == seq![field] + splitn_on(rest, 1, '|'));
    assert(seq![tag] + (seq![field] + seq![rest]) =~= seq![tag, field, rest]);
    assert(seq![tag] + (seq![field] + split_on(rest, '|')) =~= seq![tag, field] + split_on(rest, '|'));
}

/// Joined pieces are at least as long as the first.
proof fn lemma_join_len(pieces: Seq<Seq<char>>, sep: Seq<char>)
    requires
        pieces.len() > 0,
    ensures
        join_with(pieces, sep).len() >= pieces[0].len(),
{
}

/// The commits that a list joined with commas carries are the non-empty
/// pieces between the commas, whatever the list.
proof fn lemma_commits_read(commits: Seq<Seq<char>>)
    requires
        forall|i: int| 0 <= i < commits.len() ==> !has_char(#[trigger] commits[i], ','),
    ensures
        nonempty_of(split_on(join_with(commits, seq![',']), ',')) == nonempty_of(commits),
{
    if commits.len() > 0 {
        lemma_split_join(commits, ',');
    } else {
        let j = join_with(commits, seq![',']);
        assert(j == Seq::<char>::empty());
        assert(split_on(j, ',') == seq![j]);
        assert(seq![j].drop_last() =~= Seq::<Seq<char>>::empty());
        assert(nonempty_of(Seq::<Seq<char>>::empty()) == Seq::<Seq<char>>::empty());
        assert(nonempty_of(seq![j]) == nonempty_of(seq![j].drop_last()));
        assert(commits =~= Seq::<Seq<char>>::empty());
    }
}

/// What a peer reads of a sync request is the branch and the commits that
/// the asker sent, empty ones left out.
pub proof fn law_sync_request_read(branch: Seq<char>, commits: Seq<Seq<char>>)
    requires
        !has_char(branch, '|'),
        forall|i: int| 0 <= i < commits.len() ==> !has_char(#[trigger] commits[i], ','),
    ensures
        parse_sync_req(sync_req_text(branch, commits)) == Some((branch, nonempty_of(commits))),
{
    reveal_strlit("SYNC_REQ|");
    reveal_strlit("|");
    reveal_strlit(",");
    let tag = "SYNC_REQ|"@.drop_last();
    assert(!has_char(tag, '|'));
    let j = join_with(commits, ","@);
    assert(","@ =~= seq![',']);
    assert(sync_req_text(branch, commits) =~= tag + seq!['|'] + branch + seq!['|'] + j);
    lemma_three_fields(tag, branch, j);
    lemma_commits_read(commits);
}

/// What the asker reads of a sync answer is the list of missing commits
/// that the peer sent.
pub proof fn law_sync_answer_read(branch: Seq<char>, missing: Seq<Seq<char>>)
    requires
        !has_char(branch, '|'),
        forall|i: int| 0 <= i < missing.len() ==> plain_item(#[trigger] missing[i]),
    ensures
        sync_res_missing(sync_res_text(branch, missing)) == missing,
{
    reveal_strlit("SYNC_RES|");
    reveal_strlit("|");
    reveal_strlit(",");
    let tag = "SYNC_RES|"@.drop_last();
    assert(!has_char(tag, '|'));
    assert(","@ =~= seq![',']);
    let j = join_with(missing, seq![',']);
    assert(sync_res_text(branch, missing) =~= tag + seq!['|'] + branch + seq!['|'] + j);
    lemma_three_fields(tag, branch, j);
    assert forall|i: int| 0 <= i < missing.len() implies !has_char(#[trigger] missing[i], '|') by {
        assert(plain_item(missing[i]));
    }
    assert(!has_char(seq![','], '|'));
    lemma_join_no_char(missing, seq![','], '|');
    lemma_split_none(j, '|');
    assert(split_on(sync_res_text(branch, missing), '|') =~= seq![tag, branch, j]);
    if missing.len() > 0 {
        assert(plain_item(missing[0]));
        lemma_join_len(missing, seq![',']);
        assert forall|i: int| 0 <= i < missing.len() implies !has_char(#[trigger] missing[i], ',') by {
            assert(plain_item(missing[i]));
        }
        lemma_split_join(missing, ',');
    }
}

/// What a peer reads of a request for objects is the branch of the fetch
/// and the commits asked for.
pub proof fn law_objs_request_read(pending: Option<(Seq<char>, Seq<char>)>, missing: Seq<Seq<char>>)
    requires
        !has_char(pending_branch(pending), '|'),
        missing.len() > 0,
        forall|i: int| 0 <= i < missing.len() ==> plain_item(#[trigger] missing[i]),
    ensures
        splitn_on(objs_request_text(pending, missing), 3, '|').len() == 3,
        splitn_on(objs_request_text(pending, missing), 3, '|')[1] == pending_branch(pending),
        split_on(splitn_on(objs_request_text(pending, missing), 3, '|')[2], ',') == missing,
{
    reveal_strlit("GET_OBJS|");
    reveal_strlit("|");
    reveal_strlit(",");
    let tag = "GET_OBJS|"@.drop_last();
    assert(!has_char(tag, '|'));
    assert(","@ =~= seq![',']);
    let b = pending_branch(pending);
    let j = join_with(missing, seq![',']);
    assert(objs_request_text(pending, missing) =~= tag + seq!['|'] + b + seq!['|'] + j);
    lemma_three_fields(tag, b, j);
    assert forall|i: int| 0 <= i < missing.len() implies !has_char(#[trigger] missing[i], ',') by {
        assert(plain_item(missing[i]));
    }
    lemma_split_join(missing, ',');
}

/// The entries of stored objects hold no comma, where the hashes hold none.
proof fn lemma_entries_plain(s: Seq<(Seq<char>, Seq<u8>)>, hs: Seq<Seq<char>>)
    requires
        forall|i: int| 0 <= i < hs.len() ==> !has_char(#[trigger] hs[i], ','),
    ensures
        forall|i: int|
            0 <= i < object_entries(s, hs).len() ==> !has_char(#[trigger] object_entries(s, hs)[i], ','),
    decreases hs.len(),
{
    reveal_strlit(":");
    if hs.len() > 0 {
        let t = hs.drop_last();
        assert forall|i: int| 0 <= i < t.len() implies !has_char(#[trigger] t[i], ',') by {
            assert(t[i] == hs[i]);
        }
        lemma_entries_plain(s, t);
        let h = hs.last();
        assert(!has_char(h, ','));
        match store_get(s, h) {
            Some(raw) => {
                let e = h + ":"@ + base64_encoded(raw);
                lemma_base64_plain(raw);
                let b = base64_encoded(raw);
                assert forall|q: int| 0 <= q < e.len() implies e[q] != ',' by {
                    if q < h.len() {
                        assert(e[q] == h[q]);
                    } else if q == h.len() {
                        assert(e[q] == ':');
                    } else {
                        assert(e[q] == b[q - h.len() - 1]);
                    }
                }
                let es = object_entries(s, hs);
                let ts = object_entries(s, t);
                assert forall|i: int| 0 <= i < es.len() implies !has_char(#[trigger] es[i], ',') by {
                    if i < ts.len() {
                        assert(es[i] == ts[i]);
                    } else {
                        assert(es[i] == e);
                    }
                }
            },
            None => {},
        }
    }
}

/// Whether the base64 text of each stored object among `hs` decodes back
/// to the object's bytes, as `base64_decode` of what `base64_encode` wrote
/// gives.
pub open spec fn decodes_back(s: Seq<(Seq<char>, Seq<u8>)>, hs: Seq<Seq<char>>) -> bool {
    forall|i: int|
        0 <= i < hs.len() ==> match store_get(s, #[trigger] hs[i]) {
            Some(raw) => base64_decoded(base64_encoded(raw)) == Some(raw),
            None => true,
        }
}

/// Reading the entries of stored objects back gives those objects, where
/// the base64 text of each decodes back to it.
proof fn lemma_entries_read(s: Seq<(Seq<char>, Seq<u8>)>, hs: Seq<Seq<char>>)
    requires
        forall|i: int| 0 <= i < hs.len() ==> !has_char(#[trigger] hs[i], ':'),
        decodes_back(s, hs),
    ensures
        decoded_entries(object_entries(s, hs)) == stored_objects(s, hs),
    decreases hs.len(),
{
    reveal_strlit(":");
    if hs.len() > 0 {
        let t = hs.drop_last();
        assert forall|i: int| 0 <= i < t.len() implies !has_char(#[trigger] t[i], ':') by {
            assert(t[i] == hs[i]);
        }
        assert forall|i: int| 0 <= i < t.len() implies match store_get(s, #[trigger] t[i]) {
            Some(raw) => base64_decoded(base64_encoded(raw)) == Some(raw),
            None => true,
        } by {
            assert(t[i] == hs[i]);
        }
        lemma_entries_read(s, t);
        let h = hs.last();
        assert(hs[hs.len() - 1] == h);
        assert(!has_char(h, ':'));
        match store_get(s, h) {
            Some(raw) => {
                let b = base64_encoded(raw);
                let e = h + ":"@ + b;
                lemma_base64_plain(raw);
                assert(":"@ =~= seq![':']);
                lemma_split_first(h, b, ':');
                lemma_split_none(b, ':');
                assert(splitn_on(e, 2, ':') == seq![h] + splitn_on(b, 1, ':'));
                assert(splitn_on(e, 2, ':') =~= seq![h, b]);
                assert(object_entries(s, hs).drop_last() =~= object_entries(s, t));
            },
            None => {},
        }
    }
}

/// What the asker reads of an objects answer is the stored objects among the
/// hashes the peer sent, where the base64 text of each of those objects
/// decodes back to it.
pub proof fn law_objs_answer_read(branch: Seq<char>, s: Seq<(Seq<char>, Seq<u8>)>, hs: Seq<Seq<char>>)
    requires
        !has_char(branch, '|'),
        forall|i: int| 0 <= i < hs.len() ==> !has_char(#[trigger] hs[i], ',') && !has_char(hs[i], ':'),
        decodes_back(s, hs),
    ensures
        splitn_on(objs_answer_text(branch, object_entries(s, hs)), 3, '|').len() == 3,
        decoded_entries(
            split_on(splitn_on(objs_answer_text(branch, object_entries(s, hs)), 3, '|')[2], ','),
        ) == stored_objects(s, hs),
{
    reveal_strlit("OBJS|");
    reveal_strlit("|");
    reveal_strlit(",");
    let tag = "OBJS|"@.drop_last();
    assert(!has_char(tag, '|'));
    assert(","@ =~= seq![',']);
    let es = object_entries(s, hs);
    let j = join_with(es, seq![',']);
    assert(objs_answer_text(branch, es) =~= tag + seq!['|'] + branch + seq!['|'] + j);
    lemma_three_fields(tag, branch, j);
    assert forall|i: int| 0 <= i < hs.len() implies !has_char(#[trigger] hs[i], ',') by {}
    assert forall|i: int| 0 <= i < hs.len() implies !has_char(#[trigger] hs[i], ':') by {}
    lemma_entries_plain(s, hs);
    lemma_entries_read(s, hs);
    if es.len() > 0 {
        lemma_split_join(es, ',');
    } else {
        assert(j == Seq::<char>::empty());
        assert(split_on(j, ',') == seq![j]);
        assert(splitn_on(j, 2, ':') == seq![j]);
        assert(seq![j].drop_last() =~= Seq::<Seq<char>>::empty());
        assert(decoded_entries(Seq::<Seq<char>>::empty()) == Seq::<(Seq<char>, Seq<u8>)>::empty());
        assert(decoded_entries(seq![j]) == decoded_entries(seq![j].drop_last()));
        assert(es =~= Seq::<Seq<char>>::empty());
    }
}

/// The lines of a branch listing are not empty, hold no `\n` and do not end
/// in `\r`, where branches and heads are plain words.
proof fn lemma_ref_lines_plain(refs: Seq<(Seq<char>, Seq<char>)>)
    requires
        forall|i: int| 0 <= i < refs.len() ==> plain_word(#[trigger] refs[i].0) && plain_word(refs[i].1),
    ensures
        forall|i: int|
            0 <= i < ref_lines(refs).len() ==> (#[trigger] ref_lines(refs)[i]).len() > 0 && !has_char(
                ref_lines(refs)[i],
                '\n',
            ) && ref_lines(refs)[i].last() != '\r',
{
    reveal_strlit(" ");
    assert forall|i: int| 0 <= i < ref_lines(refs).len() implies (#[trigger] ref_lines(refs)[i]).len() > 0
        && !has_char(ref_lines(refs)[i], '\n') && ref_lines(refs)[i].last() != '\r' by {
        let n = refs[i].0;
        let h = refs[i].1;
        assert(plain_word(n) && plain_word(h));
        let l = ref_lines(refs)[i];
        assert(l == n + " "@ + h);
        assert forall|q: int| 0 <= q < l.len() implies l[q] != '\n' by {
            if q < n.len() {
                assert(l[q] == n[q]);
                assert(!is_ws(n[q]));
            } else if q == n.len() {
                assert(l[q] == ' ');
            } else {
                assert(l[q] == h[q - n.len() - 1]);
                assert(!is_ws(h[q - n.len() - 1]));
            }
        }
        assert(l.last() == h.last());
        assert(!is_ws(h[h.len() - 1]));
    }
}

/// Reading the lines of a branch listing gives the map the branches spell.
proof fn lemma_refs_read(refs: Seq<(Seq<char>, Seq<char>)>)
    requires
        forall|i: int| 0 <= i < refs.len() ==> plain_word(#[trigger] refs[i].0) && plain_word(refs[i].1),
    ensures
        refs_from_lines(ref_lines(refs)) == pairs_map(refs),
    decreases refs.len(),
{
    reveal_strlit(" ");
    if refs.len() > 0 {
        let t = refs.drop_last();
        assert forall|i: int| 0 <= i < t.len() implies plain_word(#[trigger] t[i].0) && plain_word(t[i].1) by {
            assert(t[i] == refs[i]);
        }
        lemma_refs_read(t);
        assert(ref_lines(refs).drop_last() =~= ref_lines(t));
        let last = refs.last();
        assert(plain_word(last.0) && plain_word(last.1));
        assert(" "@ =~= seq![' ']);
        lemma_words_pair(last.0, last.1);
        assert(ref_lines(refs).last() == last.0 + " "@ + last.1);
    }
}

/// What a peer reads of a branch listing is the map that the listed branches
/// spell, where branches and heads are plain words and no branch holds `|`.
pub proof fn law_refs_answer_read(refs: Seq<(Seq<char>, Seq<char>)>)
    requires
        forall|i: int|
            0 <= i < refs.len() ==> plain_word(#[trigger] refs[i].0) && plain_word(refs[i].1) && !has_char(
                refs[i].0,
                '|',
            ),
    ensures
        starts_with(refs_answer_text(refs), "REFS|"@),
        refs_from_lines(text_lines(strip_all_prefix(refs_answer_text(refs), "REFS|"@))) == pairs_map(refs),
{
    reveal_strlit("REFS|");
    reveal_strlit("\n");
    reveal_strlit(" ");
    let p = "REFS|"@;
    let ls = ref_lines(refs);
    let j = join_with(ls, "\n"@);
    let t = refs_answer_text(refs);
    assert(t == p + j);
    assert(t.subrange(0, 5) =~= p);
    assert(t.subrange(5, t.len() as int) =~= j);
    assert(strip_all_prefix(t, p) == strip_all_prefix(j, p));
    if refs.len() > 0 {
        let n = refs[0].0;
        assert(plain_word(n) && plain_word(refs[0].1) && !has_char(n, '|'));
        let l0 = ls[0];
        assert(l0 == n + " "@ + refs[0].1);
        lemma_join_len(ls, "\n"@);
        assert forall|k: int| 0 <= k < l0.len() implies j[k] == l0[k] by {
            if ls.len() > 1 {
                assert(j == l0 + "\n"@ + join_with(ls.drop_first(), "\n"@));
            }
        }
        if starts_with(j, p) {
            let len = n.len() as int;
            if len <= 4 {
                assert(j[len] == l0[len]);
                assert(l0[len] == ' ');
                assert(j.subrange(0, 5)[len] == p[len]);
            } else {
                assert(j[4] == l0[4]);
                assert(l0[4] == n[4]);
                assert(j.subrange(0, 5)[4] == p[4]);
            }
        }
    }
    assert(!starts_with(j, p));
    assert(strip_all_prefix(j, p) == j);
    assert forall|i: int| 0 <= i < refs.len() implies plain_word(#[trigger] refs[i].0) && plain_word(refs[i].1) by {}
    lemma_ref_lines_plain(refs);
    assert("\n"@ =~= seq!['\n']);
    lemma_lines_join(ls);
    lemma_refs_read(refs);
}

/// Text that differs from `p` at a position within both does not begin
/// with `p`.
proof fn lemma_not_prefix(t: Seq<char>, p: Seq<char>, k: int)
    requires
        0 <= k < p.len(),
        k < t.len(),
        t[k] != p[k],
    ensures
        !starts_with(t, p),
        t != p,
{
    if starts_with(t, p) {
        assert(t.subrange(0, p.len() as int)[k] == t[k]);
    }
}

/// A peer asked for its branches answers with a listing of them, and what
/// the asker then holds for that peer is the map its branches spell, where
/// branches and heads are plain words and no branch holds `|`.
pub proof fn law_branch_listing(
    refs: Seq<(Seq<char>, Seq<char>)>,
    heads: Seq<(Seq<char>, Seq<char>)>,
    known: Seq<Seq<char>>,
    s: Seq<(Seq<char>, Seq<u8>)>,
    peer: Seq<char>,
    peers: Map<Seq<char>, Seq<Seq<char>>>,
    branches: Map<Seq<char>, Map<Seq<char>, Seq<char>>>,
    pending: Option<(Seq<char>, Seq<char>)>,
    peers2: Map<Seq<char>, Seq<Seq<char>>>,
    branches2: Map<Seq<char>, Map<Seq<char>, Seq<char>>>,
    pending2: Option<(Seq<char>, Seq<char>)>,
    action: ActionView,
)
    requires
        forall|i: int|
            0 <= i < refs.len() ==> plain_word(#[trigger] refs[i].0) && plain_word(refs[i].1) && !has_char(
                refs[i].0,
                '|',
            ),
        response_effect(
            refs_answer_text(refs),
            peer,
            peers,
            branches,
            pending,
            peers2,
            branches2,
            pending2,
            action,
        ),
    ensures
        answer_of("GET_REFS"@, known, refs, heads, s) == RequestAnswer::Respond(refs_answer_text(refs)),
        branches2 == branches.insert(peer, pairs_map(refs)),
        peers2 == peers,
        pending2 == pending,
        action == ActionView::Refs(pairs_map(refs)),
{
    reveal_strlit("GET_REFS");
    reveal_strlit("GET_PEERS");
    lemma_not_prefix("GET_REFS"@, "GET_PEERS"@, 4);
    law_refs_answer_read(refs);
}

/// A peer asked to sync a branch answers with the commits of that branch that
/// the asker lacks, and the asker then notes the peer's head (the first of
/// them) and asks for their objects; where none is missing, nothing changes.
/// This holds where the branch holds no `|`, the asker's commits no `,`, and
/// the missing commits are plain items.
pub proof fn law_sync_exchange(
    branch: Seq<char>,
    commits: Seq<Seq<char>>,
    refs: Seq<(Seq<char>, Seq<char>)>,
    heads: Seq<(Seq<char>, Seq<char>)>,
    known: Seq<Seq<char>>,
    s: Seq<(Seq<char>, Seq<u8>)>,
    peer: Seq<char>,
    peers: Map<Seq<char>, Seq<Seq<char>>>,
    branches: Map<Seq<char>, Map<Seq<char>, Seq<char>>>,
    pending: Option<(Seq<char>, Seq<char>)>,
    peers2: Map<Seq<char>, Seq<Seq<char>>>,
    branches2: Map<Seq<char>, Map<Seq<char>, Seq<char>>>,
    pending2: Option<(Seq<char>, Seq<char>)>,
    action: ActionView,
)
    requires
        !has_char(branch, '|'),
        forall|i: int| 0 <= i < commits.len() ==> !has_char(#[trigger] commits[i], ','),
        forall|i: int|
            0 <= i < missing_for(s, heads, branch, nonempty_of(commits)).len() ==> plain_item(
                #[trigger] missing_for(s, heads, branch, nonempty_of(commits))[i],
            ),
        response_effect(
            sync_res_text(branch, missing_for(s, heads, branch, nonempty_of(commits))),
            peer,
            peers,
            branches,
            pending,
            peers2,
            branches2,
            pending2,
            action,
        ),
    ensures
        answer_of(sync_req_text(branch, commits), known, refs, heads, s) == RequestAnswer::Respond(
            sync_res_text(branch, missing_for(s, heads, branch, nonempty_of(commits))),
        ),
        peers2 == peers,
        branches2 == branches,
        missing_for(s, heads, branch, nonempty_of(commits)).len() == 0 ==> pending2 == pending && action
            == ActionView::NothingMissing,
        missing_for(s, heads, branch, nonempty_of(commits)).len() > 0 ==> {
            &&& pending2 == match pending {
                Some(f) => Some((f.0, missing_for(s, heads, branch, nonempty_of(commits))[0])),
                None => None,
            }
            &&& action == ActionView::Request(
                objs_request_text(pending, missing_for(s, heads, branch, nonempty_of(commits))),
            )
        },
{
    reveal_strlit("SYNC_REQ|");
    reveal_strlit("SYNC_RES|");
    reveal_strlit("GET_REFS");
    reveal_strlit("GET_PEERS");
    reveal_strlit("REFS|");
    reveal_strlit("PEERS|");
    let req = sync_req_text(branch, commits);
    let missing = missing_for(s, heads, branch, nonempty_of(commits));
    let ans = sync_res_text(branch, missing);
    assert(req[0] == 'S');
    assert(ans[0] == 'S');
    lemma_not_prefix(req, "GET_PEERS"@, 0);
    lemma_not_prefix(req, "GET_REFS"@, 0);
    assert(req.subrange(0, 9) =~= "SYNC_REQ|"@);
    law_sync_request_read(branch, commits);
    lemma_not_prefix(ans, "REFS|"@, 0);
    lemma_not_prefix(ans, "PEERS|"@, 0);
    assert(ans.subrange(0, 9) =~= "SYNC_RES|"@);
    law_sync_answer_read(branch, missing);
}

/// A peer asked for the objects of missing commits answers with every
/// stored object they reach, and the asker then holds exactly those objects
/// (hash and stored bytes) together with the merge that waited for them.
/// This holds where the fetch's branch holds no `|`, the commits are plain
/// items, the hashes of the objects hold no `,` or `:`, and the base64 text
/// of each of those objects decodes back to it.
pub proof fn law_objects_exchange(
    asked: Option<(Seq<char>, Seq<char>)>,
    missing: Seq<Seq<char>>,
    refs: Seq<(Seq<char>, Seq<char>)>,
    heads: Seq<(Seq<char>, Seq<char>)>,
    known: Seq<Seq<char>>,
    s: Seq<(Seq<char>, Seq<u8>)>,
    peer: Seq<char>,
    peers: Map<Seq<char>, Seq<Seq<char>>>,
    branches: Map<Seq<char>, Map<Seq<char>, Seq<char>>>,
    pending: Option<(Seq<char>, Seq<char>)>,
    peers2: Map<Seq<char>, Seq<Seq<char>>>,
    branches2: Map<Seq<char>, Map<Seq<char>, Seq<char>>>,
    pending2: Option<(Seq<char>, Seq<char>)>,
    action: ActionView,
)
    requires
        !has_char(pending_branch(asked), '|'),
        missing.len() > 0,
        forall|i: int| 0 <= i < missing.len() ==> plain_item(#[trigger] missing[i]),
        forall|i: int|
            0 <= i < objs_hashes(s, missing).len() ==> !has_char(#[trigger] objs_hashes(s, missing)[i], ',')
                && !has_char(objs_hashes(s, missing)[i], ':'),
        decodes_back(s, objs_hashes(s, missing)),
        response_effect(
            objs_answer_text(pending_branch(asked), object_entries(s, objs_hashes(s, missing))),
            peer,
            peers,
            branches,
            pending,
            peers2,
            branches2,
            pending2,
            action,
        ),
    ensures
        answer_of(objs_request_text(asked, missing), known, refs, heads, s) == RequestAnswer::Respond(
            objs_answer_text(pending_branch(asked), object_entries(s, objs_hashes(s, missing))),
        ),
        peers2 == peers,
        branches2 == branches,
        pending2 is None,
        action == ActionView::Objects(stored_objects(s, objs_hashes(s, missing)), pending),
{
    reveal_strlit("GET_OBJS|");
    reveal_strlit("SYNC_REQ|");
    reveal_strlit("SYNC_RES|");
    reveal_strlit("GET_REFS");
    reveal_strlit("GET_PEERS");
    reveal_strlit("REFS|");
    reveal_strlit("PEERS|");
    reveal_strlit("OBJS|");
    let b = pending_branch(asked);
    let hs = objs_hashes(s, missing);
    let req = objs_request_text(asked, missing);
    let ans = objs_answer_text(b, object_entries(s, hs));
    assert(req[0] == 'G' && req[4] == 'O');
    assert(ans[0] == 'O');
    lemma_not_prefix(req, "GET_PEERS"@, 4);
    lemma_not_prefix(req, "GET_REFS"@, 4);
    lemma_not_prefix(req, "SYNC_REQ|"@, 0);
    assert(req.subrange(0, 9) =~= "GET_OBJS|"@);
    law_objs_request_read(asked, missing);
    lemma_not_prefix(ans, "REFS|"@, 0);
    lemma_not_prefix(ans, "PEERS|"@, 0);
    lemma_not_prefix(ans, "SYNC_RES|"@, 0);
    assert(ans.subrange(0, 5) =~= "OBJS|"@);
    law_objs_answer_read(b, s, hs);
}

/// The pieces that read as peer ids are known once a peer list is read.
proof fn lemma_peers_known(m: Map<Seq<char>, Seq<Seq<char>>>, ps: Seq<Seq<char>>)
    ensures
        forall|p: Seq<char>| m.contains_key(p) ==> #[trigger] peers_known_after(m, ps).contains_key(p),
        forall|i: int|
            0 <= i < ps.len() && peer_id_of(ps[i]) is Some ==> peers_known_after(m, ps).contains_key(
                #[trigger] peer_id_of(ps[i]).unwrap(),
            ),
    decreases ps.len(),
{
    if ps.len() > 0 {
        let t = ps.drop_last();
        lemma_peers_known(m, t);
        let before = peers_known_after(m, t);
        assert forall|q: Seq<char>| before.contains_key(q) implies peers_known_after(m, ps).contains_key(q) by {
            match peer_id_of(ps.last()) {
                Some(id) => {
                    assert(peers_known_after(m, ps) == know_peer(before, id));
                },
                None => {},
            }
        }
        assert forall|p: Seq<char>| m.contains_key(p) implies #[trigger] peers_known_after(m, ps).contains_key(p) by {
            assert(before.contains_key(p));
        }
        assert forall|i: int| 0 <= i < ps.len() && peer_id_of(ps[i]) is Some implies peers_known_after(
            m,
            ps,
        ).contains_key(#[trigger] peer_id_of(ps[i]).unwrap()) by {
            if i < t.len() {
                assert(ps[i] == t[i]);
                assert(peers_known_after(m, t).contains_key(peer_id_of(t[i]).unwrap()));
            } else {
                assert(peers_known_after(m, ps) == know_peer(before, peer_id_of(ps.last()).unwrap()));
            }
        }
    }
}

/// A peer asked for the peers it knows lists them all, and the asker then
/// knows each of them, besides those it knew; where each listed id is the
/// text libp2p reads it as and holds no `,` or `|`.
pub proof fn law_peer_listing(
    known: Seq<Seq<char>>,
    refs: Seq<(Seq<char>, Seq<char>)>,
    heads: Seq<(Seq<char>, Seq<char>)>,
    s: Seq<(Seq<char>, Seq<u8>)>,
    peer: Seq<char>,
    peers: Map<Seq<char>, Seq<Seq<char>>>,
    branches: Map<Seq<char>, Map<Seq<char>, Seq<char>>>,
    pending: Option<(Seq<char>, Seq<char>)>,
    peers2: Map<Seq<char>, Seq<Seq<char>>>,
    branches2: Map<Seq<char>, Map<Seq<char>, Seq<char>>>,
    pending2: Option<(Seq<char>, Seq<char>)>,
    action: ActionView,
)
    requires
        forall|i: int|
            0 <= i < known.len() ==> !has_char(#[trigger] known[i], ',') && !has_char(known[i], '|')
                && peer_id_of(known[i]) == Some(known[i]),
        response_effect(
            "PEERS|"@ + join_with(known, ","@),
            peer,
            peers,
            branches,
            pending,
            peers2,
            branches2,
            pending2,
            action,
        ),
    ensures
        answer_of("GET_PEERS"@, known, refs, heads, s) == RequestAnswer::Respond("PEERS|"@ + join_with(known, ","@)),
        forall|i: int| 0 <= i < known.len() ==> peers2.contains_key(#[trigger] known[i]),
        forall|p: Seq<char>| peers.contains_key(p) ==> peers2.contains_key(p),
        branches2 == branches,
        pending2 == pending,
        action == ActionView::Peers,
{
    reveal_strlit("PEERS|");
    reveal_strlit("REFS|");
    reveal_strlit(",");
    let p = "PEERS|"@;
    let j = join_with(known, seq![',']);
    assert(","@ =~= seq![',']);
    let t = p + j;
    lemma_not_prefix(t, "REFS|"@, 0);
    assert(t.subrange(0, 6) =~= p);
    assert(t.subrange(6, t.len() as int) =~= j);
    assert(strip_all_prefix(t, p) == strip_all_prefix(j, p));
    if known.len() > 0 {
        assert(!has_char(known[0], '|'));
        lemma_join_len(known, seq![',']);
        if j.len() >= 6 {
            if known.len() > 1 {
                assert(j == known[0] + seq![','] + join_with(known.drop_first(), seq![',']));
            }
            if known[0].len() > 5 {
                assert(j[5] == known[0][5]);
                lemma_not_prefix(j, p, 5);
            } else {
                let k = known[0].len() as int;
                assert(k < j.len());
                assert(j[k] == ',');
                lemma_not_prefix(j, p, k);
            }
        }
        assert forall|i: int| 0 <= i < known.len() implies !has_char(#[trigger] known[i], ',') by {}
        lemma_split_join(known, ',');
    } else {
        assert(j.len() == 0);
    }
    assert(!starts_with(j, p));
    assert(strip_all_prefix(j, p) == j);
    lemma_peers_known(peers, split_on(j, ','));
    if known.len() > 0 {
        assert forall|i: int| 0 <= i < known.len() implies peers2.contains_key(#[trigger] known[i]) by {
            assert(split_on(j, ',')[i] == known[i]);
            assert(peer_id_of(split_on(j, ',')[i]) == Some(known[i]));
            assert(peer_id_of(split_on(j, ',')[i]).unwrap() == known[i]);
            assert(peers_known_after(peers, split_on(j, ',')).contains_key(peer_id_of(split_on(j, ',')[i]).unwrap()));
        }
    }
}

/// A merge that waits for a peer's branch, once the peer's sync answer lists
/// the missing commits and its objects answer arrives, is handed over with
/// the local branch and the peer's head: the first missing commit. This
/// holds where the branches hold no `|` and the commits are plain items.
pub proof fn law_fetch_then_merge(
    local_branch: Seq<char>,
    remote_branch: Seq<char>,
    missing: Seq<Seq<char>>,
    entries: Seq<Seq<char>>,
    peer: Seq<char>,
    peers: Map<Seq<char>, Seq<Seq<char>>>,
    branches: Map<Seq<char>, Map<Seq<char>, Seq<char>>>,
    peers1: Map<Seq<char>, Seq<Seq<char>>>,
    branches1: Map<Seq<char>, Map<Seq<char>, Seq<char>>>,
    pending1: Option<(Seq<char>, Seq<char>)>,
    action1: ActionView,
    peers2: Map<Seq<char>, Seq<Seq<char>>>,
    branches2: Map<Seq<char>, Map<Seq<char>, Seq<char>>>,
    pending2: Option<(Seq<char>, Seq<char>)>,
    action2: ActionView,
)
    requires
        !has_char(remote_branch, '|'),
        !has_char(local_branch, '|'),
        missing.len() > 0,
        forall|i: int| 0 <= i < missing.len() ==> plain_item(#[trigger] missing[i]),
        response_effect(
            sync_res_text(remote_branch, missing),
            peer,
            peers,
            branches,
            Some((local_branch, Seq::empty())),
            peers1,
            branches1,
            pending1,
            action1,
        ),
        response_effect(
            objs_answer_text(local_branch, entries),
            peer,
            peers1,
            branches1,
            pending1,
            peers2,
            branches2,
            pending2,
            action2,
        ),
    ensures
        action1 == ActionView::Request(objs_request_text(Some((local_branch, Seq::empty())), missing)),
        pending2 is None,
        action2 matches ActionView::Objects(_, merge) && merge == Some((local_branch, missing[0])),
{
    reveal_strlit("SYNC_RES|");
    reveal_strlit("REFS|");
    reveal_strlit("PEERS|");
    reveal_strlit("OBJS|");
    let a1 = sync_res_text(remote_branch, missing);
    assert(a1[0] == 'S');
    lemma_not_prefix(a1, "REFS|"@, 0);
    lemma_not_prefix(a1, "PEERS|"@, 0);
    assert(a1.subrange(0, 9) =~= "SYNC_RES|"@);
    law_sync_answer_read(remote_branch, missing);
    let a2 = objs_answer_text(local_branch, entries);
    assert(a2[0] == 'O');
    lemma_not_prefix(a2, "REFS|"@, 0);
    lemma_not_prefix(a2, "PEERS|"@, 0);
    lemma_not_prefix(a2, "SYNC_RES|"@, 0);
    assert(a2.subrange(0, 5) =~= "OBJS|"@);
    reveal_strlit("|");
    reveal_strlit(",");
    let tag = "OBJS|"@.drop_last();
    assert(!has_char(tag, '|'));
    let j = join_with(entries, ","@);
    assert(a2 =~= tag + seq!['|'] + local_branch + seq!['|'] + j);
    lemma_three_fields(tag, local_branch, j);
}

} // verus!
