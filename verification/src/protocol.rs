//! The request/response protocol between peers: requests are answered from
//! the repository's branches and objects.
use vstd::prelude::*;
use crate::codec::{base64_encode, base64_encoded};
use crate::diff3::lines_view;
use crate::history::{
    bfs_find, branch_commits, find_lca, get_all_commits_of_branch, get_missing_commits,
};
use crate::objwalk::{collect_all_objects, collect_run, ObjTask};
use crate::store::{store_get, ObjectStore};
use crate::text::{
    index_from, join_strings, join_with, push_str, split_on, split_str, splitn_on, splitn_str,
    starts_with, str_starts_with,
};

verus! {

/// A request as it travels: its bytes.
#[derive(Debug)]
pub struct RvcRequest(pub Vec<u8>);

/// A response as it travels: its bytes.
#[derive(Debug)]
pub struct RvcResponse(pub Vec<u8>);

/// The codec that frames requests and responses: a message is all the bytes
/// of its stream.
pub struct RvcCodec;

/// The text of the pieces that are not empty, in order.
pub open spec fn nonempty_of(ps: Seq<Seq<char>>) -> Seq<Seq<char>>
    decreases ps.len(),
{
    if ps.len() == 0 {
        Seq::empty()
    } else if ps.last().len() == 0 {
        nonempty_of(ps.drop_last())
    } else {
        nonempty_of(ps.drop_last()).push(ps.last())
    }
}

/// The head of a branch in a list of (branch, head) pairs; empty where the
/// branch is not listed.
pub open spec fn ref_lookup(refs: Seq<(Seq<char>, Seq<char>)>, branch: Seq<char>) -> Seq<char>
    decreases refs.len(),
{
    if refs.len() == 0 {
        Seq::empty()
    } else if refs[0].0 == branch {
        refs[0].1
    } else {
        ref_lookup(refs.drop_first(), branch)
    }
}

/// The view of (branch, head) pairs.
pub open spec fn refs_view(refs: Seq<(String, String)>) -> Seq<(Seq<char>, Seq<char>)> {
    refs.map_values(|r: (String, String)| (r.0@, r.1@))
}

/// The lines `branch head` of (branch, head) pairs.
pub open spec fn ref_lines(refs: Seq<(Seq<char>, Seq<char>)>) -> Seq<Seq<char>> {
    refs.map_values(|r: (Seq<char>, Seq<char>)| r.0 + " "@ + r.1)
}

/// The text of a sync request: the branch and the commits the asker has.
pub open spec fn sync_req_text(branch: Seq<char>, commits: Seq<Seq<char>>) -> Seq<char> {
    "SYNC_REQ|"@ + branch + "|"@ + join_with(commits, ","@)
}

/// The text of a sync answer: the branch and the commits the asker lacks.
pub open spec fn sync_res_text(branch: Seq<char>, missing: Seq<Seq<char>>) -> Seq<char> {
    "SYNC_RES|"@ + branch + "|"@ + join_with(missing, ","@)
}

/// The text of a branch listing: a `branch head` line for each branch.
pub open spec fn refs_answer_text(refs: Seq<(Seq<char>, Seq<char>)>) -> Seq<char> {
    "REFS|"@ + join_with(ref_lines(refs), "\n"@)
}

/// The text of an objects answer: `hash:base64` entries after the branch.
pub open spec fn objs_answer_text(branch: Seq<char>, entries: Seq<Seq<char>>) -> Seq<char> {
    "OBJS|"@ + branch + "|"@ + join_with(entries, ","@)
}

/// The (hash, stored bytes) pairs of the stored objects among `hs`, in order.
pub open spec fn stored_objects(s: Seq<(Seq<char>, Seq<u8>)>, hs: Seq<Seq<char>>) -> Seq<(Seq<char>, Seq<u8>)>
    decreases hs.len(),
{
    if hs.len() == 0 {
        Seq::empty()
    } else {
        let rest = stored_objects(s, hs.drop_last());
        match store_get(s, hs.last()) {
            Some(raw) => rest.push((hs.last(), raw)),
            None => rest,
        }
    }
}

/// The hashes whose objects a `GET_OBJS` request with this list of commits
/// gets: all that each commit reaches, runs of repeats dropped.
pub open spec fn objs_hashes(s: Seq<(Seq<char>, Seq<u8>)>, commits: Seq<Seq<char>>) -> Seq<Seq<char>> {
    dedup_of(collect_many(s, commits, Seq::empty()))
}

/// The branch and commits that a sync request names, where it has both
/// fields: the commits are the non-empty pieces between commas.
pub open spec fn parse_sync_req(req: Seq<char>) -> Option<(Seq<char>, Seq<Seq<char>>)> {
    let parts = splitn_on(req, 3, '|');
    if parts.len() < 3 {
        None
    } else {
        Some((parts[1], nonempty_of(split_on(parts[2], ','))))
    }
}

/// The commits of `branch` that the asker lacks, newest first: those after
/// the nearest commit the asker has, or all of them.
pub open spec fn missing_for(
    s: Seq<(Seq<char>, Seq<u8>)>,
    refs: Seq<(Seq<char>, Seq<char>)>,
    branch: Seq<char>,
    remote: Seq<Seq<char>>,
) -> Seq<Seq<char>> {
    let head = ref_lookup(refs, branch);
    let local = if head.len() == 0 {
        Seq::empty()
    } else {
        branch_commits(s, head)
    };
    let common = if head.len() == 0 {
        None
    } else {
        bfs_find(s, seq![head], Seq::empty(), remote)
    };
    match common {
        Some(base) => local.take(index_from(local, base, 0)),
        None => local,
    }
}

/// The hashes that collecting from each of `hs` in turn lists after `out`.
pub open spec fn collect_many(
    s: Seq<(Seq<char>, Seq<u8>)>,
    hs: Seq<Seq<char>>,
    out: Seq<Seq<char>>,
) -> Seq<Seq<char>>
    decreases hs.len(),
{
    if hs.len() == 0 {
        out
    } else {
        collect_many(s, hs.drop_first(), collect_run(s, seq![ObjTask::Visit(hs[0])], out))
    }
}

/// A list without runs of equal neighbours (`Vec::dedup`).
pub open spec fn dedup_of(v: Seq<Seq<char>>) -> Seq<Seq<char>>
    decreases v.len(),
{
    if v.len() <= 1 {
        v
    } else if v.last() == v[v.len() - 2] {
        dedup_of(v.drop_last())
    } else {
        dedup_of(v.drop_last()).push(v.last())
    }
}

/// The `hash:base64` entries for the stored objects among `hs`, in order.
pub open spec fn object_entries(s: Seq<(Seq<char>, Seq<u8>)>, hs: Seq<Seq<char>>) -> Seq<Seq<char>>
    decreases hs.len(),
{
    if hs.len() == 0 {
        Seq::empty()
    } else {
        let rest = object_entries(s, hs.drop_last());
        match store_get(s, hs.last()) {
            Some(raw) => rest.push(hs.last() + ":"@ + base64_encoded(raw)),
            None => rest,
        }
    }
}

/// What a peer does with a request.
pub enum RequestOutcome {
    /// It answers with this text.
    Respond(String),
    /// It does not answer.
    NoResponse,
    /// It stops serving.
    Stop,
}

/// What answering a request gives, by view.
pub enum RequestAnswer {
    Respond(Seq<char>),
    NoResponse,
    Stop,
}

/// The view of a request outcome.
pub open spec fn outcome_view(o: RequestOutcome) -> RequestAnswer {
    match o {
        RequestOutcome::Respond(t) => RequestAnswer::Respond(t@),
        RequestOutcome::NoResponse => RequestAnswer::NoResponse,
        RequestOutcome::Stop => RequestAnswer::Stop,
    }
}

/// How a peer answers a request, given the peers it knows, its listed
/// branches (`refs`), the head of every branch file, nested names included
/// (`heads`), and its objects. `GET_PEERS` gets the known peers, `GET_REFS`
/// each listed branch and head on a line; `SYNC_REQ|branch|commits` gets the
/// commits of the branch (its head looked up in `heads`) that the asker lacks, and stops the peer where a field is missing;
/// `GET_OBJS|branch|hashes` gets every stored object those commits reach, in
/// base64. Anything else goes unanswered.
pub open spec fn answer_of(
    req: Seq<char>,
    peers: Seq<Seq<char>>,
    refs: Seq<(Seq<char>, Seq<char>)>,
    heads: Seq<(Seq<char>, Seq<char>)>,
    s: Seq<(Seq<char>, Seq<u8>)>,
) -> RequestAnswer {
    if req == "GET_PEERS"@ {
        RequestAnswer::Respond("PEERS|"@ + join_with(peers, ","@))
    } else if req == "GET_REFS"@ {
        RequestAnswer::Respond(refs_answer_text(refs))
    } else if starts_with(req, "SYNC_REQ|"@) {
        match parse_sync_req(req) {
            None => RequestAnswer::Stop,
            Some((branch, remote)) => RequestAnswer::Respond(
                sync_res_text(branch, missing_for(s, heads, branch, remote)),
            ),
        }
    } else if starts_with(req, "GET_OBJS|"@) {
        let parts = splitn_on(req, 3, '|');
        if parts.len() < 3 {
            RequestAnswer::NoResponse
        } else {
            let hashes = objs_hashes(s, split_on(parts[2], ','));
            RequestAnswer::Respond(objs_answer_text(parts[1], object_entries(s, hashes)))
        }
    } else {
        RequestAnswer::NoResponse
    }
}

/// The head of `branch` among (branch, head) pairs; empty where it is not listed.
pub fn read_ref(refs: &Vec<(String, String)>, branch: &String) -> (res: String)
    ensures
        res@ == ref_lookup(refs_view(refs@), branch@),
{
    let ghost rv = refs_view(refs@);
    let mut i: usize = 0;
    assert(rv.skip(0) =~= rv);
    while i < refs.len()
        invariant
            i <= refs.len(),
            rv == refs_view(refs@),
            ref_lookup(rv, branch@) == ref_lookup(rv.skip(i as int), branch@),
        decreases refs.len() - i,
    {
        proof {
            assert(rv.skip(i as int)[0] == rv[i as int]);
            assert(rv.skip(i as int).drop_first() =~= rv.skip(i + 1));
        }
        if refs[i].0 == *branch {
            return refs[i].1.clone();
        }
        i = i + 1;
    }
    String::new()
}

fn nonempty_strings(v: Vec<String>) -> (res: Vec<String>)
    ensures
        lines_view(res@) == nonempty_of(lines_view(v@)),
{
    let mut out: Vec<String> = Vec::new();
    let mut i: usize = 0;
    while i < v.len()
        invariant
            i <= v.len(),
            lines_view(out@) == nonempty_of(lines_view(v@).take(i as int)),
        decreases v.len() - i,
    {
        let ghost t = lines_view(v@).take(i + 1);
        assert(t.drop_last() =~= lines_view(v@).take(i as int));
        if v[i].as_str().unicode_len() > 0 {
            let ghost before = lines_view(out@);
            out.push(v[i].clone());
            assert(lines_view(out@) =~= before.push(t.last()));
        }
        i = i + 1;
    }
    assert(lines_view(v@).take(v.len() as int) =~= lines_view(v@));
    out
}

fn dedup_strings(v: Vec<String>) -> (res: Vec<String>)
    ensures
        lines_view(res@) == dedup_of(lines_view(v@)),
{
    let mut out: Vec<String> = Vec::new();
    let mut i: usize = 0;
    while i < v.len()
        invariant
            i <= v.len(),
            lines_view(out@) == dedup_of(lines_view(v@).take(i as int)),
        decreases v.len() - i,
    {
        let ghost t = lines_view(v@).take(i + 1);
        assert(t.drop_last() =~= lines_view(v@).take(i as int));
        if i == 0 || v[i] != v[i - 1] {
            let ghost before = lines_view(out@);
            out.push(v[i].clone());
            assert(lines_view(out@) =~= before.push(t.last()));
            if i == 0 {
                assert(lines_view(out@) =~= t);
            }
        }
        i = i + 1;
    }
    assert(lines_view(v@).take(v.len() as int) =~= lines_view(v@));
    out
}

/// Answers a request from the peers this peer knows, its listed (branch,
/// head) pairs, the (branch file, head) pairs of every branch file, nested
/// names included, and its stored objects.
pub fn handle_request(
    req: &str,
    peers: &Vec<String>,
    refs: &Vec<(String, String)>,
    heads: &Vec<(String, String)>,
    store: &ObjectStore,
) -> (res: RequestOutcome)
    ensures
        outcome_view(res) == answer_of(req@, lines_view(peers@), refs_view(refs@), refs_view(heads@), store@),
{
    let req_s = req.to_string();
    if req_s == "GET_PEERS".to_string() {
        let mut out = "PEERS|".to_string();
        let list = join_strings(peers, ",");
        push_str(&mut out, list.as_str());
        return RequestOutcome::Respond(out);
    }
    if req_s == "GET_REFS".to_string() {
        let mut lines: Vec<String> = Vec::new();
        let mut i: usize = 0;
        while i < refs.len()
            invariant
                i <= refs.len(),
                lines_view(lines@) == ref_lines(refs_view(refs@).take(i as int)),
            decreases refs.len() - i,
        {
            let mut line = refs[i].0.clone();
            push_str(&mut line, " ");
            push_str(&mut line, refs[i].1.as_str());
            let ghost before = lines_view(lines@);
            let ghost rv = refs_view(refs@);
            assert(rv[i as int] == (refs@[i as int].0@, refs@[i as int].1@));
            assert(line@ == rv[i as int].0 + " "@ + rv[i as int].1);
            lines.push(line);
            assert(lines_view(lines@) =~= before.push(rv[i as int].0 + " "@ + rv[i as int].1));
            assert(ref_lines(rv.take(i + 1)) =~= ref_lines(rv.take(i as int)).push(
                rv[i as int].0 + " "@ + rv[i as int].1,
            ));
            i = i + 1;
        }
        assert(refs_view(refs@).take(refs.len() as int) =~= refs_view(refs@));
        let mut out = "REFS|".to_string();
        let list = join_strings(&lines, "\n");
        push_str(&mut out, list.as_str());
        return RequestOutcome::Respond(out);
    }
    if str_starts_with(req, "SYNC_REQ|") {
        let parts = splitn_str(req, 3, '|');
        if parts.len() < 3 {
            return RequestOutcome::Stop;
        }
        let branch = parts[1].clone();
        let remote = nonempty_strings(split_str(parts[2].as_str(), ','));
        let head = read_ref(heads, &branch);
        let local = get_all_commits_of_branch(store, &head);
        let missing = if head.as_str().unicode_len() == 0 {
            local
        } else {
            match find_lca(store, &head, &remote) {
                Some(base) => get_missing_commits(&local, &base),
                None => local,
            }
        };
        let mut out = "SYNC_RES|".to_string();
        push_str(&mut out, branch.as_str());
        push_str(&mut out, "|");
        let list = join_strings(&missing, ",");
        push_str(&mut out, list.as_str());
        proof {
            if head@.len() == 0 {
                assert(lines_view(local@) =~= Seq::<Seq<char>>::empty());
            }
        }
        return RequestOutcome::Respond(out);
    }
    if str_starts_with(req, "GET_OBJS|") {
        let parts = splitn_str(req, 3, '|');
        if parts.len() < 3 {
            return RequestOutcome::NoResponse;
        }
        let requested = split_str(parts[2].as_str(), ',');
        let ghost rq = lines_view(requested@);
        let mut all: Vec<String> = Vec::new();
        let mut i: usize = 0;
        assert(rq.skip(0) =~= rq);
        assert(lines_view(all@) =~= Seq::<Seq<char>>::empty());
        while i < requested.len()
            invariant
                i <= requested.len(),
                rq == lines_view(requested@),
                collect_many(store@, rq, Seq::empty()) == collect_many(store@, rq.skip(i as int), lines_view(all@)),
            decreases requested.len() - i,
        {
            proof {
                assert(rq.skip(i as int)[0] == rq[i as int]);
                assert(rq.skip(i as int).drop_first() =~= rq.skip(i + 1));
            }
            collect_all_objects(store, &requested[i], &mut all);
            i = i + 1;
        }
        let hashes = dedup_strings(all);
        let ghost hv = lines_view(hashes@);
        let mut entries: Vec<String> = Vec::new();
        let mut k: usize = 0;
        while k < hashes.len()
            invariant
                k <= hashes.len(),
                hv == lines_view(hashes@),
                lines_view(entries@) == object_entries(store@, hv.take(k as int)),
            decreases hashes.len() - k,
        {
            let ghost t = hv.take(k + 1);
            assert(t.drop_last() =~= hv.take(k as int));
            match store.get(&hashes[k]) {
                Some(data) => {
                    let mut e = hashes[k].clone();
                    push_str(&mut e, ":");
                    let b = base64_encode(data.as_slice());
                    push_str(&mut e, b.as_str());
                    let ghost before = lines_view(entries@);
                    entries.push(e);
                    assert(lines_view(entries@) =~= before.push(t.last() + ":"@ + base64_encoded(data@)));
                },
                None => {},
            }
            k = k + 1;
        }
        assert(hv.take(hashes.len() as int) =~= hv);
        let mut out = "OBJS|".to_string();
        push_str(&mut out, parts[1].as_str());
        push_str(&mut out, "|");
        let list = join_strings(&entries, ",");
        push_str(&mut out, list.as_str());
        return RequestOutcome::Respond(out);
    }
    RequestOutcome::NoResponse
}

} // verus!
