//! Walks over the commit graph that the stored objects form.
use vstd::prelude::*;
use crate::diff3::lines_view;
use crate::store::{count_unvisited, lemma_count_push, store_get, stored_text, ObjectStore};
use crate::text::{chars_of, chars_start_with, lines_of, starts_with, text_lines, trim, trim_range};

verus! {

/// The parents that the lines of a commit name: each `parent ` line before
/// the first empty line, trimmed.
pub open spec fn parents_from_lines(ls: Seq<Seq<char>>) -> Seq<Seq<char>>
    decreases ls.len(),
{
    if ls.len() == 0 || ls[0].len() == 0 {
        Seq::empty()
    } else if starts_with(ls[0], "parent "@) {
        seq![trim(ls[0].subrange("parent "@.len() as int, ls[0].len() as int))] + parents_from_lines(ls.drop_first())
    } else {
        parents_from_lines(ls.drop_first())
    }
}

/// The parents of the commit stored under `h`; none where it is not stored
/// or not text.
pub open spec fn parents_in(s: Seq<(Seq<char>, Seq<u8>)>, h: Seq<char>) -> Seq<Seq<char>> {
    match stored_text(s, h) {
        None => Seq::empty(),
        Some(t) => parents_from_lines(text_lines(t)),
    }
}

/// Whether `x` is among the strings `v`.
pub fn contains_string(v: &Vec<String>, x: &String) -> (res: bool)
    ensures
        res == lines_view(v@).contains(x@),
{
    let mut i: usize = 0;
    while i < v.len()
        invariant
            i <= v.len(),
            forall|q: int| 0 <= q < i ==> v@[q]@ != x@,
        decreases v.len() - i,
    {
        if v[i] == *x {
            assert(lines_view(v@)[i as int] == x@);
            return true;
        }
        i = i + 1;
    }
    assert(!lines_view(v@).contains(x@)) by {
        if lines_view(v@).contains(x@) {
            let j = choose|j: int| 0 <= j < lines_view(v@).len() && lines_view(v@)[j] == x@;
            assert(v@[j]@ == x@);
        }
    }
    false
}

/// The parents of the commit stored under `hash`, in the order its lines
/// name them; none where it is not stored or not text.
pub fn get_all_parent_hashes(store: &ObjectStore, hash: &String) -> (res: Vec<String>)
    ensures
        lines_view(res@) == parents_in(store@, hash@),
{
    let text = match store.object_text(hash) {
        Some(t) => t,
        None => {
            return Vec::new();
        },
    };
    let lines = lines_of(text.as_str());
    let ghost ls = lines_view(lines@);
    let prefix_len = chars_of("parent ").len();
    let mut parents: Vec<String> = Vec::new();
    let mut i: usize = 0;
    assert(ls.skip(0) =~= ls);
    assert(lines_view(parents@) + parents_from_lines(ls) =~= parents_from_lines(ls));
    while i < lines.len()
        invariant
            i <= lines.len(),
            ls == lines_view(lines@),
            prefix_len == "parent "@.len(),
            parents_in(store@, hash@) == parents_from_lines(ls),
            parents_from_lines(ls) == lines_view(parents@) + parents_from_lines(ls.skip(i as int)),
        decreases lines.len() - i,
    {
        proof {
            assert(ls.skip(i as int)[0] == ls[i as int]);
            assert(ls.skip(i as int).drop_first() =~= ls.skip(i + 1));
        }
        let cs = chars_of(lines[i].as_str());
        if cs.len() == 0 {
            assert(ls[i as int] == cs@);
            assert(ls.skip(i as int)[0].len() == 0);
            assert(parents_from_lines(ls.skip(i as int)) =~= Seq::<Seq<char>>::empty());
            assert(lines_view(parents@) + Seq::<Seq<char>>::empty() =~= lines_view(parents@));
            return parents;
        }
        proof {
            assert(cs@.subrange(0, cs@.len() as int) =~= cs@);
        }
        if chars_start_with(cs.as_slice(), 0, "parent ") {
            let ghost before = parents@;
            parents.push(trim_range(cs.as_slice(), prefix_len, cs.len()));
            assert(lines_view(parents@) =~= lines_view(before) + seq![trim(ls[i as int].subrange("parent "@.len() as int, ls[i as int].len() as int))]);
        }
        i = i + 1;
    }
    assert(ls.skip(i as int) =~= Seq::<Seq<char>>::empty());
    assert(lines_view(parents@) + Seq::<Seq<char>>::empty() =~= lines_view(parents@));
    parents
}

/// The first hash of `targets` that a breadth-first walk from `queue` over
/// parent links meets, skipping hashes already in `visited`.
pub open spec fn bfs_find(
    s: Seq<(Seq<char>, Seq<u8>)>,
    queue: Seq<Seq<char>>,
    visited: Seq<Seq<char>>,
    targets: Seq<Seq<char>>,
) -> Option<Seq<char>>
    decreases count_unvisited(s, visited), queue.len(),
{
    if queue.len() == 0 {
        None
    } else {
        let h = queue[0];
        if visited.contains(h) {
            bfs_find(s, queue.drop_first(), visited, targets)
        } else if targets.contains(h) {
            Some(h)
        } else {
            proof {
                lemma_count_push(s, visited, h);
                lemma_parents_absent(s, h);
            }
            bfs_find(s, queue.drop_first() + parents_in(s, h), visited.push(h), targets)
        }
    }
}

/// An object that is not stored has no parents.
pub proof fn lemma_parents_absent(s: Seq<(Seq<char>, Seq<u8>)>, h: Seq<char>)
    ensures
        store_get(s, h) is None ==> parents_in(s, h) == Seq::<Seq<char>>::empty(),
{
}

/// The nearest ancestor of `local_head` (itself included) that is among
/// `remote_commits`, found breadth-first over the stored commits.
pub fn find_lca(store: &ObjectStore, local_head: &String, remote_commits: &Vec<String>) -> (res: Option<String>)
    ensures
        match res {
            Some(h) => bfs_find(store@, seq![local_head@], Seq::empty(), lines_view(remote_commits@)) == Some(h@),
            None => bfs_find(store@, seq![local_head@], Seq::empty(), lines_view(remote_commits@)) is None,
        },
{
    let ghost targets = lines_view(remote_commits@);
    let mut queue: Vec<String> = Vec::new();
    queue.push(local_head.clone());
    let mut qi: usize = 0;
    let mut visited: Vec<String> = Vec::new();
    assert(lines_view(queue@).skip(0) =~= seq![local_head@]);
    assert(lines_view(visited@) =~= Seq::<Seq<char>>::empty());
    while qi < queue.len()
        invariant
            qi <= queue.len(),
            targets == lines_view(remote_commits@),
            bfs_find(store@, seq![local_head@], Seq::empty(), targets) == bfs_find(
                store@,
                lines_view(queue@).skip(qi as int),
                lines_view(visited@),
                targets,
            ),
        decreases count_unvisited(store@, lines_view(visited@)), queue.len() - qi,
    {
        let ghost q = lines_view(queue@).skip(qi as int);
        proof {
            assert(q[0] == queue@[qi as int]@);
            assert(q.drop_first() =~= lines_view(queue@).skip(qi + 1));
        }
        let hash = queue[qi].clone();
        qi = qi + 1;
        if contains_string(&visited, &hash) {
            continue ;
        }
        if contains_string(remote_commits, &hash) {
            return Some(hash);
        }
        let parents = get_all_parent_hashes(store, &hash);
        proof {
            lemma_count_push(store@, lines_view(visited@), hash@);
            lemma_parents_absent(store@, hash@);
        }
        let ghost vbefore = visited@;
        let ghost qbefore = queue@;
        visited.push(hash);
        let mut k: usize = 0;
        while k < parents.len()
            invariant
                k <= parents.len(),
                qi <= qbefore.len(),
                queue@ == qbefore + parents@.subrange(0, k as int),
            decreases parents.len() - k,
        {
            queue.push(parents[k].clone());
            k = k + 1;
            assert(queue@ =~= qbefore + parents@.subrange(0, k as int));
        }
        proof {
            assert(parents@.subrange(0, parents.len() as int) =~= parents@);
            assert(lines_view(visited@) =~= lines_view(vbefore).push(hash@));
            assert(lines_view(queue@).skip(qi as int) =~= lines_view(qbefore).skip(qi as int) + lines_view(parents@));
        }
    }
    assert(lines_view(queue@).skip(qi as int) =~= Seq::<Seq<char>>::empty());
    None
}


/// Whether every commit of `r` that has `p` as a parent is among `v`.
pub open spec fn children_done(
    s: Seq<(Seq<char>, Seq<u8>)>,
    r: Seq<Seq<char>>,
    p: Seq<char>,
    v: Seq<Seq<char>>,
) -> bool {
    forall|k: int| 0 <= k < r.len() && #[trigger] parents_in(s, r[k]).contains(p) ==> v.contains(r[k])
}

/// Whether `p` is a commit of `r` whose children in `r` are all among `v`.
pub open spec fn ready(s: Seq<(Seq<char>, Seq<u8>)>, r: Seq<Seq<char>>, p: Seq<char>, v: Seq<Seq<char>>) -> bool {
    r.contains(p) && children_done(s, r, p, v)
}

/// The commits of `ps` that are ready once `v` are listed, in order.
pub open spec fn ready_of(
    s: Seq<(Seq<char>, Seq<u8>)>,
    r: Seq<Seq<char>>,
    ps: Seq<Seq<char>>,
    v: Seq<Seq<char>>,
) -> Seq<Seq<char>>
    decreases ps.len(),
{
    if ps.len() == 0 {
        Seq::empty()
    } else {
        let rest = ready_of(s, r, ps.drop_last(), v);
        if ready(s, r, ps.last(), v) {
            rest.push(ps.last())
        } else {
            rest
        }
    }
}

/// Picking from commits never gives more of them.
pub proof fn lemma_ready_len(s: Seq<(Seq<char>, Seq<u8>)>, r: Seq<Seq<char>>, ps: Seq<Seq<char>>, v: Seq<Seq<char>>)
    ensures
        ready_of(s, r, ps, v).len() <= ps.len(),
        forall|i: int| 0 <= i < ready_of(s, r, ps, v).len() ==> ready(s, r, #[trigger] ready_of(s, r, ps, v)[i], v),
    decreases ps.len(),
{
    if ps.len() > 0 {
        lemma_ready_len(s, r, ps.drop_last(), v);
    }
}

/// The commits that a breadth-first walk over parent links within `r` lists
/// after `visited`, newest first: it takes the first commit of `queue`,
/// skips it if listed, and otherwise lists it and queues those of its
/// parents whose children in `r` are all listed by then.
pub open spec fn newest_first_walk(
    s: Seq<(Seq<char>, Seq<u8>)>,
    r: Seq<Seq<char>>,
    queue: Seq<Seq<char>>,
    visited: Seq<Seq<char>>,
) -> Seq<Seq<char>>
    decreases count_unvisited(s, visited), queue.len(),
{
    if queue.len() == 0 {
        visited
    } else {
        let h = queue[0];
        if visited.contains(h) {
            newest_first_walk(s, r, queue.drop_first(), visited)
        } else {
            proof {
                lemma_count_push(s, visited, h);
                lemma_parents_absent(s, h);
                lemma_ready_len(s, r, parents_in(s, h), visited.push(h));
            }
            newest_first_walk(
                s,
                r,
                queue.drop_first() + ready_of(s, r, parents_in(s, h), visited.push(h)),
                visited.push(h),
            )
        }
    }
}

/// The commits of a branch whose head is `head`, newest first: the walk over
/// the head's ancestors that lists a commit only once all of its children
/// among them are listed, breadth first.
pub open spec fn branch_commits(s: Seq<(Seq<char>, Seq<u8>)>, head: Seq<char>) -> Seq<Seq<char>> {
    let r = bfs_visit(s, seq![head], Seq::empty());
    newest_first_walk(s, r, ready_of(s, r, seq![head], Seq::empty()), Seq::empty())
}

/// The hashes that a breadth-first walk over parent links from `queue`
/// visits, in the order it visits them, after those in `visited`.
pub open spec fn bfs_visit(
    s: Seq<(Seq<char>, Seq<u8>)>,
    queue: Seq<Seq<char>>,
    visited: Seq<Seq<char>>,
) -> Seq<Seq<char>>
    decreases count_unvisited(s, visited), queue.len(),
{
    if queue.len() == 0 {
        visited
    } else {
        let h = queue[0];
        if visited.contains(h) {
            bfs_visit(s, queue.drop_first(), visited)
        } else {
            proof {
                lemma_count_push(s, visited, h);
                lemma_parents_absent(s, h);
            }
            bfs_visit(s, queue.drop_first() + parents_in(s, h), visited.push(h))
        }
    }
}

/// Whether `p` is a commit of `r` whose children in `r` are all among `v`.
fn is_ready(store: &ObjectStore, r: &Vec<String>, p: &String, v: &Vec<String>) -> (res: bool)
    ensures
        res == ready(store@, lines_view(r@), p@, lines_view(v@)),
{
    if !contains_string(r, p) {
        return false;
    }
    let ghost rv = lines_view(r@);
    let ghost vv = lines_view(v@);
    let mut k: usize = 0;
    while k < r.len()
        invariant
            k <= r.len(),
            rv == lines_view(r@),
            vv == lines_view(v@),
            forall|q: int| 0 <= q < k && #[trigger] parents_in(store@, rv[q]).contains(p@) ==> vv.contains(rv[q]),
        decreases r.len() - k,
    {
        let ps = get_all_parent_hashes(store, &r[k]);
        assert(rv[k as int] == r@[k as int]@);
        if contains_string(&ps, p) && !contains_string(v, &r[k]) {
            return false;
        }
        k = k + 1;
    }
    true
}

/// The commits of `ps` that are ready once `v` are listed, in order.
fn ready_parents(store: &ObjectStore, r: &Vec<String>, ps: &Vec<String>, v: &Vec<String>) -> (res: Vec<String>)
    ensures
        lines_view(res@) == ready_of(store@, lines_view(r@), lines_view(ps@), lines_view(v@)),
{
    let ghost pv = lines_view(ps@);
    let mut out: Vec<String> = Vec::new();
    let mut i: usize = 0;
    assert(lines_view(out@) =~= ready_of(store@, lines_view(r@), pv.take(0), lines_view(v@)));
    while i < ps.len()
        invariant
            i <= ps.len(),
            pv == lines_view(ps@),
            lines_view(out@) == ready_of(store@, lines_view(r@), pv.take(i as int), lines_view(v@)),
        decreases ps.len() - i,
    {
        let ghost t = pv.take(i + 1);
        assert(t.drop_last() =~= pv.take(i as int));
        assert(t.last() == ps@[i as int]@);
        if is_ready(store, r, &ps[i], v) {
            let ghost before = lines_view(out@);
            out.push(ps[i].clone());
            assert(lines_view(out@) =~= before.push(t.last()));
        }
        i = i + 1;
    }
    assert(pv.take(ps.len() as int) =~= pv);
    out
}

/// All commits of a branch whose head is `head` (empty where the branch has
/// no head), newest first: each is listed once all of its children among
/// the head's ancestors are, breadth first from the head.
pub fn get_all_commits_of_branch(store: &ObjectStore, head: &String) -> (res: Vec<String>)
    ensures
        head@.len() == 0 ==> res@.len() == 0,
        head@.len() > 0 ==> lines_view(res@) == branch_commits(store@, head@),
{
    if head.as_str().unicode_len() == 0 {
        return Vec::new();
    }
    let r = collect_ancestors(store, head);
    let ghost rv = lines_view(r@);
    let mut visited: Vec<String> = Vec::new();
    let mut start: Vec<String> = Vec::new();
    start.push(head.clone());
    assert(lines_view(start@) =~= seq![head@]);
    assert(lines_view(visited@) =~= Seq::<Seq<char>>::empty());
    let mut queue = ready_parents(store, &r, &start, &visited);
    let mut qi: usize = 0;
    assert(lines_view(queue@).skip(0) =~= lines_view(queue@));
    while qi < queue.len()
        invariant
            qi <= queue.len(),
            rv == lines_view(r@),
            rv == bfs_visit(store@, seq![head@], Seq::empty()),
            branch_commits(store@, head@) == newest_first_walk(
                store@,
                rv,
                lines_view(queue@).skip(qi as int),
                lines_view(visited@),
            ),
        decreases count_unvisited(store@, lines_view(visited@)), queue.len() - qi,
    {
        let ghost q = lines_view(queue@).skip(qi as int);
        proof {
            assert(q[0] == queue@[qi as int]@);
            assert(q.drop_first() =~= lines_view(queue@).skip(qi + 1));
        }
        let hash = queue[qi].clone();
        qi = qi + 1;
        if contains_string(&visited, &hash) {
            continue ;
        }
        let parents = get_all_parent_hashes(store, &hash);
        proof {
            lemma_count_push(store@, lines_view(visited@), hash@);
            lemma_parents_absent(store@, hash@);
            lemma_ready_len(store@, rv, lines_view(parents@), lines_view(visited@).push(hash@));
        }
        let ghost vbefore = visited@;
        let ghost qbefore = queue@;
        visited.push(hash);
        assert(lines_view(visited@) =~= lines_view(vbefore).push(hash@));
        let more = ready_parents(store, &r, &parents, &visited);
        let mut k: usize = 0;
        while k < more.len()
            invariant
                k <= more.len(),
                qi <= qbefore.len(),
                queue@ == qbefore + more@.subrange(0, k as int),
            decreases more.len() - k,
        {
            queue.push(more[k].clone());
            k = k + 1;
            assert(queue@ =~= qbefore + more@.subrange(0, k as int));
        }
        proof {
            assert(more@.subrange(0, more.len() as int) =~= more@);
            assert(lines_view(queue@).skip(qi as int) =~= lines_view(qbefore).skip(qi as int) + lines_view(more@));
        }
    }
    assert(lines_view(queue@).skip(qi as int) =~= Seq::<Seq<char>>::empty());
    visited
}

/// All hashes that a breadth-first walk from `start` over parent links
/// visits: `start` and its stored ancestors.
pub fn collect_ancestors(store: &ObjectStore, start: &String) -> (res: Vec<String>)
    ensures
        lines_view(res@) == bfs_visit(store@, seq![start@], Seq::empty()),
{
    let mut queue: Vec<String> = Vec::new();
    queue.push(start.clone());
    let mut qi: usize = 0;
    let mut visited: Vec<String> = Vec::new();
    assert(lines_view(queue@).skip(0) =~= seq![start@]);
    assert(lines_view(visited@) =~= Seq::<Seq<char>>::empty());
    while qi < queue.len()
        invariant
            qi <= queue.len(),
            bfs_visit(store@, seq![start@], Seq::empty()) == bfs_visit(
                store@,
                lines_view(queue@).skip(qi as int),
                lines_view(visited@),
            ),
        decreases count_unvisited(store@, lines_view(visited@)), queue.len() - qi,
    {
        let ghost q = lines_view(queue@).skip(qi as int);
        proof {
            assert(q[0] == queue@[qi as int]@);
            assert(q.drop_first() =~= lines_view(queue@).skip(qi + 1));
        }
        let hash = queue[qi].clone();
        qi = qi + 1;
        if contains_string(&visited, &hash) {
            continue ;
        }
        let parents = get_all_parent_hashes(store, &hash);
        proof {
            lemma_count_push(store@, lines_view(visited@), hash@);
            lemma_parents_absent(store@, hash@);
        }
        let ghost vbefore = visited@;
        let ghost qbefore = queue@;
        visited.push(hash);
        let mut k: usize = 0;
        while k < parents.len()
            invariant
                k <= parents.len(),
                qi <= qbefore.len(),
                queue@ == qbefore + parents@.subrange(0, k as int),
            decreases parents.len() - k,
        {
            queue.push(parents[k].clone());
            k = k + 1;
            assert(queue@ =~= qbefore + parents@.subrange(0, k as int));
        }
        proof {
            assert(parents@.subrange(0, parents.len() as int) =~= parents@);
            assert(lines_view(visited@) =~= lines_view(vbefore).push(hash@));
            assert(lines_view(queue@).skip(qi as int) =~= lines_view(qbefore).skip(qi as int) + lines_view(parents@));
        }
    }
    assert(lines_view(queue@).skip(qi as int) =~= Seq::<Seq<char>>::empty());
    visited
}

/// The commits of `local_commits` (newest first) before the first occurrence
/// of `lca`; all of them where `lca` does not occur.
pub fn get_missing_commits(local_commits: &Vec<String>, lca: &String) -> (res: Vec<String>)
    ensures
        lines_view(res@) == lines_view(local_commits@).take(
            crate::text::index_from(lines_view(local_commits@), lca@, 0),
        ),
{
    let ghost lv = lines_view(local_commits@);
    let mut result: Vec<String> = Vec::new();
    let mut i: usize = 0;
    while i < local_commits.len()
        invariant
            i <= local_commits.len(),
            lv == lines_view(local_commits@),
            crate::text::index_from(lv, lca@, 0) == crate::text::index_from(lv, lca@, i as int),
            lines_view(result@) == lv.take(i as int),
        decreases local_commits.len() - i,
    {
        if local_commits[i] == *lca {
            return result;
        }
        let ghost before = lines_view(result@);
        result.push(local_commits[i].clone());
        assert(lines_view(result@) =~= before.push(lv[i as int]));
        assert(lv.take(i as int).push(lv[i as int]) =~= lv.take(i + 1));
        i = i + 1;
        assert(lines_view(result@) =~= lv.take(i as int));
    }
    result
}

} // verus!

verus! {

/// A hash that is not listed yet can be added without a repeat.
pub proof fn lemma_push_distinct(out: Seq<Seq<char>>, h: Seq<char>)
    requires
        out.no_duplicates(),
        !out.contains(h),
    ensures
        out.push(h).no_duplicates(),
        out.push(h).subrange(0, out.len() as int) == out,
{
    let o2 = out.push(h);
    assert forall|a: int, b: int| 0 <= a < o2.len() && 0 <= b < o2.len() && a != b implies o2[a] != o2[b] by {
        if a < out.len() && b < out.len() {
        } else if a < out.len() {
            assert(o2[a] == out[a]);
        } else {
            assert(o2[b] == out[b]);
        }
    }
    assert(o2.subrange(0, out.len() as int) =~= out);
}

/// A walk over parent links, breadth first, keeps the hashes visited before
/// in front, visits no hash twice, and visits every hash in its queue.
pub proof fn lemma_bfs_once(s: Seq<(Seq<char>, Seq<u8>)>, queue: Seq<Seq<char>>, visited: Seq<Seq<char>>)
    requires
        visited.no_duplicates(),
    ensures
        bfs_visit(s, queue, visited).no_duplicates(),
        visited.len() <= bfs_visit(s, queue, visited).len(),
        bfs_visit(s, queue, visited).subrange(0, visited.len() as int) == visited,
        forall|k: int| 0 <= k < queue.len() ==> bfs_visit(s, queue, visited).contains(#[trigger] queue[k]),
    decreases count_unvisited(s, visited), queue.len(),
{
    if queue.len() == 0 {
        assert(visited.subrange(0, visited.len() as int) =~= visited);
    } else {
        let h = queue[0];
        let rest = queue.drop_first();
        lemma_count_push(s, visited, h);
        lemma_parents_absent(s, h);
        let r = bfs_visit(s, queue, visited);
        if visited.contains(h) {
            lemma_bfs_once(s, rest, visited);
            let j = choose|j: int| 0 <= j < visited.len() && visited[j] == h;
            assert(r.subrange(0, visited.len() as int)[j] == r[j]);
            assert forall|k: int| 0 <= k < queue.len() implies r.contains(#[trigger] queue[k]) by {
                if k > 0 {
                    assert(queue[k] == rest[k - 1]);
                }
            }
        } else {
            let v2 = visited.push(h);
            lemma_push_distinct(visited, h);
            let nq = rest + parents_in(s, h);
            lemma_bfs_once(s, nq, v2);
            assert(r == bfs_visit(s, nq, v2));
            assert(r.subrange(0, v2.len() as int)[visited.len() as int] == h);
            assert(r.subrange(0, visited.len() as int) =~= r.subrange(0, v2.len() as int).subrange(0, visited.len() as int));
            assert forall|k: int| 0 <= k < queue.len() implies r.contains(#[trigger] queue[k]) by {
                if k > 0 {
                    assert(nq[k - 1] == rest[k - 1]);
                    assert(queue[k] == rest[k - 1]);
                } else {
                    assert(r[visited.len() as int] == h);
                }
            }
        }
    }
}

/// Whether every parent of a commit of `r` is in `r` too.
pub open spec fn parent_closed(s: Seq<(Seq<char>, Seq<u8>)>, r: Seq<Seq<char>>) -> bool {
    forall|k: int, j: int|
        0 <= k < r.len() && 0 <= j < parents_in(s, r[k]).len() ==> r.contains(#[trigger] parents_in(s, r[k])[j])
}

/// A breadth-first walk lists every parent of what it lists, where every
/// parent of a hash listed before is listed or queued.
proof fn lemma_bfs_closed(s: Seq<(Seq<char>, Seq<u8>)>, queue: Seq<Seq<char>>, visited: Seq<Seq<char>>)
    requires
        visited.no_duplicates(),
        forall|k: int, j: int|
            0 <= k < visited.len() && 0 <= j < parents_in(s, visited[k]).len() ==> visited.contains(
                #[trigger] parents_in(s, visited[k])[j],
            ) || queue.contains(parents_in(s, visited[k])[j]),
    ensures
        parent_closed(s, bfs_visit(s, queue, visited)),
    decreases count_unvisited(s, visited), queue.len(),
{
    if queue.len() == 0 {
    } else {
        let h = queue[0];
        let rest = queue.drop_first();
        lemma_count_push(s, visited, h);
        lemma_parents_absent(s, h);
        if visited.contains(h) {
            assert forall|k: int, j: int|
                0 <= k < visited.len() && 0 <= j < parents_in(s, visited[k]).len() implies visited.contains(
                #[trigger] parents_in(s, visited[k])[j],
            ) || rest.contains(parents_in(s, visited[k])[j]) by {
                let p = parents_in(s, visited[k])[j];
                if !visited.contains(p) {
                    let x = choose|x: int| 0 <= x < queue.len() && queue[x] == p;
                    if x > 0 {
                        assert(rest[x - 1] == p);
                    }
                }
            }
            lemma_bfs_closed(s, rest, visited);
        } else {
            let v2 = visited.push(h);
            let ps = parents_in(s, h);
            let q2 = rest + ps;
            lemma_push_distinct(visited, h);
            assert forall|k: int, j: int|
                0 <= k < v2.len() && 0 <= j < parents_in(s, v2[k]).len() implies v2.contains(
                #[trigger] parents_in(s, v2[k])[j],
            ) || q2.contains(parents_in(s, v2[k])[j]) by {
                let p = parents_in(s, v2[k])[j];
                if k == visited.len() {
                    assert(v2[k] == h);
                    assert(q2[rest.len() + j] == p);
                } else {
                    assert(v2[k] == visited[k]);
                    if visited.contains(p) {
                        let x = choose|x: int| 0 <= x < visited.len() && visited[x] == p;
                        assert(v2[x] == p);
                    } else {
                        let x = choose|x: int| 0 <= x < queue.len() && queue[x] == p;
                        if x == 0 {
                            assert(v2[visited.len() as int] == p);
                        } else {
                            assert(q2[x - 1] == p);
                        }
                    }
                }
            }
            assert(bfs_visit(s, queue, visited) == bfs_visit(s, q2, v2));
            lemma_bfs_closed(s, q2, v2);
        }
    }
}

/// Whether each commit of `w` is in `r` and has all of its children in `r`
/// listed before it.
pub open spec fn children_first(s: Seq<(Seq<char>, Seq<u8>)>, r: Seq<Seq<char>>, w: Seq<Seq<char>>) -> bool {
    forall|k: int| 0 <= k < w.len() ==> r.contains(#[trigger] w[k]) && children_done(s, r, w[k], w.take(k))
}

/// The newest-first walk lists each commit once, and each after all of its
/// children among `r`.
proof fn lemma_walk_children_first(
    s: Seq<(Seq<char>, Seq<u8>)>,
    r: Seq<Seq<char>>,
    queue: Seq<Seq<char>>,
    visited: Seq<Seq<char>>,
)
    requires
        visited.no_duplicates(),
        children_first(s, r, visited),
        forall|i: int| 0 <= i < queue.len() ==> ready(s, r, #[trigger] queue[i], visited),
    ensures
        newest_first_walk(s, r, queue, visited).no_duplicates(),
        children_first(s, r, newest_first_walk(s, r, queue, visited)),
    decreases count_unvisited(s, visited), queue.len(),
{
    if queue.len() > 0 {
        let h = queue[0];
        let rest = queue.drop_first();
        lemma_count_push(s, visited, h);
        lemma_parents_absent(s, h);
        if visited.contains(h) {
            assert forall|i: int| 0 <= i < rest.len() implies ready(s, r, #[trigger] rest[i], visited) by {
                assert(rest[i] == queue[i + 1]);
            }
            lemma_walk_children_first(s, r, rest, visited);
        } else {
            let v2 = visited.push(h);
            lemma_push_distinct(visited, h);
            let more = ready_of(s, r, parents_in(s, h), v2);
            lemma_ready_len(s, r, parents_in(s, h), v2);
            let q2 = rest + more;
            assert(ready(s, r, queue[0], visited));
            assert forall|k: int| 0 <= k < v2.len() implies r.contains(#[trigger] v2[k]) && children_done(
                s,
                r,
                v2[k],
                v2.take(k),
            ) by {
                if k < visited.len() {
                    assert(v2[k] == visited[k]);
                    assert(v2.take(k) =~= visited.take(k));
                } else {
                    assert(v2.take(k) =~= visited);
                }
            }
            assert forall|i: int| 0 <= i < q2.len() implies ready(s, r, #[trigger] q2[i], v2) by {
                if i < rest.len() {
                    assert(q2[i] == queue[i + 1]);
                    let x = q2[i];
                    assert(ready(s, r, queue[i + 1], visited));
                    assert forall|k: int| 0 <= k < r.len() && #[trigger] parents_in(s, r[k]).contains(x) implies v2.contains(r[k]) by {
                        let y = choose|y: int| 0 <= y < visited.len() && visited[y] == r[k];
                        assert(v2[y] == r[k]);
                    }
                } else {
                    assert(q2[i] == more[i - rest.len()]);
                }
            }
            lemma_walk_children_first(s, r, q2, v2);
        }
    }
}

/// Whether `ch` is a walk over parent links: each hash is followed by one of
/// its parents.
pub open spec fn is_chain(s: Seq<(Seq<char>, Seq<u8>)>, ch: Seq<Seq<char>>) -> bool {
    ch.len() > 0 && forall|k: int| 0 <= k < ch.len() - 1 ==> #[trigger] parents_in(s, ch[k]).contains(ch[k + 1])
}

/// Whether `c` is `d` or an ancestor of `d`.
pub open spec fn reaches(s: Seq<(Seq<char>, Seq<u8>)>, d: Seq<char>, c: Seq<char>) -> bool {
    exists|ch: Seq<Seq<char>>| is_chain(s, ch) && ch[0] == d && ch.last() == c
}

/// A walk over parent links from a hash of a parent-closed list stays in it.
proof fn lemma_chain_in(s: Seq<(Seq<char>, Seq<u8>)>, r: Seq<Seq<char>>, ch: Seq<Seq<char>>, m: int)
    requires
        parent_closed(s, r),
        is_chain(s, ch),
        r.contains(ch[0]),
        0 <= m < ch.len(),
    ensures
        r.contains(ch[m]),
    decreases m,
{
    if m > 0 {
        lemma_chain_in(s, r, ch, m - 1);
        let k = choose|k: int| 0 <= k < r.len() && r[k] == ch[m - 1];
        let km = m - 1;
        assert(parents_in(s, ch[km]).contains(ch[km + 1]));
        assert(km + 1 == m);
        let j = choose|j: int| 0 <= j < parents_in(s, r[k]).len() && parents_in(s, r[k])[j] == ch[m];
        assert(r.contains(parents_in(s, r[k])[j]));
    }
}

/// In a list where children come first, the hashes of a walk over parent
/// links that ends at `w[i]` are listed before it, one place further for
/// each step back.
proof fn lemma_chain_back(
    s: Seq<(Seq<char>, Seq<u8>)>,
    r: Seq<Seq<char>>,
    w: Seq<Seq<char>>,
    ch: Seq<Seq<char>>,
    n: int,
    i: int,
)
    requires
        children_first(s, r, w),
        is_chain(s, ch),
        forall|m: int| 0 <= m < ch.len() ==> r.contains(#[trigger] ch[m]),
        0 <= i < w.len(),
        w[i] == ch.last(),
        0 <= n < ch.len(),
    ensures
        exists|x: int| 0 <= x < w.len() && w[x] == ch[n] && x + (ch.len() - 1 - n) <= i,
    decreases ch.len() - n,
{
    if n == ch.len() - 1 {
        assert(w[i] == ch[n]);
    } else {
        lemma_chain_back(s, r, w, ch, n + 1, i);
        let x = choose|x: int| 0 <= x < w.len() && w[x] == ch[n + 1] && x + (ch.len() - 2 - n) <= i;
        assert(r.contains(ch[n]));
        let t = choose|t: int| 0 <= t < r.len() && r[t] == ch[n];
        assert(parents_in(s, ch[n]).contains(ch[n + 1]));
        assert(r.contains(w[x]) && children_done(s, r, w[x], w.take(x)));
        assert(parents_in(s, r[t]).contains(w[x]));
        assert(w.take(x).contains(r[t]));
        let y = choose|y: int| 0 <= y < w.take(x).len() && w.take(x)[y] == r[t];
        assert(w[y] == ch[n]);
    }
}

/// The commits of a branch are ancestors of its head, each listed once and
/// newest first: no commit is listed before one of its descendants.
pub proof fn law_branch_newest_first(s: Seq<(Seq<char>, Seq<u8>)>, head: Seq<char>)
    ensures
        branch_commits(s, head).no_duplicates(),
        forall|i: int|
            0 <= i < branch_commits(s, head).len() ==> bfs_visit(s, seq![head], Seq::empty()).contains(
                #[trigger] branch_commits(s, head)[i],
            ),
        forall|i: int, j: int|
            0 <= i < j < branch_commits(s, head).len() ==> !reaches(
                s,
                #[trigger] branch_commits(s, head)[j],
                #[trigger] branch_commits(s, head)[i],
            ),
{
    let e = Seq::<Seq<char>>::empty();
    let r = bfs_visit(s, seq![head], e);
    lemma_bfs_closed(s, seq![head], e);
    let q0 = ready_of(s, r, seq![head], e);
    lemma_ready_len(s, r, seq![head], e);
    lemma_walk_children_first(s, r, q0, e);
    let w = branch_commits(s, head);
    assert(w == newest_first_walk(s, r, q0, e));
    assert forall|i: int, j: int| 0 <= i < j < w.len() implies !reaches(s, #[trigger] w[j], #[trigger] w[i]) by {
        if reaches(s, w[j], w[i]) {
            let ch = choose|ch: Seq<Seq<char>>| is_chain(s, ch) && ch[0] == w[j] && ch.last() == w[i];
            assert forall|m: int| 0 <= m < ch.len() implies r.contains(#[trigger] ch[m]) by {
                lemma_chain_in(s, r, ch, m);
            }
            lemma_chain_back(s, r, w, ch, 0, i);
            let x = choose|x: int| 0 <= x < w.len() && w[x] == ch[0] && x + (ch.len() - 1) <= i;
            assert(w[x] == w[j]);
        }
    }
}

/// The ancestors of a commit list it first, every ancestor once, and every
/// parent of each.
pub proof fn law_ancestors_listed_once(s: Seq<(Seq<char>, Seq<u8>)>, head: Seq<char>)
    ensures
        bfs_visit(s, seq![head], Seq::empty()).no_duplicates(),
        bfs_visit(s, seq![head], Seq::empty()).len() > 0,
        bfs_visit(s, seq![head], Seq::empty())[0] == head,
        parent_closed(s, bfs_visit(s, seq![head], Seq::empty())),
{
    let e = Seq::<Seq<char>>::empty();
    lemma_count_push(s, e, head);
    lemma_parents_absent(s, head);
    lemma_push_distinct(e, head);
    let v = e.push(head);
    let nq = Seq::<Seq<char>>::empty() + parents_in(s, head);
    assert(seq![head].drop_first() =~= Seq::<Seq<char>>::empty());
    lemma_bfs_once(s, nq, v);
    assert(bfs_visit(s, seq![head], e) == bfs_visit(s, nq, v));
    assert(bfs_visit(s, nq, v).subrange(0, 1)[0] == head);
    lemma_bfs_closed(s, seq![head], e);
}

} // verus!
