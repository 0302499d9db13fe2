//! Merging a peer's branch into a local one: the files a commit holds, and
//! the plan of a merge (fast-forward, or a three-way merge of each file).
use vstd::prelude::*;
use vstd::utf8::*;
use crate::codec::{str_from_utf8, string_from_utf8};
use crate::diff3::{diff3_of, lines_view, try_diff3_merge};
use crate::history::{bfs_visit, collect_ancestors, contains_string};
use crate::hexcode::{hex_encode, hex_encoded};
use crate::objects::{mode_kind, tree_mode_kind, Kind};
use crate::objwalk::{tree_walk, walk_tree_entries};
use crate::protocol::refs_view;
use crate::state::{find_key, keys_distinct, lemma_pairs_map_dom, lemma_pairs_map_has, lemma_pairs_map_lacks, pairs_map, put_ref};
use crate::store::{stored_body, stored_text, ObjectStore};
use crate::text::{
    chars_of, chars_start_with, join_strings, join_with, lines_of, push_str, starts_with,
    text_lines, trim, trim_range,
};

verus! {

/// The map `m` once each pair of `l` is set in order.
pub open spec fn insert_all(m: Map<Seq<char>, Seq<char>>, l: Seq<(Seq<char>, Seq<char>)>) -> Map<
    Seq<char>,
    Seq<char>,
>
    decreases l.len(),
{
    if l.len() == 0 {
        m
    } else {
        insert_all(m, l.drop_last()).insert(l.last().0, l.last().1)
    }
}

/// Setting pairs one list after another is setting the pairs of both.
pub proof fn lemma_insert_all_append(
    m: Map<Seq<char>, Seq<char>>,
    a: Seq<(Seq<char>, Seq<char>)>,
    b: Seq<(Seq<char>, Seq<char>)>,
)
    ensures
        insert_all(m, a + b) == insert_all(insert_all(m, a), b),
    decreases b.len(),
{
    if b.len() == 0 {
        assert(a + b =~= a);
    } else {
        assert((a + b).drop_last() =~= a + b.drop_last());
        lemma_insert_all_append(m, a, b.drop_last());
    }
}

/// The path of `name` under the directory `prefix` (none for the top).
pub open spec fn join_path(prefix: Seq<char>, name: Seq<char>) -> Seq<char> {
    if prefix.len() == 0 {
        name
    } else {
        prefix + "/"@ + name
    }
}

/// The (path, blob hash) pairs that walking the tree stored under `h` sets,
/// in order, its subtrees walked where they stand; `None` where stored trees
/// nest deeper than `fuel`. An object that is not stored, or not readable,
/// sets nothing.
pub open spec fn tree_files(
    s: Seq<(Seq<char>, Seq<u8>)>,
    h: Seq<char>,
    prefix: Seq<char>,
    fuel: nat,
) -> Option<Seq<(Seq<char>, Seq<char>)>>
    decreases fuel, 0nat,
{
    match stored_body(s, h) {
        None => Some(Seq::empty()),
        Some(c) => if fuel == 0 {
            None
        } else {
            entry_files(s, tree_walk(c, 0), prefix, (fuel - 1) as nat)
        },
    }
}

/// The pairs that the entries of a tree set: a blob sets its path, a
/// subtree is walked; the walk ends at an entry whose name or mode is not
/// UTF-8.
pub open spec fn entry_files(
    s: Seq<(Seq<char>, Seq<u8>)>,
    es: Seq<(Seq<u8>, Seq<u8>, Seq<u8>)>,
    prefix: Seq<char>,
    fuel: nat,
) -> Option<Seq<(Seq<char>, Seq<char>)>>
    decreases fuel, es.len(),
{
    if es.len() == 0 || !valid_utf8(es[0].1) || !valid_utf8(es[0].0) {
        Some(Seq::empty())
    } else {
        let e = es[0];
        let path = join_path(prefix, decode_utf8(e.1));
        let hash = hex_encoded(e.2);
        let first = match tree_mode_kind(e.0) {
            Some(Kind::Tree) => tree_files(s, hash, path, fuel),
            Some(Kind::Blob) => Some(seq![(path, hash)]),
            _ => Some(Seq::empty()),
        };
        match first {
            None => None,
            Some(f) => match entry_files(s, es.drop_first(), prefix, fuel) {
                None => None,
                Some(r) => Some(f + r),
            },
        }
    }
}

/// Pairs in front of a walk's outcome.
pub open spec fn prepend_files(
    a: Seq<(Seq<char>, Seq<char>)>,
    o: Option<Seq<(Seq<char>, Seq<char>)>>,
) -> Option<Seq<(Seq<char>, Seq<char>)>> {
    match o {
        None => None,
        Some(r) => Some(a + r),
    }
}

/// Walks the tree stored under `hash`, setting in `out` the path of each blob
/// under `prefix` to its hash; false where trees nest deeper than `fuel`.
pub fn walk_tree(
    store: &ObjectStore,
    hash: &String,
    prefix: &String,
    out: &mut Vec<(String, String)>,
    fuel: usize,
) -> (ok: bool)
    requires
        keys_distinct(refs_view(old(out)@)),
    ensures
        keys_distinct(refs_view(final(out)@)),
        match tree_files(store@, hash@, prefix@, fuel as nat) {
            Some(l) => ok && pairs_map(refs_view(final(out)@)) == insert_all(
                pairs_map(refs_view(old(out)@)),
                l,
            ),
            None => !ok,
        },
    decreases fuel,
{
    let body = match store.object_parts(hash) {
        None => {
            assert(pairs_map(refs_view(out@)) == insert_all(pairs_map(refs_view(out@)), Seq::empty()));
            return true;
        },
        Some((_, b)) => b,
    };
    if fuel == 0 {
        return false;
    }
    let entries = walk_tree_entries(body.as_slice());
    let ghost es = entries@.map_values(|e: (Vec<u8>, Vec<u8>, Vec<u8>)| (e.0@, e.1@, e.2@));
    let ghost m0 = pairs_map(refs_view(out@));
    let ghost f = (fuel - 1) as nat;
    let ghost mut acc: Seq<(Seq<char>, Seq<char>)> = Seq::empty();
    let mut i: usize = 0;
    assert(es.skip(0) =~= es);
    assert(Seq::<(Seq<char>, Seq<char>)>::empty() + Seq::<(Seq<char>, Seq<char>)>::empty() =~= Seq::<(Seq<char>, Seq<char>)>::empty());
    assert(prepend_files(acc, entry_files(store@, es, prefix@, f)) =~~= entry_files(store@, es, prefix@, f));
    while i < entries.len()
        invariant
            i <= entries.len(),
            fuel >= 1,
            f == fuel - 1,
            es == entries@.map_values(|e: (Vec<u8>, Vec<u8>, Vec<u8>)| (e.0@, e.1@, e.2@)),
            tree_files(store@, hash@, prefix@, fuel as nat) == entry_files(store@, es, prefix@, f),
            entry_files(store@, es, prefix@, f) == prepend_files(
                acc,
                entry_files(store@, es.skip(i as int), prefix@, f),
            ),
            keys_distinct(refs_view(out@)),
            m0 == pairs_map(refs_view(old(out)@)),
            pairs_map(refs_view(out@)) == insert_all(m0, acc),
        decreases entries.len() - i,
    {
        let ghost rest = es.skip(i as int);
        proof {
            assert(rest[0] == es[i as int]);
            assert(rest.drop_first() =~= es.skip(i + 1));
        }
        let e = &entries[i];
        let name_text = match str_from_utf8(e.1.as_slice()) {
            Err(_) => {
                assert(!valid_utf8(rest[0].1));
                assert(entry_files(store@, rest, prefix@, f) == Some(Seq::<(Seq<char>, Seq<char>)>::empty()));
                assert(acc + Seq::<(Seq<char>, Seq<char>)>::empty() =~= acc);
                return true;
            },
            Ok(t) => t,
        };
        if str_from_utf8(e.0.as_slice()).is_err() {
            assert(!valid_utf8(rest[0].0));
            assert(entry_files(store@, rest, prefix@, f) == Some(Seq::<(Seq<char>, Seq<char>)>::empty()));
            assert(acc + Seq::<(Seq<char>, Seq<char>)>::empty() =~= acc);
            return true;
        }
        let mut path = String::new();
        if prefix.as_str().unicode_len() == 0 {
            push_str(&mut path, name_text);
        } else {
            push_str(&mut path, prefix.as_str());
            push_str(&mut path, "/");
            push_str(&mut path, name_text);
        }
        assert(path@ == join_path(prefix@, decode_utf8(es[i as int].1)));
        let h = hex_encode(e.2.as_slice());
        match mode_kind(e.0.as_slice()) {
            Some(Kind::Tree) => {
                let ghost before = pairs_map(refs_view(out@));
                let ok = walk_tree(store, &h, &path, out, fuel - 1);
                if !ok {
                    return false;
                }
                proof {
                    let l = tree_files(store@, h@, path@, f).unwrap();
                    lemma_insert_all_append(m0, acc, l);
                    assert(acc + (l + entry_files(store@, es.skip(i + 1), prefix@, f).unwrap_or(Seq::empty())) =~= (acc + l) + entry_files(store@, es.skip(i + 1), prefix@, f).unwrap_or(Seq::empty()));
                    acc = acc + l;
                }
            },
            Some(Kind::Blob) => {
                let ghost pv = path@;
                let ghost hv = h@;
                put_ref(out, path, h);
                proof {
                    let l = seq![(pv, hv)];
                    assert(insert_all(m0, acc + l) == insert_all(m0, acc).insert(pv, hv)) by {
                        assert((acc + l).drop_last() =~= acc);
                    }
                    assert(acc + (l + entry_files(store@, es.skip(i + 1), prefix@, f).unwrap_or(Seq::empty())) =~= (acc + l) + entry_files(store@, es.skip(i + 1), prefix@, f).unwrap_or(Seq::empty()));
                    acc = acc + l;
                }
            },
            _ => {
                assert(Seq::<(Seq<char>, Seq<char>)>::empty() + entry_files(store@, es.skip(i + 1), prefix@, f).unwrap_or(Seq::empty()) =~= entry_files(store@, es.skip(i + 1), prefix@, f).unwrap_or(Seq::empty()));
            },
        }
        i = i + 1;
    }
    assert(es.skip(i as int) =~= Seq::<(Seq<u8>, Seq<u8>, Seq<u8>)>::empty());
    assert(acc + Seq::<(Seq<char>, Seq<char>)>::empty() =~= acc);
    true
}

/// Setting the pairs of a list in an empty map gives the map the list spells.
pub proof fn lemma_insert_all_empty(l: Seq<(Seq<char>, Seq<char>)>)
    ensures
        insert_all(Map::empty(), l) == pairs_map(l),
    decreases l.len(),
{
    if l.len() > 0 {
        lemma_insert_all_empty(l.drop_last());
    }
}

/// The tree that the lines of a commit name: the rest of the first line that
/// starts with `tree `, trimmed.
pub open spec fn first_tree_line(ls: Seq<Seq<char>>) -> Option<Seq<char>>
    decreases ls.len(),
{
    if ls.len() == 0 {
        None
    } else if starts_with(ls[0], "tree "@) {
        Some(trim(ls[0].subrange("tree "@.len() as int, ls[0].len() as int)))
    } else {
        first_tree_line(ls.drop_first())
    }
}

/// The (path, blob hash) pairs that walking the tree of the commit stored
/// under `c` sets; none where the commit is not stored or names no tree;
/// `None` where stored trees nest deeper than the store has objects, which
/// only a tree that holds itself, directly or not, allows.
pub open spec fn commit_files(s: Seq<(Seq<char>, Seq<u8>)>, c: Seq<char>) -> Option<Seq<(Seq<char>, Seq<char>)>> {
    match stored_text(s, c) {
        None => Some(Seq::empty()),
        Some(t) => match first_tree_line(text_lines(t)) {
            None => Some(Seq::empty()),
            Some(th) => tree_files(s, th, Seq::empty(), s.len()),
        },
    }
}

/// The files of the commit stored under `commit`, each path with its blob's
/// hash; `None` where trees nest without end.
pub fn list_files_at_commit(store: &ObjectStore, commit: &String) -> (res: Option<Vec<(String, String)>>)
    ensures
        match res {
            Some(v) => commit_files(store@, commit@) matches Some(l) && keys_distinct(refs_view(v@))
                && pairs_map(refs_view(v@)) == pairs_map(l),
            None => commit_files(store@, commit@) is None,
        },
{
    let mut files: Vec<(String, String)> = Vec::new();
    assert(refs_view(files@) =~= Seq::empty());
    let text = match store.object_text(commit) {
        None => {
            return Some(files);
        },
        Some(t) => t,
    };
    let lines = lines_of(text.as_str());
    let ghost ls = lines_view(lines@);
    let tree_len = chars_of("tree ").len();
    let mut i: usize = 0;
    assert(ls.skip(0) =~= ls);
    while i < lines.len()
        invariant
            i <= lines.len(),
            ls == lines_view(lines@),
            tree_len == "tree "@.len(),
            first_tree_line(ls) == first_tree_line(ls.skip(i as int)),
            files@.len() == 0,
            stored_text(store@, commit@) == Some(text@),
            ls == text_lines(text@),
        decreases lines.len() - i,
    {
        proof {
            assert(ls.skip(i as int)[0] == ls[i as int]);
            assert(ls.skip(i as int).drop_first() =~= ls.skip(i + 1));
        }
        let cs = chars_of(lines[i].as_str());
        proof {
            assert(cs@.subrange(0, cs@.len() as int) =~= cs@);
        }
        if chars_start_with(cs.as_slice(), 0, "tree ") {
            let tree_hash = trim_range(cs.as_slice(), tree_len, cs.len());
            let empty = String::new();
            let ghost m0 = pairs_map(refs_view(files@));
            let ok = walk_tree(store, &tree_hash, &empty, &mut files, store.len());
            if !ok {
                return None;
            }
            proof {
                let l = commit_files(store@, commit@).unwrap();
                assert(m0 =~= Map::<Seq<char>, Seq<char>>::empty());
                lemma_insert_all_empty(l);
            }
            return Some(files);
        }
        i = i + 1;
    }
    assert(ls.skip(i as int) =~= Seq::<Seq<char>>::empty());
    Some(files)
}

/// The lines of the blob stored under `h`; none where it is absent or not
/// text.
pub open spec fn blob_lines(s: Seq<(Seq<char>, Seq<u8>)>, h: Seq<char>) -> Seq<Seq<char>> {
    match stored_text(s, h) {
        Some(t) => text_lines(t),
        None => Seq::empty(),
    }
}

/// The lines of the blob stored under `hash`.
pub fn read_blob_lines(store: &ObjectStore, hash: &String) -> (res: Vec<String>)
    ensures
        lines_view(res@) == blob_lines(store@, hash@),
{
    match store.object_text(hash) {
        Some(t) => lines_of(t.as_str()),
        None => Vec::new(),
    }
}

/// The contents of the object stored under `hash` (what follows its header),
/// as a file in the work tree holds them.
pub fn blob_contents(store: &ObjectStore, hash: &String) -> (res: Option<Vec<u8>>)
    ensures
        match res {
            Some(b) => stored_body(store@, hash@) == Some(b@),
            None => stored_body(store@, hash@) is None,
        },
{
    match store.object_parts(hash) {
        Some((_, body)) => Some(body),
        None => None,
    }
}

/// The value of `p` in `m`, where `m` has one.
pub open spec fn opt_get(m: Map<Seq<char>, Seq<char>>, p: Seq<char>) -> Option<Seq<char>> {
    if m.contains_key(p) {
        Some(m[p])
    } else {
        None
    }
}

/// The lines of an optional blob; none where there is no blob.
pub open spec fn opt_blob_lines(s: Seq<(Seq<char>, Seq<u8>)>, h: Option<Seq<char>>) -> Seq<Seq<char>> {
    match h {
        Some(x) => blob_lines(s, x),
        None => Seq::empty(),
    }
}

/// What a merge does with one file, by view.
pub enum StepView {
    /// Only the remote side changed it: write the remote blob.
    Update(Seq<char>, Seq<char>),
    /// Only the remote side changed it, by deleting it.
    Delete(Seq<char>),
    /// Only the local side changed it.
    KeepLocal(Seq<char>),
    /// Both sides changed it the same way.
    Converged(Seq<char>),
    /// Both sides changed it: the merged text, and whether it has conflicts.
    Merged(Seq<char>, Seq<char>, bool),
}

/// The path a step is about.
pub open spec fn step_path(v: StepView) -> Seq<char> {
    match v {
        StepView::Update(p, _) => p,
        StepView::Delete(p) => p,
        StepView::KeepLocal(p) => p,
        StepView::Converged(p) => p,
        StepView::Merged(p, _, _) => p,
    }
}

/// What a merge does with the file at `p`, whose blob is `b` in the base,
/// `l` locally and `r` remotely (`None`: absent): `Some(None)` where neither
/// side changed it; `None` where a three-way merge of its lines is not
/// defined.
pub open spec fn file_step(
    s: Seq<(Seq<char>, Seq<u8>)>,
    p: Seq<char>,
    b: Option<Seq<char>>,
    l: Option<Seq<char>>,
    r: Option<Seq<char>>,
) -> Option<Option<StepView>> {
    if l == b && r == b {
        Some(None)
    } else if l == b {
        Some(
            Some(
                match r {
                    Some(h) => StepView::Update(p, h),
                    None => StepView::Delete(p),
                },
            ),
        )
    } else if r == b {
        Some(Some(StepView::KeepLocal(p)))
    } else if l == r {
        Some(Some(StepView::Converged(p)))
    } else {
        match diff3_of(opt_blob_lines(s, b), opt_blob_lines(s, l), opt_blob_lines(s, r)) {
            None => None,
            Some((merged, conflict)) => Some(Some(StepView::Merged(p, join_with(merged, "\n"@), conflict))),
        }
    }
}

/// The blob a file has after a step, given its local blob (`None`: no
/// file): what an update writes, nothing after a delete, and the local blob
/// where the step keeps the local file.
pub open spec fn blob_after(l: Option<Seq<char>>, step: Option<StepView>) -> Option<Seq<char>> {
    match step {
        Some(StepView::Update(_, h)) => Some(h),
        Some(StepView::Delete(_)) => None,
        _ => l,
    }
}

/// A change that only one side made is what the merge keeps: where the
/// remote blob is the base blob, the file stays as the local side has it
/// (and is not merged line by line); where the local blob is the base blob,
/// the file becomes what the remote side has; where both sides agree, it
/// stays as it is.
pub proof fn law_one_sided_change_kept(
    s: Seq<(Seq<char>, Seq<u8>)>,
    p: Seq<char>,
    b: Option<Seq<char>>,
    l: Option<Seq<char>>,
    r: Option<Seq<char>>,
)
    ensures
        r == b ==> (file_step(s, p, b, l, r) matches Some(st) && blob_after(l, st) == l && !(st matches Some(
            StepView::Merged(_, _, _),
        ))),
        l == b ==> (file_step(s, p, b, l, r) matches Some(st) && blob_after(l, st) == r),
        l == r ==> (file_step(s, p, b, l, r) matches Some(st) && blob_after(l, st) == l),
{
}

/// The step for `p` among the base, local and remote files.
pub open spec fn step_for(
    s: Seq<(Seq<char>, Seq<u8>)>,
    p: Seq<char>,
    bm: Map<Seq<char>, Seq<char>>,
    lm: Map<Seq<char>, Seq<char>>,
    rm: Map<Seq<char>, Seq<char>>,
) -> Option<Option<StepView>> {
    file_step(s, p, opt_get(bm, p), opt_get(lm, p), opt_get(rm, p))
}

/// The paths of the steps with conflicts, in order.
pub open spec fn conflict_paths(steps: Seq<StepView>) -> Seq<Seq<char>>
    decreases steps.len(),
{
    if steps.len() == 0 {
        Seq::empty()
    } else {
        let rest = conflict_paths(steps.drop_last());
        match steps.last() {
            StepView::Merged(p, _, true) => rest.push(p),
            _ => rest,
        }
    }
}

/// Whether `steps` and `conflicts` are a three-way merge of the files `bm`
/// (base), `lm` (local) and `rm` (remote): one step for each path of any side
/// that either side changed, each the step for its path, and the conflicts
/// the paths of the steps with conflicts.
pub open spec fn three_way_steps(
    s: Seq<(Seq<char>, Seq<u8>)>,
    bm: Map<Seq<char>, Seq<char>>,
    lm: Map<Seq<char>, Seq<char>>,
    rm: Map<Seq<char>, Seq<char>>,
    steps: Seq<StepView>,
    conflicts: Seq<Seq<char>>,
) -> bool {
    &&& forall|i: int, j: int|
        0 <= i < steps.len() && 0 <= j < steps.len() && i != j ==> step_path(steps[i]) != step_path(
            steps[j],
        )
    &&& forall|i: int|
        0 <= i < steps.len() ==> step_for(s, step_path(#[trigger] steps[i]), bm, lm, rm) == Some(
            Some(steps[i]),
        )
    &&& forall|p: Seq<char>|
        (bm.contains_key(p) || lm.contains_key(p) || rm.contains_key(p)) && #[trigger] step_for(
            s,
            p,
            bm,
            lm,
            rm,
        ) != Some(None::<StepView>) ==> exists|i: int| 0 <= i < steps.len() && step_path(steps[i]) == p
    &&& conflicts == conflict_paths(steps)
}

/// Whether a three-way merge of every path is defined.
pub open spec fn all_steps_defined(
    s: Seq<(Seq<char>, Seq<u8>)>,
    bm: Map<Seq<char>, Seq<char>>,
    lm: Map<Seq<char>, Seq<char>>,
    rm: Map<Seq<char>, Seq<char>>,
) -> bool {
    forall|p: Seq<char>|
        (bm.contains_key(p) || lm.contains_key(p) || rm.contains_key(p)) ==> #[trigger] step_for(
            s,
            p,
            bm,
            lm,
            rm,
        ) is Some
}

/// What a merge does with one file.
pub enum FileStep {
    /// Write the remote blob at the path.
    Update { path: String, blob: String },
    /// Delete the file at the path.
    Delete { path: String },
    /// Keep the local file.
    KeepLocal { path: String },
    /// Both sides agree; keep the file.
    Converged { path: String },
    /// Write the merged text; it may hold conflict markers.
    Merged { path: String, text: String, conflict: bool },
}

/// The view of a step.
pub open spec fn step_view(st: FileStep) -> StepView {
    match st {
        FileStep::Update { path, blob } => StepView::Update(path@, blob@),
        FileStep::Delete { path } => StepView::Delete(path@),
        FileStep::KeepLocal { path } => StepView::KeepLocal(path@),
        FileStep::Converged { path } => StepView::Converged(path@),
        FileStep::Merged { path, text, conflict } => StepView::Merged(path@, text@, conflict),
    }
}

/// The views of steps.
pub open spec fn steps_view(v: Seq<FileStep>) -> Seq<StepView> {
    v.map_values(|st: FileStep| step_view(st))
}

/// The view of an optional string.
pub open spec fn opt_view(o: Option<String>) -> Option<Seq<char>> {
    match o {
        Some(x) => Some(x@),
        None => None,
    }
}

/// The value of `p` among pairs with distinct keys.
pub fn lookup(list: &Vec<(String, String)>, p: &String) -> (res: Option<String>)
    requires
        keys_distinct(refs_view(list@)),
    ensures
        opt_view(res) == opt_get(pairs_map(refs_view(list@)), p@),
{
    let ghost rv = refs_view(list@);
    match find_key(list, p) {
        Some(i) => {
            proof {
                lemma_pairs_map_has(rv, i as int);
            }
            Some(list[i].1.clone())
        },
        None => {
            proof {
                lemma_pairs_map_lacks(rv, p@);
            }
            None
        },
    }
}

/// Whether two optional strings are equal.
pub fn same_blob(a: &Option<String>, b: &Option<String>) -> (res: bool)
    ensures
        res == (opt_view(*a) == opt_view(*b)),
{
    match (a, b) {
        (Some(x), Some(y)) => *x == *y,
        (None, None) => true,
        _ => false,
    }
}

/// Adds the keys of `list` that `paths` lacks, keeping `paths` free of
/// repeats.
fn add_keys(paths: &mut Vec<String>, list: &Vec<(String, String)>)
    requires
        lines_view(old(paths)@).no_duplicates(),
    ensures
        lines_view(final(paths)@).no_duplicates(),
        forall|p: Seq<char>|
            #[trigger] lines_view(final(paths)@).contains(p) <==> lines_view(old(paths)@).contains(p)
                || pairs_map(refs_view(list@)).contains_key(p),
{
    let ghost rv = refs_view(list@);
    let ghost start = lines_view(paths@);
    let mut i: usize = 0;
    while i < list.len()
        invariant
            i <= list.len(),
            rv == refs_view(list@),
            start == lines_view(old(paths)@),
            lines_view(paths@).no_duplicates(),
            forall|p: Seq<char>|
                #[trigger] lines_view(paths@).contains(p) <==> start.contains(p) || exists|j: int|
                    0 <= j < i && rv[j].0 == p,
        decreases list.len() - i,
    {
        let ghost before = lines_view(paths@);
        if !contains_string(paths, &list[i].0) {
            paths.push(list[i].0.clone());
            assert(lines_view(paths@) =~= before.push(rv[i as int].0));
        }
        assert forall|p: Seq<char>|
            #[trigger] lines_view(paths@).contains(p) <==> start.contains(p) || exists|j: int|
                0 <= j < i + 1 && rv[j].0 == p by {
            if lines_view(paths@).contains(p) && !before.contains(p) {
                assert(p == rv[i as int].0);
            }
            if exists|j: int| 0 <= j < i + 1 && rv[j].0 == p {
                let j = choose|j: int| 0 <= j < i + 1 && rv[j].0 == p;
                if j == i {
                    if !before.contains(p) {
                        assert(lines_view(paths@)[lines_view(paths@).len() - 1] == p);
                    }
                }
            }
            if before.contains(p) {
                let k = choose|k: int| 0 <= k < before.len() && before[k] == p;
                assert(lines_view(paths@)[k] == p);
            }
        }
        i = i + 1;
    }
    assert forall|p: Seq<char>|
        #[trigger] lines_view(paths@).contains(p) <==> start.contains(p) || pairs_map(rv).contains_key(p) by {
        lemma_pairs_map_dom(rv, p);
    }
}

/// What a merge does with the file at `path`, whose blob is `b` in the
/// base, `l` locally and `r` remotely; `Some(None)` where neither side
/// changed it, `None` where a three-way merge of its lines is not defined.
pub fn step_of(
    store: &ObjectStore,
    path: &String,
    b: &Option<String>,
    l: &Option<String>,
    r: &Option<String>,
) -> (res: Option<Option<FileStep>>)
    ensures
        match res {
            None => file_step(store@, path@, opt_view(*b), opt_view(*l), opt_view(*r)) is None,
            Some(None) => file_step(store@, path@, opt_view(*b), opt_view(*l), opt_view(*r)) == Some(
                None::<StepView>,
            ),
            Some(Some(st)) => file_step(store@, path@, opt_view(*b), opt_view(*l), opt_view(*r)) == Some(
                Some(step_view(st)),
            ),
        },
{
    let lb = same_blob(l, b);
    let rb = same_blob(r, b);
    if lb && rb {
        return Some(None);
    }
    if lb {
        return match r {
            Some(h) => Some(Some(FileStep::Update { path: path.clone(), blob: h.clone() })),
            None => Some(Some(FileStep::Delete { path: path.clone() })),
        };
    }
    if rb {
        return Some(Some(FileStep::KeepLocal { path: path.clone() }));
    }
    if same_blob(l, r) {
        return Some(Some(FileStep::Converged { path: path.clone() }));
    }
    let base_lines = match b {
        Some(h) => read_blob_lines(store, h),
        None => Vec::new(),
    };
    let local_lines = match l {
        Some(h) => read_blob_lines(store, h),
        None => Vec::new(),
    };
    let remote_lines = match r {
        Some(h) => read_blob_lines(store, h),
        None => Vec::new(),
    };
    assert(lines_view(base_lines@) == opt_blob_lines(store@, opt_view(*b)));
    assert(lines_view(local_lines@) == opt_blob_lines(store@, opt_view(*l)));
    assert(lines_view(remote_lines@) == opt_blob_lines(store@, opt_view(*r)));
    match try_diff3_merge(base_lines.as_slice(), local_lines.as_slice(), remote_lines.as_slice()) {
        None => None,
        Some((merged, conflict)) => {
            let text = join_strings(&merged, "\n");
            Some(Some(FileStep::Merged { path: path.clone(), text, conflict }))
        },
    }
}

/// A three-way merge of the files `base`, `local` and `remote` (each a list of
/// (path, blob hash) pairs with distinct paths): a step for each path that a
/// side changed, and the paths with conflicts; `None` where a three-way merge
/// of some path's lines is not defined.
pub fn plan_steps(
    store: &ObjectStore,
    base: &Vec<(String, String)>,
    local: &Vec<(String, String)>,
    remote: &Vec<(String, String)>,
) -> (res: Option<(Vec<FileStep>, Vec<String>)>)
    requires
        keys_distinct(refs_view(base@)),
        keys_distinct(refs_view(local@)),
        keys_distinct(refs_view(remote@)),
    ensures
        match res {
            Some((steps, conflicts)) => all_steps_defined(
                store@,
                pairs_map(refs_view(base@)),
                pairs_map(refs_view(local@)),
                pairs_map(refs_view(remote@)),
            ) && three_way_steps(
                store@,
                pairs_map(refs_view(base@)),
                pairs_map(refs_view(local@)),
                pairs_map(refs_view(remote@)),
                steps_view(steps@),
                lines_view(conflicts@),
            ),
            None => !all_steps_defined(
                store@,
                pairs_map(refs_view(base@)),
                pairs_map(refs_view(local@)),
                pairs_map(refs_view(remote@)),
            ),
        },
{
    let ghost bm = pairs_map(refs_view(base@));
    let ghost lm = pairs_map(refs_view(local@));
    let ghost rm = pairs_map(refs_view(remote@));
    let mut paths: Vec<String> = Vec::new();
    assert(lines_view(paths@) =~= Seq::<Seq<char>>::empty());
    add_keys(&mut paths, base);
    add_keys(&mut paths, local);
    add_keys(&mut paths, remote);
    let ghost pv = lines_view(paths@);
    assert forall|p: Seq<char>| #[trigger] pv.contains(p) <==> (bm.contains_key(p) || lm.contains_key(p) || rm.contains_key(p)) by {}
    let mut steps: Vec<FileStep> = Vec::new();
    let mut conflicts: Vec<String> = Vec::new();
    let mut k: usize = 0;
    while k < paths.len()
        invariant
            k <= paths.len(),
            pv == lines_view(paths@),
            pv.no_duplicates(),
            forall|p: Seq<char>| #[trigger] pv.contains(p) <==> (bm.contains_key(p) || lm.contains_key(p) || rm.contains_key(p)),
            bm == pairs_map(refs_view(base@)),
            lm == pairs_map(refs_view(local@)),
            rm == pairs_map(refs_view(remote@)),
            keys_distinct(refs_view(base@)),
            keys_distinct(refs_view(local@)),
            keys_distinct(refs_view(remote@)),
            forall|i: int| 0 <= i < steps@.len() ==> exists|j: int| 0 <= j < k && step_path(#[trigger] steps_view(steps@)[i]) == pv[j],
            forall|i: int| 0 <= i < steps@.len() ==> step_for(store@, step_path(#[trigger] steps_view(steps@)[i]), bm, lm, rm) == Some(Some(steps_view(steps@)[i])),
            forall|i: int, j: int| 0 <= i < steps@.len() && 0 <= j < steps@.len() && i != j ==> step_path(steps_view(steps@)[i]) != step_path(steps_view(steps@)[j]),
            forall|j: int| 0 <= j < k ==> #[trigger] step_for(store@, pv[j], bm, lm, rm) is Some,
            forall|j: int| 0 <= j < k && step_for(store@, pv[j], bm, lm, rm) != Some(None::<StepView>) ==> exists|i: int| 0 <= i < steps@.len() && step_path(steps_view(steps@)[i]) == #[trigger] pv[j],
            lines_view(conflicts@) == conflict_paths(steps_view(steps@)),
        decreases paths.len() - k,
    {
        let p = &paths[k];
        let b = lookup(base, p);
        let l = lookup(local, p);
        let r = lookup(remote, p);
        let ghost sv0 = steps_view(steps@);
        match step_of(store, p, &b, &l, &r) {
            None => {
                assert(pv.contains(pv[k as int]));
                assert(step_for(store@, pv[k as int], bm, lm, rm) is None);
                return None;
            },
            Some(None) => {
                assert(step_for(store@, pv[k as int], bm, lm, rm) == Some(None::<StepView>));
            },
            Some(Some(st)) => {
                let ghost v = step_view(st);
                assert(step_path(v) == pv[k as int]);
                let is_conflict = match &st {
                    FileStep::Merged { conflict, .. } => *conflict,
                    _ => false,
                };
                if is_conflict {
                    let ghost cb = lines_view(conflicts@);
                    conflicts.push(p.clone());
                    assert(lines_view(conflicts@) =~= cb.push(pv[k as int]));
                }
                steps.push(st);
                proof {
                    let sv = steps_view(steps@);
                    assert(sv =~= sv0.push(v));
                    assert(sv.drop_last() =~= sv0);
                    assert forall|i: int| 0 <= i < sv0.len() implies step_path(sv0[i]) != pv[k as int] by {
                        let j = choose|j: int| 0 <= j < k && step_path(sv0[i]) == pv[j];
                    }
                    assert forall|i: int| 0 <= i < sv.len() implies exists|j: int| 0 <= j < k + 1 && step_path(#[trigger] sv[i]) == pv[j] by {
                        if i < sv0.len() {
                            assert(sv[i] == sv0[i]);
                            let j = choose|j: int| 0 <= j < k && step_path(sv0[i]) == pv[j];
                        } else {
                            assert(step_path(sv[i]) == pv[k as int]);
                        }
                    }
                    assert forall|j: int| 0 <= j < k + 1 && step_for(store@, pv[j], bm, lm, rm) != Some(None::<StepView>) implies exists|i: int| 0 <= i < sv.len() && step_path(sv[i]) == #[trigger] pv[j] by {
                        if j < k {
                            let i = choose|i: int| 0 <= i < sv0.len() && step_path(sv0[i]) == pv[j];
                            assert(sv[i] == sv0[i]);
                        } else {
                            assert(step_path(sv[sv0.len() as int]) == pv[j]);
                        }
                    }
                }
            },
        }
        k = k + 1;
    }
    proof {
        let sv = steps_view(steps@);
        assert forall|p: Seq<char>| (bm.contains_key(p) || lm.contains_key(p) || rm.contains_key(p)) implies #[trigger] step_for(store@, p, bm, lm, rm) is Some by {
            assert(pv.contains(p));
            let j = choose|j: int| 0 <= j < pv.len() && pv[j] == p;
        }
        assert forall|p: Seq<char>| (bm.contains_key(p) || lm.contains_key(p) || rm.contains_key(p)) && #[trigger] step_for(store@, p, bm, lm, rm) != Some(None::<StepView>) implies exists|i: int| 0 <= i < sv.len() && step_path(sv[i]) == p by {
            assert(pv.contains(p));
            let j = choose|j: int| 0 <= j < pv.len() && pv[j] == p;
        }
    }
    Some((steps, conflicts))
}

/// The ancestors of `h` (itself included), breadth first.
pub open spec fn ancestors_of(s: Seq<(Seq<char>, Seq<u8>)>, h: Seq<char>) -> Seq<Seq<char>> {
    bfs_visit(s, seq![h], Seq::empty())
}

/// Whether `c` is a lowest common ancestor of the commits whose ancestors
/// are `ra` and `la`: an ancestor of both that is no ancestor of another
/// ancestor of both.
pub open spec fn lowest_common(s: Seq<(Seq<char>, Seq<u8>)>, ra: Seq<Seq<char>>, la: Seq<Seq<char>>, c: Seq<char>) -> bool {
    &&& ra.contains(c)
    &&& la.contains(c)
    &&& forall|k: int|
        0 <= k < ra.len() && la.contains(#[trigger] ra[k]) && ra[k] != c ==> !ancestors_of(s, ra[k]).contains(c)
}

/// The first of `cs` that is a lowest common ancestor among `ra` and `la`.
pub open spec fn first_lowest(
    s: Seq<(Seq<char>, Seq<u8>)>,
    ra: Seq<Seq<char>>,
    la: Seq<Seq<char>>,
    cs: Seq<Seq<char>>,
) -> Option<Seq<char>>
    decreases cs.len(),
{
    if cs.len() == 0 {
        None
    } else if lowest_common(s, ra, la, cs[0]) {
        Some(cs[0])
    } else {
        first_lowest(s, ra, la, cs.drop_first())
    }
}

/// Whether `c` is a lowest common ancestor among the ancestors `ra` and `la`.
fn is_lowest_common(store: &ObjectStore, ra: &Vec<String>, la: &Vec<String>, c: &String) -> (res: bool)
    ensures
        res == lowest_common(store@, lines_view(ra@), lines_view(la@), c@),
{
    if !contains_string(ra, c) || !contains_string(la, c) {
        return false;
    }
    let ghost rv = lines_view(ra@);
    let ghost lv = lines_view(la@);
    let mut k: usize = 0;
    while k < ra.len()
        invariant
            k <= ra.len(),
            rv == lines_view(ra@),
            lv == lines_view(la@),
            forall|q: int|
                0 <= q < k && lv.contains(#[trigger] rv[q]) && rv[q] != c@ ==> !ancestors_of(store@, rv[q]).contains(c@),
        decreases ra.len() - k,
    {
        assert(rv[k as int] == ra@[k as int]@);
        if contains_string(la, &ra[k]) && ra[k] != *c {
            let anc = collect_ancestors(store, &ra[k]);
            if contains_string(&anc, c) {
                return false;
            }
        }
        k = k + 1;
    }
    true
}

/// What merging a peer's branch into a local one does.
pub enum MergePlan {
    /// The branch is new here: check out these files (path, blob hash) and
    /// set the branch to the remote head.
    NewBranch { files: Vec<(String, String)> },
    /// The branch already points at the remote head.
    UpToDate,
    /// The remote head is an ancestor of the local one.
    RemoteBehind,
    /// The local head is an ancestor of the remote one: check out these
    /// files and move the branch to the remote head.
    FastForward { files: Vec<(String, String)> },
    /// The heads share no ancestor.
    Unrelated,
    /// The histories diverged from `base`: carry out these steps; the branch
    /// moves to the remote head where there are no conflicts.
    ThreeWay { base: String, steps: Vec<FileStep>, conflicts: Vec<String> },
}

/// Whether `files` are the files that `l` sets.
pub open spec fn files_match(files: Vec<(String, String)>, l: Seq<(Seq<char>, Seq<char>)>) -> bool {
    keys_distinct(refs_view(files@)) && pairs_map(refs_view(files@)) == pairs_map(l)
}

/// Whether `res` is what merging the commit `remote` into a branch whose
/// head is `local` (empty for a new branch) does: a new branch takes the
/// remote files; equal heads, or a remote head among the local ancestors,
/// leave all as it is; a local head among the remote ancestors is
/// fast-forwarded; otherwise the base of a three-way merge of the files of
/// the three commits is a lowest common ancestor (the first, in breadth-first
/// order from the remote head, that is no ancestor of another common one),
/// and with no such ancestor the histories are unrelated. `None`
/// where a tree nests without end, or a three-way merge of some file's lines
/// is not defined.
pub open spec fn merge_plan_ok(
    s: Seq<(Seq<char>, Seq<u8>)>,
    local: Seq<char>,
    remote: Seq<char>,
    res: Option<MergePlan>,
) -> bool {
    if local.len() == 0 {
        match commit_files(s, remote) {
            None => res is None,
            Some(rl) => res matches Some(MergePlan::NewBranch { files }) && files_match(files, rl),
        }
    } else if local == remote {
        res matches Some(MergePlan::UpToDate)
    } else {
        let la = bfs_visit(s, seq![local], Seq::empty());
        let ra = bfs_visit(s, seq![remote], Seq::empty());
        if la.contains(remote) {
            res matches Some(MergePlan::RemoteBehind)
        } else if ra.contains(local) {
            match commit_files(s, remote) {
                None => res is None,
                Some(rl) => res matches Some(MergePlan::FastForward { files }) && files_match(files, rl),
            }
        } else {
            match first_lowest(s, ra, la, ra) {
                None => res matches Some(MergePlan::Unrelated),
                Some(base) => match (commit_files(s, base), commit_files(s, local), commit_files(s, remote)) {
                    (Some(bl), Some(ll), Some(rl)) => if all_steps_defined(s, pairs_map(bl), pairs_map(ll), pairs_map(rl)) {
                        res matches Some(MergePlan::ThreeWay { base: b, steps, conflicts }) && b@ == base
                            && three_way_steps(
                            s,
                            pairs_map(bl),
                            pairs_map(ll),
                            pairs_map(rl),
                            steps_view(steps@),
                            lines_view(conflicts@),
                        )
                    } else {
                        res is None
                    },
                    _ => res is None,
                },
            }
        }
    }
}

/// Plans the merge of the commit `remote_head` into a branch whose head is
/// `local_head` (empty for a new branch).
pub fn merge_branch(store: &ObjectStore, local_head: &String, remote_head: &String) -> (res: Option<MergePlan>)
    ensures
        merge_plan_ok(store@, local_head@, remote_head@, res),
{
    if local_head.as_str().unicode_len() == 0 {
        return match list_files_at_commit(store, remote_head) {
            Some(files) => Some(MergePlan::NewBranch { files }),
            None => None,
        };
    }
    if *local_head == *remote_head {
        return Some(MergePlan::UpToDate);
    }
    let local_ancestors = collect_ancestors(store, local_head);
    if contains_string(&local_ancestors, remote_head) {
        return Some(MergePlan::RemoteBehind);
    }
    let remote_ancestors = collect_ancestors(store, remote_head);
    if contains_string(&remote_ancestors, local_head) {
        return match list_files_at_commit(store, remote_head) {
            Some(files) => Some(MergePlan::FastForward { files }),
            None => None,
        };
    }
    let ghost la = lines_view(local_ancestors@);
    let ghost ra = lines_view(remote_ancestors@);
    let mut i: usize = 0;
    assert(ra.skip(0) =~= ra);
    while i < remote_ancestors.len()
        invariant
            i <= remote_ancestors.len(),
            ra == lines_view(remote_ancestors@),
            la == lines_view(local_ancestors@),
            first_lowest(store@, ra, la, ra) == first_lowest(store@, ra, la, ra.skip(i as int)),
            la == bfs_visit(store@, seq![local_head@], Seq::empty()),
            ra == bfs_visit(store@, seq![remote_head@], Seq::empty()),
            !la.contains(remote_head@),
            !ra.contains(local_head@),
            local_head@.len() != 0,
            local_head@ != remote_head@,
        decreases remote_ancestors.len() - i,
    {
        proof {
            assert(ra.skip(i as int)[0] == ra[i as int]);
            assert(ra.skip(i as int).drop_first() =~= ra.skip(i + 1));
        }
        if is_lowest_common(store, &remote_ancestors, &local_ancestors, &remote_ancestors[i]) {
            let base = remote_ancestors[i].clone();
            return plan_three_way(store, base, local_head, remote_head);
        }
        i = i + 1;
    }
    assert(ra.skip(i as int) =~= Seq::<Seq<char>>::empty());
    Some(MergePlan::Unrelated)
}

/// Plans a three-way merge of the files of `local_head` and `remote_head`
/// from those of `base`.
fn plan_three_way(store: &ObjectStore, base: String, local_head: &String, remote_head: &String) -> (res: Option<MergePlan>)
    ensures
        match (commit_files(store@, base@), commit_files(store@, local_head@), commit_files(store@, remote_head@)) {
            (Some(bl), Some(ll), Some(rl)) => if all_steps_defined(store@, pairs_map(bl), pairs_map(ll), pairs_map(rl)) {
                res matches Some(MergePlan::ThreeWay { base: b, steps, conflicts }) && b@ == base@
                    && three_way_steps(
                    store@,
                    pairs_map(bl),
                    pairs_map(ll),
                    pairs_map(rl),
                    steps_view(steps@),
                    lines_view(conflicts@),
                )
            } else {
                res is None
            },
            _ => res is None,
        },
{
    let base_files = match list_files_at_commit(store, &base) {
        Some(f) => f,
        None => {
            return None;
        },
    };
    let local_files = match list_files_at_commit(store, local_head) {
        Some(f) => f,
        None => {
            return None;
        },
    };
    let remote_files = match list_files_at_commit(store, remote_head) {
        Some(f) => f,
        None => {
            return None;
        },
    };
    match plan_steps(store, &base_files, &local_files, &remote_files) {
        None => None,
        Some((steps, conflicts)) => Some(MergePlan::ThreeWay { base, steps, conflicts }),
    }
}

/// What `first_lowest` picks is a lowest common ancestor.
proof fn lemma_first_lowest(s: Seq<(Seq<char>, Seq<u8>)>, ra: Seq<Seq<char>>, la: Seq<Seq<char>>, cs: Seq<Seq<char>>)
    ensures
        first_lowest(s, ra, la, cs) matches Some(c) ==> lowest_common(s, ra, la, c),
    decreases cs.len(),
{
    if cs.len() > 0 {
        lemma_first_lowest(s, ra, la, cs.drop_first());
    }
}

/// The base of a three-way merge is a common ancestor of the two heads that
/// is no ancestor of another common ancestor.
pub proof fn law_merge_base_lowest(
    s: Seq<(Seq<char>, Seq<u8>)>,
    local: Seq<char>,
    remote: Seq<char>,
    res: Option<MergePlan>,
)
    requires
        merge_plan_ok(s, local, remote, res),
    ensures
        res matches Some(MergePlan::ThreeWay { base, .. }) ==> lowest_common(
            s,
            ancestors_of(s, remote),
            ancestors_of(s, local),
            base@,
        ),
{
    lemma_first_lowest(s, ancestors_of(s, remote), ancestors_of(s, local), ancestors_of(s, remote));
}

/// The message of a merge that stopped at conflicts.
pub fn merge_message(branch: &String) -> (res: String)
    ensures
        res@ == "Merge branch '"@ + branch@ + "' from remote"@,
{
    let mut m = "Merge branch '".to_string();
    push_str(&mut m, branch.as_str());
    push_str(&mut m, "' from remote");
    m
}

} // verus!
