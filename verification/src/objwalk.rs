//! The objects that a commit or tree reaches, as peers send them.
use vstd::prelude::*;
use vstd::utf8::*;
use crate::codec::str_from_utf8;
use crate::diff3::lines_view;
use crate::hexcode::{hex_encode, hex_encoded};
use crate::objects::tree_mode_kind;
use crate::objects::Kind;
use crate::store::{count_unvisited, lemma_count_push, store_get, stored_body, stored_header, ObjectStore};
use crate::text::{
    byte_index_from, chars_of, chars_start_with, index_from, lemma_index_from, lines_of, push_bytes,
    starts_with, text_lines, trim, trim_range,
};
use crate::history::{contains_string, lemma_push_distinct};

verus! {

/// The entries that a lenient read of tree contents from byte `pos` on
/// yields, as (mode, name, hash) bytes: it stops at the end, or where a name
/// or a whole hash is missing.
pub open spec fn tree_walk(c: Seq<u8>, pos: int) -> Seq<(Seq<u8>, Seq<u8>, Seq<u8>)>
    decreases c.len() - pos,
{
    if !(0 <= pos < c.len()) {
        Seq::empty()
    } else {
        let sp = index_from(c, ' ' as u8, pos);
        let after_mode = if sp < c.len() {
            sp + 1
        } else {
            sp
        };
        if after_mode >= c.len() {
            Seq::empty()
        } else {
            let nul = index_from(c, 0u8, after_mode);
            let after_name = if nul < c.len() {
                nul + 1
            } else {
                nul
            };
            proof {
                lemma_index_from(c, ' ' as u8, pos);
                lemma_index_from(c, 0u8, after_mode);
            }
            if after_name + 20 > c.len() {
                Seq::empty()
            } else {
                let e = (c.subrange(pos, sp), c.subrange(after_mode, nul), c.subrange(after_name, after_name + 20));
                if after_name + 20 >= c.len() {
                    seq![e]
                } else {
                    seq![e] + tree_walk(c, after_name + 20)
                }
            }
        }
    }
}

/// Reads the entries of tree contents leniently, as (mode, name, hash) bytes.
pub fn walk_tree_entries(c: &[u8]) -> (res: Vec<(Vec<u8>, Vec<u8>, Vec<u8>)>)
    ensures
        res@.map_values(|e: (Vec<u8>, Vec<u8>, Vec<u8>)| (e.0@, e.1@, e.2@)) == tree_walk(c@, 0),
{
    let mut out: Vec<(Vec<u8>, Vec<u8>, Vec<u8>)> = Vec::new();
    let mut pos: usize = 0;
    loop
        invariant
            pos <= c.len(),
            tree_walk(c@, 0) == out@.map_values(|e: (Vec<u8>, Vec<u8>, Vec<u8>)| (e.0@, e.1@, e.2@))
                + tree_walk(c@, pos as int),
        decreases c.len() - pos,
    {
        let ghost before = out@;
        let ghost view_of = |e: (Vec<u8>, Vec<u8>, Vec<u8>)| (e.0@, e.1@, e.2@);
        if pos >= c.len() {
            assert(out@.map_values(view_of) + Seq::empty() =~= out@.map_values(view_of));
            return out;
        }
        let sp = byte_index_from(c, ' ' as u8, pos);
        proof {
            lemma_index_from(c@, ' ' as u8, pos as int);
        }
        let after_mode = if sp < c.len() {
            sp + 1
        } else {
            sp
        };
        if after_mode >= c.len() {
            assert(out@.map_values(view_of) + Seq::empty() =~= out@.map_values(view_of));
            return out;
        }
        let nul = byte_index_from(c, 0u8, after_mode);
        proof {
            lemma_index_from(c@, 0u8, after_mode as int);
        }
        let after_name = if nul < c.len() {
            nul + 1
        } else {
            nul
        };
        if after_name > c.len() || c.len() - after_name < 20 {
            assert(out@.map_values(view_of) + Seq::empty() =~= out@.map_values(view_of));
            return out;
        }
        let mut mode: Vec<u8> = Vec::new();
        push_bytes(&mut mode, c, pos, sp);
        let mut name: Vec<u8> = Vec::new();
        push_bytes(&mut name, c, after_mode, nul);
        let mut hash: Vec<u8> = Vec::new();
        push_bytes(&mut hash, c, after_name, after_name + 20);
        out.push((mode, name, hash));
        let next = after_name + 20;
        proof {
            let e = (c@.subrange(pos as int, sp as int), c@.subrange(after_mode as int, nul as int), c@.subrange(after_name as int, next as int));
            assert(out@.map_values(view_of) =~= before.map_values(view_of).push(e));
            if next < c.len() {
                assert(before.map_values(view_of) + (seq![e] + tree_walk(c@, next as int)) =~= out@.map_values(view_of) + tree_walk(c@, next as int));
            } else {
                assert(before.map_values(view_of) + seq![e] =~= out@.map_values(view_of) + Seq::empty());
            }
        }
        if next >= c.len() {
            assert(out@.map_values(view_of) + Seq::empty() =~= out@.map_values(view_of));
            return out;
        }
        pos = next;
    }
}


/// A step of collecting objects: an object whose own children are collected
/// after it, or a blob that is only listed.
pub enum ObjTask {
    Visit(Seq<char>),
    Leaf(Seq<char>),
}

/// What the entries of a tree add: subtrees to visit and blobs to list, up
/// to the first entry whose mode is not UTF-8.
pub open spec fn tree_children(entries: Seq<(Seq<u8>, Seq<u8>, Seq<u8>)>) -> Seq<ObjTask>
    decreases entries.len(),
{
    if entries.len() == 0 || !valid_utf8(entries[0].0) {
        Seq::empty()
    } else {
        let e = entries[0];
        let t = match tree_mode_kind(e.0) {
            Some(Kind::Tree) => seq![ObjTask::Visit(hex_encoded(e.2))],
            Some(Kind::Blob) => seq![ObjTask::Leaf(hex_encoded(e.2))],
            _ => Seq::empty(),
        };
        t + tree_children(entries.drop_first())
    }
}

/// What the lines of a commit add: its tree and its parents, in the order of
/// their lines, up to the first empty line.
pub open spec fn commit_children(ls: Seq<Seq<char>>) -> Seq<ObjTask>
    decreases ls.len(),
{
    if ls.len() == 0 || ls[0].len() == 0 {
        Seq::empty()
    } else {
        let l = ls[0];
        let t = if starts_with(l, "tree "@) {
            seq![ObjTask::Visit(trim(l.subrange("tree "@.len() as int, l.len() as int)))]
        } else if starts_with(l, "parent "@) {
            seq![ObjTask::Visit(trim(l.subrange("parent "@.len() as int, l.len() as int)))]
        } else {
            Seq::empty()
        };
        t + commit_children(ls.drop_first())
    }
}

/// What the object stored under `h` adds: for a commit its tree and parents,
/// for a tree its entries; nothing where it is not stored or not readable.
pub open spec fn object_children(s: Seq<(Seq<char>, Seq<u8>)>, h: Seq<char>) -> Seq<ObjTask> {
    match (stored_header(s, h), stored_body(s, h)) {
        (Some(hd), Some(b)) => {
            if !valid_utf8(hd) {
                Seq::empty()
            } else if starts_with(decode_utf8(hd), "commit"@) {
                if valid_utf8(b) {
                    commit_children(text_lines(decode_utf8(b)))
                } else {
                    Seq::empty()
                }
            } else if starts_with(decode_utf8(hd), "tree"@) {
                tree_children(tree_walk(b, 0))
            } else {
                Seq::empty()
            }
        },
        _ => Seq::empty(),
    }
}

/// The hashes listed after `out` by running `tasks` in order, depth first:
/// a hash already listed is skipped; a blob is listed; any other object is
/// listed and its children are run before the remaining tasks.
pub open spec fn collect_run(
    s: Seq<(Seq<char>, Seq<u8>)>,
    tasks: Seq<ObjTask>,
    out: Seq<Seq<char>>,
) -> Seq<Seq<char>>
    decreases count_unvisited(s, out), tasks.len(),
{
    if tasks.len() == 0 {
        out
    } else {
        match tasks[0] {
            ObjTask::Leaf(h) => {
                proof {
                    lemma_count_push(s, out, h);
                }
                if out.contains(h) {
                    collect_run(s, tasks.drop_first(), out)
                } else {
                    collect_run(s, tasks.drop_first(), out.push(h))
                }
            },
            ObjTask::Visit(h) => {
                proof {
                    lemma_count_push(s, out, h);
                }
                if out.contains(h) {
                    collect_run(s, tasks.drop_first(), out)
                } else if store_get(s, h) is None {
                    collect_run(s, tasks.drop_first(), out.push(h))
                } else {
                    collect_run(s, object_children(s, h) + tasks.drop_first(), out.push(h))
                }
            },
        }
    }
}

/// The task that an exec pair stands for.
pub open spec fn task_of(t: (bool, String)) -> ObjTask {
    if t.0 {
        ObjTask::Visit(t.1@)
    } else {
        ObjTask::Leaf(t.1@)
    }
}

/// The tasks of an exec list.
pub open spec fn tasks_view(v: Seq<(bool, String)>) -> Seq<ObjTask> {
    v.map_values(|t: (bool, String)| task_of(t))
}

/// What the object stored under `hash` adds to a collection, as (visit?,
/// hash) pairs.
pub fn object_children_of(store: &ObjectStore, hash: &String) -> (res: Vec<(bool, String)>)
    ensures
        tasks_view(res@) == object_children(store@, hash@),
{
    let (header, body) = match store.object_parts(hash) {
        None => {
            return Vec::new();
        },
        Some(p) => p,
    };
    let header_text = match str_from_utf8(header.as_slice()) {
        Err(_) => {
            return Vec::new();
        },
        Ok(t) => t,
    };
    let mut out: Vec<(bool, String)> = Vec::new();
    if crate::text::str_starts_with(header_text, "commit") {
        let text = match str_from_utf8(body.as_slice()) {
            Err(_) => {
                return Vec::new();
            },
            Ok(t) => t,
        };
        let lines = lines_of(text);
        let ghost ls = lines_view(lines@);
        let tree_len = chars_of("tree ").len();
        let parent_len = chars_of("parent ").len();
        let mut i: usize = 0;
        assert(ls.skip(0) =~= ls);
        assert(tasks_view(out@) + commit_children(ls) =~= commit_children(ls));
        while i < lines.len()
            invariant
                i <= lines.len(),
                ls == lines_view(lines@),
                tree_len == "tree "@.len(),
                parent_len == "parent "@.len(),
                object_children(store@, hash@) == commit_children(ls),
                commit_children(ls) == tasks_view(out@) + commit_children(ls.skip(i as int)),
            decreases lines.len() - i,
        {
            proof {
                assert(ls.skip(i as int)[0] == ls[i as int]);
                assert(ls.skip(i as int).drop_first() =~= ls.skip(i + 1));
            }
            let cs = chars_of(lines[i].as_str());
            if cs.len() == 0 {
                assert(ls[i as int] == cs@);
                assert(commit_children(ls.skip(i as int)) =~= Seq::<ObjTask>::empty());
                assert(tasks_view(out@) + Seq::<ObjTask>::empty() =~= tasks_view(out@));
                return out;
            }
            proof {
                assert(cs@.subrange(0, cs@.len() as int) =~= cs@);
            }
            let ghost before = out@;
            if chars_start_with(cs.as_slice(), 0, "tree ") {
                out.push((true, trim_range(cs.as_slice(), tree_len, cs.len())));
                assert(tasks_view(out@) =~= tasks_view(before) + seq![ObjTask::Visit(trim(ls[i as int].subrange("tree "@.len() as int, ls[i as int].len() as int)))]);
            } else if chars_start_with(cs.as_slice(), 0, "parent ") {
                out.push((true, trim_range(cs.as_slice(), parent_len, cs.len())));
                assert(tasks_view(out@) =~= tasks_view(before) + seq![ObjTask::Visit(trim(ls[i as int].subrange("parent "@.len() as int, ls[i as int].len() as int)))]);
            } else {
                assert(tasks_view(out@) =~= tasks_view(before) + Seq::<ObjTask>::empty());
            }
            i = i + 1;
        }
        assert(ls.skip(i as int) =~= Seq::<Seq<char>>::empty());
        assert(tasks_view(out@) + Seq::<ObjTask>::empty() =~= tasks_view(out@));
        return out;
    } else if crate::text::str_starts_with(header_text, "tree") {
        let entries = walk_tree_entries(body.as_slice());
        let ghost ev = entries@.map_values(|e: (Vec<u8>, Vec<u8>, Vec<u8>)| (e.0@, e.1@, e.2@));
        let mut i: usize = 0;
        assert(ev.skip(0) =~= ev);
        assert(tasks_view(out@) + tree_children(ev) =~= tree_children(ev));
        while i < entries.len()
            invariant
                i <= entries.len(),
                ev == entries@.map_values(|e: (Vec<u8>, Vec<u8>, Vec<u8>)| (e.0@, e.1@, e.2@)),
                object_children(store@, hash@) == tree_children(ev),
                tree_children(ev) == tasks_view(out@) + tree_children(ev.skip(i as int)),
            decreases entries.len() - i,
        {
            proof {
                assert(ev.skip(i as int)[0] == ev[i as int]);
                assert(ev.skip(i as int).drop_first() =~= ev.skip(i + 1));
            }
            let e = &entries[i];
            if str_from_utf8(e.0.as_slice()).is_err() {
                assert(tasks_view(out@) + Seq::<ObjTask>::empty() =~= tasks_view(out@));
                return out;
            }
            let ghost before = out@;
            match crate::objects::mode_kind(e.0.as_slice()) {
                Some(Kind::Tree) => {
                    out.push((true, hex_encode(e.2.as_slice())));
                    assert(tasks_view(out@) =~= tasks_view(before) + seq![ObjTask::Visit(hex_encoded(ev[i as int].2))]);
                },
                Some(Kind::Blob) => {
                    out.push((false, hex_encode(e.2.as_slice())));
                    assert(tasks_view(out@) =~= tasks_view(before) + seq![ObjTask::Leaf(hex_encoded(ev[i as int].2))]);
                },
                _ => {
                    assert(tasks_view(out@) =~= tasks_view(before) + Seq::<ObjTask>::empty());
                },
            }
            i = i + 1;
        }
        assert(ev.skip(i as int) =~= Seq::<(Seq<u8>, Seq<u8>, Seq<u8>)>::empty());
        assert(tasks_view(out@) + Seq::<ObjTask>::empty() =~= tasks_view(out@));
        return out;
    }
    out
}

proof fn lemma_tasks_push(v: Seq<(bool, String)>, t: (bool, String))
    ensures
        tasks_view(v.push(t)).reverse() == seq![task_of(t)] + tasks_view(v).reverse(),
{
    assert(tasks_view(v.push(t)) =~= tasks_view(v).push(task_of(t)));
    assert(tasks_view(v.push(t)).reverse() =~= seq![task_of(t)] + tasks_view(v).reverse());
}

proof fn lemma_subrange_front<T>(s: Seq<T>, k: int)
    requires
        0 <= k < s.len(),
    ensures
        s.subrange(k, s.len() as int) == seq![s[k]] + s.subrange(k + 1, s.len() as int),
{
    assert(s.subrange(k, s.len() as int) =~= seq![s[k]] + s.subrange(k + 1, s.len() as int));
}

/// Adds to `out`, depth first, the hash and every object it reaches that
/// `out` does not list yet: for a commit its tree and parents, for a tree its
/// subtrees (walked) and blobs (listed).
pub fn collect_all_objects(store: &ObjectStore, hash: &String, out: &mut Vec<String>)
    ensures
        lines_view(final(out)@) == collect_run(store@, seq![ObjTask::Visit(hash@)], lines_view(old(out)@)),
{
    let mut stack: Vec<(bool, String)> = Vec::new();
    stack.push((true, hash.clone()));
    assert(tasks_view(stack@).reverse() =~= seq![ObjTask::Visit(hash@)]);
    while stack.len() > 0
        invariant
            collect_run(store@, seq![ObjTask::Visit(hash@)], lines_view(old(out)@)) == collect_run(
                store@,
                tasks_view(stack@).reverse(),
                lines_view(out@),
            ),
        decreases count_unvisited(store@, lines_view(out@)), stack.len(),
    {
        let ghost sv = tasks_view(stack@).reverse();
        let (visit, h) = stack.pop().unwrap();
        proof {
            assert(sv[0] == task_of((visit, h)));
            assert(sv.drop_first() =~= tasks_view(stack@).reverse());
            lemma_count_push(store@, lines_view(out@), h@);
        }
        if contains_string(out, &h) {
            continue ;
        }
        let ghost obefore = lines_view(out@);
        if !visit {
            out.push(h);
            assert(lines_view(out@) =~= obefore.push(task_of((visit, h))->Leaf_0));
            continue ;
        }
        let children = if store.has_object(&h) {
            object_children_of(store, &h)
        } else {
            Vec::new()
        };
        out.push(h);
        assert(lines_view(out@) =~= obefore.push(task_of((visit, h))->Visit_0));
        let ghost sbefore = stack@;
        let mut k = children.len();
        while k > 0
            invariant
                k <= children.len(),
                tasks_view(stack@).reverse() == tasks_view(children@).subrange(k as int, children.len() as int)
                    + tasks_view(sbefore).reverse(),
            decreases k,
        {
            k = k - 1;
            let ghost prev = stack@;
            let t = (children[k].0, children[k].1.clone());
            stack.push(t);
            proof {
                lemma_tasks_push(prev, t);
                lemma_subrange_front(tasks_view(children@), k as int);
                assert(task_of(t) == tasks_view(children@)[k as int]);
            }
        }
        proof {
            assert(tasks_view(children@).subrange(0, children.len() as int) =~= tasks_view(children@));
        }
    }
    proof {
        assert(tasks_view(stack@).reverse() =~= Seq::<ObjTask>::empty());
    }
}

} // verus!

verus! {

/// The hash a task is about.
pub open spec fn task_hash(t: ObjTask) -> Seq<char> {
    match t {
        ObjTask::Visit(h) => h,
        ObjTask::Leaf(h) => h,
    }
}

/// Collecting objects keeps the hashes listed before, in front and in
/// order; lists no hash twice; and lists the hash of every task it is given.
pub proof fn law_collect_lists_once(s: Seq<(Seq<char>, Seq<u8>)>, tasks: Seq<ObjTask>, out: Seq<Seq<char>>)
    requires
        out.no_duplicates(),
    ensures
        collect_run(s, tasks, out).no_duplicates(),
        out.len() <= collect_run(s, tasks, out).len(),
        collect_run(s, tasks, out).subrange(0, out.len() as int) == out,
        forall|k: int| 0 <= k < tasks.len() ==> collect_run(s, tasks, out).contains(task_hash(#[trigger] tasks[k])),
    decreases count_unvisited(s, out), tasks.len(),
{
    if tasks.len() == 0 {
        assert(out.subrange(0, out.len() as int) =~= out);
    } else {
        let h = task_hash(tasks[0]);
        let rest = tasks.drop_first();
        lemma_count_push(s, out, h);
        if out.contains(h) {
            law_collect_lists_once(s, rest, out);
            let r = collect_run(s, rest, out);
            assert(r == collect_run(s, tasks, out));
            let j = choose|j: int| 0 <= j < out.len() && out[j] == h;
            assert(r.subrange(0, out.len() as int)[j] == r[j]);
            assert forall|k: int| 0 <= k < tasks.len() implies r.contains(task_hash(#[trigger] tasks[k])) by {
                if k > 0 {
                    assert(tasks[k] == rest[k - 1]);
                }
            }
        } else {
            let o2 = out.push(h);
            lemma_push_distinct(out, h);
            let nt = match tasks[0] {
                ObjTask::Leaf(_) => rest,
                ObjTask::Visit(_) => if store_get(s, h) is None {
                    rest
                } else {
                    object_children(s, h) + rest
                },
            };
            let off = (nt.len() - rest.len()) as int;
            assert forall|k: int| 0 <= k < rest.len() implies nt[off + k] == rest[k] by {}
            law_collect_lists_once(s, nt, o2);
            let r = collect_run(s, nt, o2);
            assert(r == collect_run(s, tasks, out));
            assert(r.subrange(0, o2.len() as int)[out.len() as int] == h);
            assert(r.subrange(0, out.len() as int) =~= r.subrange(0, o2.len() as int).subrange(0, out.len() as int));
            assert forall|k: int| 0 <= k < tasks.len() implies r.contains(task_hash(#[trigger] tasks[k])) by {
                if k > 0 {
                    assert(tasks[k] == rest[k - 1]);
                    assert(nt[off + k - 1] == rest[k - 1]);
                } else {
                    assert(r[out.len() as int] == h);
                }
            }
        }
    }
}

/// Whether line `l` of a commit names `y` as its tree or as a parent.
pub open spec fn line_link(l: Seq<char>, y: Seq<char>) -> bool {
    ||| (starts_with(l, "tree "@) && y == trim(l.subrange("tree "@.len() as int, l.len() as int)))
    ||| (starts_with(l, "parent "@) && y == trim(l.subrange("parent "@.len() as int, l.len() as int)))
}

/// Whether a line of the commit lines `ls` before the first empty one names
/// `y` as the tree or a parent.
pub open spec fn commit_link(ls: Seq<Seq<char>>, y: Seq<char>) -> bool {
    exists|i: int|
        0 <= i < ls.len() && (forall|j: int| 0 <= j <= i ==> (#[trigger] ls[j]).len() > 0) && line_link(ls[i], y)
}

/// Whether an entry of the tree entries `es`, before the first whose mode is
/// not UTF-8, names `y` with a mode of kind `k`.
pub open spec fn entry_link(es: Seq<(Seq<u8>, Seq<u8>, Seq<u8>)>, y: Seq<char>, k: Kind) -> bool {
    exists|i: int|
        0 <= i < es.len() && (forall|j: int| 0 <= j <= i ==> valid_utf8(#[trigger] es[j].0))
            && tree_mode_kind(es[i].0) == Some(k) && y == hex_encoded(es[i].2)
}

/// Whether the object stored under `x` links to `y`: a commit to its tree
/// and parents, a tree to its subtrees (with `walk`) and to its blobs
/// (without).
pub open spec fn links_to(s: Seq<(Seq<char>, Seq<u8>)>, x: Seq<char>, y: Seq<char>, walk: bool) -> bool {
    match (stored_header(s, x), stored_body(s, x)) {
        (Some(hd), Some(b)) => {
            if !valid_utf8(hd) {
                false
            } else if starts_with(decode_utf8(hd), "commit"@) {
                walk && valid_utf8(b) && commit_link(text_lines(decode_utf8(b)), y)
            } else if starts_with(decode_utf8(hd), "tree"@) {
                entry_link(
                    tree_walk(b, 0),
                    y,
                    if walk {
                        Kind::Tree
                    } else {
                        Kind::Blob
                    },
                )
            } else {
                false
            }
        },
        _ => false,
    }
}

/// What the lines of a commit add are hashes to visit, one for each line
/// that names the tree or a parent.
proof fn lemma_commit_children_links(ls: Seq<Seq<char>>, y: Seq<char>)
    ensures
        forall|k: int| 0 <= k < commit_children(ls).len() ==> (#[trigger] commit_children(ls)[k]) is Visit,
        commit_link(ls, y) ==> exists|k: int| 0 <= k < commit_children(ls).len() && commit_children(ls)[k] == ObjTask::Visit(y),
    decreases ls.len(),
{
    if ls.len() > 0 && ls[0].len() > 0 {
        let rest = ls.drop_first();
        lemma_commit_children_links(rest, y);
        let l = ls[0];
        let t = if starts_with(l, "tree "@) {
            seq![ObjTask::Visit(trim(l.subrange("tree "@.len() as int, l.len() as int)))]
        } else if starts_with(l, "parent "@) {
            seq![ObjTask::Visit(trim(l.subrange("parent "@.len() as int, l.len() as int)))]
        } else {
            Seq::empty()
        };
        let rc = commit_children(rest);
        assert(commit_children(ls) == t + rc);
        assert forall|k: int| 0 <= k < commit_children(ls).len() implies (#[trigger] commit_children(ls)[k]) is Visit by {
            if k >= t.len() {
                assert(commit_children(ls)[k] == rc[k - t.len()]);
            }
        }
        if commit_link(ls, y) {
            let i = choose|i: int|
                0 <= i < ls.len() && (forall|j: int| 0 <= j <= i ==> (#[trigger] ls[j]).len() > 0) && line_link(ls[i], y);
            if i == 0 {
                reveal_strlit("tree ");
                reveal_strlit("parent ");
                if starts_with(l, "tree "@) && starts_with(l, "parent "@) {
                    assert(l.subrange(0, 5)[0] == l[0]);
                    assert(l.subrange(0, 7)[0] == l[0]);
                }
                assert(t.len() == 1 && t[0] == ObjTask::Visit(y));
                assert(commit_children(ls)[0] == ObjTask::Visit(y));
            } else {
                assert(rest[i - 1] == ls[i]);
                assert forall|j: int| 0 <= j <= i - 1 implies (#[trigger] rest[j]).len() > 0 by {
                    assert(rest[j] == ls[j + 1]);
                }
                assert(commit_link(rest, y));
                let k = choose|k: int| 0 <= k < rc.len() && rc[k] == ObjTask::Visit(y);
                assert(commit_children(ls)[t.len() + k] == ObjTask::Visit(y));
            }
        }
    } else if ls.len() > 0 {
        if commit_link(ls, y) {
            let i = choose|i: int|
                0 <= i < ls.len() && (forall|j: int| 0 <= j <= i ==> (#[trigger] ls[j]).len() > 0) && line_link(ls[i], y);
            assert(ls[0].len() > 0);
        }
    }
}

/// What the entries of a tree add are its subtrees to visit and its blobs to
/// list: one for each entry before the first whose mode is not UTF-8.
proof fn lemma_tree_children_links(es: Seq<(Seq<u8>, Seq<u8>, Seq<u8>)>, y: Seq<char>)
    ensures
        entry_link(es, y, Kind::Tree) ==> exists|k: int| 0 <= k < tree_children(es).len() && tree_children(es)[k] == link_task(Kind::Tree, y),
        entry_link(es, y, Kind::Blob) ==> exists|k: int| 0 <= k < tree_children(es).len() && tree_children(es)[k] == link_task(Kind::Blob, y),
        forall|k: int| 0 <= k < tree_children(es).len() ==> match #[trigger] tree_children(es)[k] {
            ObjTask::Leaf(z) => entry_link(es, z, Kind::Blob),
            ObjTask::Visit(z) => entry_link(es, z, Kind::Tree),
        },
    decreases es.len(),
{
    if es.len() > 0 && valid_utf8(es[0].0) {
        let rest = es.drop_first();
        lemma_tree_children_links(rest, y);
        let e = es[0];
        let t = match tree_mode_kind(e.0) {
            Some(Kind::Tree) => seq![ObjTask::Visit(hex_encoded(e.2))],
            Some(Kind::Blob) => seq![ObjTask::Leaf(hex_encoded(e.2))],
            _ => Seq::empty(),
        };
        let rc = tree_children(rest);
        assert(tree_children(es) == t + rc);
        assert forall|k: int| 0 <= k < tree_children(es).len() implies match #[trigger] tree_children(es)[k] {
            ObjTask::Leaf(z) => entry_link(es, z, Kind::Blob),
            ObjTask::Visit(z) => entry_link(es, z, Kind::Tree),
        } by {
            if k < t.len() {
                assert(valid_utf8(es[0].0));
                assert(forall|j: int| 0 <= j <= 0 ==> valid_utf8(#[trigger] es[j].0));
            } else {
                let x = rc[k - t.len()];
                assert(tree_children(es)[k] == x);
                match x {
                    ObjTask::Leaf(z) => {
                        let i = choose|i: int|
                            0 <= i < rest.len() && (forall|j: int| 0 <= j <= i ==> valid_utf8(#[trigger] rest[j].0))
                                && tree_mode_kind(rest[i].0) == Some(Kind::Blob) && z == hex_encoded(rest[i].2);
                        assert(es[i + 1] == rest[i]);
                        assert forall|j: int| 0 <= j <= i + 1 implies valid_utf8(#[trigger] es[j].0) by {
                            if j > 0 {
                                assert(es[j] == rest[j - 1]);
                            }
                        }
                    },
                    ObjTask::Visit(z) => {
                        let i = choose|i: int|
                            0 <= i < rest.len() && (forall|j: int| 0 <= j <= i ==> valid_utf8(#[trigger] rest[j].0))
                                && tree_mode_kind(rest[i].0) == Some(Kind::Tree) && z == hex_encoded(rest[i].2);
                        assert(es[i + 1] == rest[i]);
                        assert forall|j: int| 0 <= j <= i + 1 implies valid_utf8(#[trigger] es[j].0) by {
                            if j > 0 {
                                assert(es[j] == rest[j - 1]);
                            }
                        }
                    },
                }
            }
        }
        lemma_tree_link_task(es, y, Kind::Tree);
        lemma_tree_link_task(es, y, Kind::Blob);
    } else if es.len() > 0 {
        lemma_tree_link_task(es, y, Kind::Tree);
        lemma_tree_link_task(es, y, Kind::Blob);
    }
}

/// The task that an entry link of kind `kk` (a tree or a blob) becomes.
pub open spec fn link_task(kk: Kind, y: Seq<char>) -> ObjTask {
    if kk == Kind::Tree {
        ObjTask::Visit(y)
    } else {
        ObjTask::Leaf(y)
    }
}

/// An entry link of a tree or a blob is a task that the entries add.
proof fn lemma_tree_link_task(es: Seq<(Seq<u8>, Seq<u8>, Seq<u8>)>, y: Seq<char>, kk: Kind)
    requires
        kk == Kind::Tree || kk == Kind::Blob,
    ensures
        entry_link(es, y, kk) ==> exists|k: int| 0 <= k < tree_children(es).len() && tree_children(es)[k] == link_task(kk, y),
    decreases es.len(),
{
    if entry_link(es, y, kk) {
        let i = choose|i: int|
            0 <= i < es.len() && (forall|j: int| 0 <= j <= i ==> valid_utf8(#[trigger] es[j].0))
                && tree_mode_kind(es[i].0) == Some(kk) && y == hex_encoded(es[i].2);
        assert(valid_utf8(es[0].0));
        let rest = es.drop_first();
        let e = es[0];
        let t = match tree_mode_kind(e.0) {
            Some(Kind::Tree) => seq![ObjTask::Visit(hex_encoded(e.2))],
            Some(Kind::Blob) => seq![ObjTask::Leaf(hex_encoded(e.2))],
            _ => Seq::empty(),
        };
        let rc = tree_children(rest);
        assert(tree_children(es) == t + rc);
        if i == 0 {
            assert(tree_children(es)[0] == t[0]);
        } else {
            assert(rest[i - 1] == es[i]);
            assert forall|j: int| 0 <= j <= i - 1 implies valid_utf8(#[trigger] rest[j].0) by {
                assert(rest[j] == es[j + 1]);
            }
            assert(entry_link(rest, y, kk));
            lemma_tree_link_task(rest, y, kk);
            let k = choose|k: int| 0 <= k < rc.len() && rc[k] == link_task(kk, y);
            assert(tree_children(es)[t.len() + k] == link_task(kk, y));
        }
    }
}

/// The tasks that an object adds are exactly its links: each link is the
/// hash of a task, and each task that lists a hash without walking it is a
/// blob link.
proof fn lemma_children_links(s: Seq<(Seq<char>, Seq<u8>)>, x: Seq<char>, y: Seq<char>, w: bool)
    ensures
        links_to(s, x, y, w) ==> exists|k: int|
            0 <= k < object_children(s, x).len() && task_hash(#[trigger] object_children(s, x)[k]) == y,
        forall|k: int|
            0 <= k < object_children(s, x).len() && (#[trigger] object_children(s, x)[k]) is Leaf ==> links_to(
                s,
                x,
                task_hash(object_children(s, x)[k]),
                false,
            ),
{
    match (stored_header(s, x), stored_body(s, x)) {
        (Some(hd), Some(b)) => {
            if valid_utf8(hd) && starts_with(decode_utf8(hd), "commit"@) {
                if valid_utf8(b) {
                    lemma_commit_children_links(text_lines(decode_utf8(b)), y);
                    if links_to(s, x, y, w) {
                        let k = choose|k: int|
                            0 <= k < object_children(s, x).len() && object_children(s, x)[k] == ObjTask::Visit(y);
                        assert(task_hash(object_children(s, x)[k]) == y);
                    }
                }
            } else if valid_utf8(hd) && starts_with(decode_utf8(hd), "tree"@) {
                let es = tree_walk(b, 0);
                lemma_tree_children_links(es, y);
                if links_to(s, x, y, w) {
                    if w {
                        let k = choose|k: int|
                            0 <= k < object_children(s, x).len() && object_children(s, x)[k] == link_task(Kind::Tree, y);
                        assert(task_hash(object_children(s, x)[k]) == y);
                    } else {
                        let k = choose|k: int|
                            0 <= k < object_children(s, x).len() && object_children(s, x)[k] == link_task(Kind::Blob, y);
                        assert(task_hash(object_children(s, x)[k]) == y);
                    }
                }
                assert forall|k: int|
                    0 <= k < object_children(s, x).len() && (#[trigger] object_children(s, x)[k]) is Leaf implies links_to(
                    s,
                    x,
                    task_hash(object_children(s, x)[k]),
                    false,
                ) by {
                    assert(object_children(s, x)[k] == tree_children(es)[k]);
                }
            }
        },
        _ => {},
    }
}

/// Whether every link from `out` reaches `out` or a hash of `tasks`, and
/// every task that lists a hash without walking it names an object with no
/// links.
pub open spec fn collect_pending(
    s: Seq<(Seq<char>, Seq<u8>)>,
    tasks: Seq<ObjTask>,
    out: Seq<Seq<char>>,
) -> bool {
    &&& forall|x: Seq<char>, y: Seq<char>, w: bool|
        out.contains(x) && #[trigger] links_to(s, x, y, w) ==> out.contains(y) || exists|k: int|
            0 <= k < tasks.len() && task_hash(#[trigger] tasks[k]) == y
    &&& forall|k: int, z: Seq<char>, w: bool|
        #![trigger tasks[k], links_to(s, task_hash(tasks[k]), z, w)]
        0 <= k < tasks.len() && tasks[k] is Leaf ==> !links_to(s, task_hash(tasks[k]), z, w)
}

/// Whether every object that a blob entry of a stored tree names links to
/// nothing.
pub open spec fn blob_entries_are_leaves(s: Seq<(Seq<char>, Seq<u8>)>) -> bool {
    forall|x: Seq<char>, y: Seq<char>, z: Seq<char>, w: bool|
        #![trigger links_to(s, x, y, false), links_to(s, y, z, w)]
        links_to(s, x, y, false) ==> !links_to(s, y, z, w)
}

proof fn lemma_collect_closed(s: Seq<(Seq<char>, Seq<u8>)>, tasks: Seq<ObjTask>, out: Seq<Seq<char>>)
    requires
        blob_entries_are_leaves(s),
        collect_pending(s, tasks, out),
    ensures
        forall|x: Seq<char>, y: Seq<char>, w: bool|
            collect_run(s, tasks, out).contains(x) && #[trigger] links_to(s, x, y, w) ==> collect_run(
                s,
                tasks,
                out,
            ).contains(y),
    decreases count_unvisited(s, out), tasks.len(),
{
    if tasks.len() == 0 {
        assert forall|x: Seq<char>, y: Seq<char>, w: bool|
            out.contains(x) && #[trigger] links_to(s, x, y, w) implies out.contains(y) by {}
    } else {
        let t = tasks[0];
        let h = task_hash(t);
        let rest = tasks.drop_first();
        lemma_count_push(s, out, h);
        let r = collect_run(s, tasks, out);
        if out.contains(h) {
            assert(r == collect_run(s, rest, out));
            assert forall|x: Seq<char>, y: Seq<char>, w: bool|
                out.contains(x) && #[trigger] links_to(s, x, y, w) implies out.contains(y) || exists|k: int|
                    0 <= k < rest.len() && task_hash(#[trigger] rest[k]) == y by {
                if !out.contains(y) {
                    let k = choose|k: int| 0 <= k < tasks.len() && task_hash(#[trigger] tasks[k]) == y;
                    if k > 0 {
                        assert(rest[k - 1] == tasks[k]);
                    }
                }
            }
            assert forall|k: int, z: Seq<char>, w: bool|
                #![trigger rest[k], links_to(s, task_hash(rest[k]), z, w)]
                0 <= k < rest.len() && rest[k] is Leaf implies !links_to(s, task_hash(rest[k]), z, w) by {
                assert(rest[k] == tasks[k + 1]);
            }
            lemma_collect_closed(s, rest, out);
        } else {
            let o2 = out.push(h);
            let expand = t is Visit && store_get(s, h) is Some;
            let nt = if expand {
                object_children(s, h) + rest
            } else {
                rest
            };
            assert(r == collect_run(s, nt, o2));
            let ch = object_children(s, h);
            let off = (nt.len() - rest.len()) as int;
            assert forall|k: int| 0 <= k < rest.len() implies nt[off + k] == rest[k] by {}
            assert forall|x: Seq<char>, y: Seq<char>, w: bool|
                o2.contains(x) && #[trigger] links_to(s, x, y, w) implies o2.contains(y) || exists|k: int|
                    0 <= k < nt.len() && task_hash(#[trigger] nt[k]) == y by {
                if x == h {
                    if expand {
                        lemma_children_links(s, h, y, w);
                        let k = choose|k: int| 0 <= k < ch.len() && task_hash(#[trigger] ch[k]) == y;
                        assert(nt[k] == ch[k]);
                    } else if t is Leaf {
                        assert(tasks[0] is Leaf);
                        assert(!links_to(s, task_hash(tasks[0]), y, w));
                    } else {
                        assert(stored_header(s, h) is None);
                    }
                } else {
                    let i = choose|i: int| 0 <= i < o2.len() && o2[i] == x;
                    assert(o2[i] == out[i]);
                    assert(out.contains(x));
                    if out.contains(y) {
                        let j = choose|j: int| 0 <= j < out.len() && out[j] == y;
                        assert(o2[j] == y);
                    } else {
                        let k = choose|k: int| 0 <= k < tasks.len() && task_hash(#[trigger] tasks[k]) == y;
                        if k == 0 {
                            assert(o2[out.len() as int] == y);
                        } else {
                            assert(rest[k - 1] == tasks[k]);
                            assert(nt[off + k - 1] == rest[k - 1]);
                        }
                    }
                }
            }
            assert forall|k: int, z: Seq<char>, w: bool|
                #![trigger nt[k], links_to(s, task_hash(nt[k]), z, w)]
                0 <= k < nt.len() && nt[k] is Leaf implies !links_to(s, task_hash(nt[k]), z, w) by {
                if k >= off {
                    assert(nt[k] == rest[k - off]);
                    assert(rest[k - off] == tasks[k - off + 1]);
                } else {
                    assert(expand);
                    assert(nt[k] == ch[k]);
                    lemma_children_links(s, h, task_hash(ch[k]), false);
                    assert(links_to(s, h, task_hash(ch[k]), false));
                }
            }
            lemma_collect_closed(s, nt, o2);
        }
    }
}

/// Collecting the objects from a hash lists that hash and every object that
/// anything listed links to: the tree and parents of each commit, and the
/// subtrees (walked in turn) and blobs of each tree; where each blob entry
/// of a tree names an object that links to nothing.
pub proof fn law_collect_closed(s: Seq<(Seq<char>, Seq<u8>)>, h: Seq<char>)
    requires
        blob_entries_are_leaves(s),
    ensures
        collect_run(s, seq![ObjTask::Visit(h)], Seq::empty()).contains(h),
        forall|x: Seq<char>, y: Seq<char>, w: bool|
            collect_run(s, seq![ObjTask::Visit(h)], Seq::empty()).contains(x) && #[trigger] links_to(s, x, y, w)
                ==> collect_run(s, seq![ObjTask::Visit(h)], Seq::empty()).contains(y),
{
    let t0 = seq![ObjTask::Visit(h)];
    law_collect_lists_once(s, t0, Seq::empty());
    assert(task_hash(t0[0]) == h);
    lemma_collect_closed(s, t0, Seq::empty());
}

} // verus!
