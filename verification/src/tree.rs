//! Building tree objects from the staged files: the files are grouped by
//! directory, and each directory becomes a tree whose entries are its files
//! and the trees of its subdirectories, in git's order.
use vstd::prelude::*;
use crate::codec::sha1_of;
use crate::diff3::lines_view;
use crate::hexcode::{hex_decode, hex_decoded, hex_encoded, lemma_hex_roundtrip};
use crate::objects::{
    built_object, object_bytes, tree_bytes, tree_contents, tree_input_view, GitObject,
    GitObjectView, Kind,
};
use crate::error::GitError;
use crate::state::{
    find_key, keys_distinct, lemma_pairs_map_has, lemma_pairs_map_lacks, lemma_pairs_map_push,
    lemma_pairs_map_update, pairs_map,
};
use crate::text::{chars_of, has_char, starts_with, string_of};

verus! {

/// A tree entry being built: (mode, name, hash bytes).
pub open spec fn dir_mode() -> Seq<char> {
    seq!['4', '0', '0', '0', '0']
}

/// The name an entry is ordered by: a subtree's name ends in `/`.
pub open spec fn sort_key(e: (Seq<char>, Seq<char>, Seq<u8>)) -> Seq<char> {
    if e.0 == dir_mode() {
        e.1 + seq!['/']
    } else {
        e.1
    }
}

/// Whether `a` comes strictly before `b`, character by character (for UTF-8
/// text this is the order of its bytes).
pub open spec fn lex_lt(a: Seq<char>, b: Seq<char>) -> bool
    decreases a.len(),
{
    if a.len() == 0 {
        b.len() > 0
    } else if b.len() == 0 {
        false
    } else if a[0] != b[0] {
        a[0] < b[0]
    } else {
        lex_lt(a.drop_first(), b.drop_first())
    }
}

/// `e` placed into the sorted `s` after every entry that does not come after
/// it.
pub open spec fn insert_entry(
    s: Seq<(Seq<char>, Seq<char>, Seq<u8>)>,
    e: (Seq<char>, Seq<char>, Seq<u8>),
) -> Seq<(Seq<char>, Seq<char>, Seq<u8>)>
    decreases s.len(),
{
    if s.len() == 0 {
        seq![e]
    } else if !lex_lt(sort_key(e), sort_key(s.last())) {
        s.push(e)
    } else {
        insert_entry(s.drop_last(), e).push(s.last())
    }
}

/// The entries in git's order: by sort key, entries with equal keys in the
/// order they came (a stable sort).
pub open spec fn sort_entries(s: Seq<(Seq<char>, Seq<char>, Seq<u8>)>) -> Seq<(Seq<char>, Seq<char>, Seq<u8>)>
    decreases s.len(),
{
    if s.len() == 0 {
        Seq::empty()
    } else {
        insert_entry(sort_entries(s.drop_last()), s.last())
    }
}

/// No text comes before itself, and of two texts one does not come before
/// the other both ways.
proof fn lemma_lex_asym(a: Seq<char>, b: Seq<char>)
    ensures
        lex_lt(a, b) ==> !lex_lt(b, a),
    decreases a.len(),
{
    if a.len() > 0 && b.len() > 0 && a[0] == b[0] {
        lemma_lex_asym(a.drop_first(), b.drop_first());
    }
}

/// Coming before is transitive.
proof fn lemma_lex_trans(a: Seq<char>, b: Seq<char>, c: Seq<char>)
    ensures
        lex_lt(a, b) && lex_lt(b, c) ==> lex_lt(a, c),
    decreases a.len(),
{
    if a.len() > 0 && b.len() > 0 && c.len() > 0 && a[0] == b[0] && b[0] == c[0] {
        lemma_lex_trans(a.drop_first(), b.drop_first(), c.drop_first());
    }
}

/// Of two different texts, one comes before the other.
proof fn lemma_lex_total(a: Seq<char>, b: Seq<char>)
    ensures
        a == b || lex_lt(a, b) || lex_lt(b, a),
    decreases a.len(),
{
    if a.len() > 0 && b.len() > 0 {
        if a[0] == b[0] {
            lemma_lex_total(a.drop_first(), b.drop_first());
            if a.drop_first() == b.drop_first() {
                assert(a =~= seq![a[0]] + a.drop_first());
                assert(b =~= seq![b[0]] + b.drop_first());
            }
        }
    } else if a.len() == 0 && b.len() == 0 {
        assert(a =~= b);
    }
}

/// Whether entries come in order of their sort keys.
pub open spec fn keys_sorted(s: Seq<(Seq<char>, Seq<char>, Seq<u8>)>) -> bool {
    forall|i: int, j: int| 0 <= i < j < s.len() ==> !lex_lt(sort_key(s[j]), sort_key(s[i]))
}

proof fn lemma_insert_entry_sorted(s: Seq<(Seq<char>, Seq<char>, Seq<u8>)>, e: (Seq<char>, Seq<char>, Seq<u8>))
    requires
        keys_sorted(s),
    ensures
        keys_sorted(insert_entry(s, e)),
        insert_entry(s, e).to_multiset() == s.to_multiset().insert(e),
    decreases s.len(),
{
    broadcast use vstd::seq_lib::group_to_multiset_ensures;
    if s.len() == 0 {
        assert(seq![e].to_multiset() =~= Seq::<(Seq<char>, Seq<char>, Seq<u8>)>::empty().to_multiset().insert(e)) by {
            assert(seq![e] =~= Seq::<(Seq<char>, Seq<char>, Seq<u8>)>::empty().push(e));
        }
    } else if !lex_lt(sort_key(e), sort_key(s.last())) {
        let r = s.push(e);
        assert forall|i: int, j: int| 0 <= i < j < r.len() implies !lex_lt(sort_key(r[j]), sort_key(r[i])) by {
            if j == s.len() {
                let ki = sort_key(s[i]);
                let kl = sort_key(s.last());
                let ke = sort_key(e);
                if i < s.len() - 1 {
                    assert(!lex_lt(kl, ki));
                }
                lemma_lex_total(ki, kl);
                if lex_lt(ke, ki) {
                    lemma_lex_trans(ke, ki, kl);
                }
            } else {
                assert(r[i] == s[i] && r[j] == s[j]);
            }
        }
    } else {
        let t = s.drop_last();
        let last = s.last();
        assert(keys_sorted(t)) by {
            assert forall|i: int, j: int| 0 <= i < j < t.len() implies !lex_lt(sort_key(t[j]), sort_key(t[i])) by {
                assert(t[i] == s[i] && t[j] == s[j]);
            }
        }
        lemma_insert_entry_sorted(t, e);
        let u = insert_entry(t, e);
        let r = u.push(last);
        assert(s =~= t.push(last));
        assert forall|x| #[trigger] u.to_multiset().count(x) > 0 implies (x == e || t.contains(x)) by {
            assert(u.to_multiset().count(x) == t.to_multiset().insert(e).count(x));
            if x != e {
                assert(t.to_multiset().count(x) > 0);
            }
        }
        assert forall|i: int, j: int| 0 <= i < j < r.len() implies !lex_lt(sort_key(r[j]), sort_key(r[i])) by {
            if j == u.len() {
                let x = u[i];
                assert(u.contains(x));
                assert(u.to_multiset().count(x) > 0);
                if x == e {
                    lemma_lex_asym(sort_key(e), sort_key(last));
                } else {
                    let k = choose|k: int| 0 <= k < t.len() && t[k] == x;
                    assert(s[k] == x);
                }
            } else {
                assert(r[i] == u[i] && r[j] == u[j]);
            }
        }
        assert(r.to_multiset() =~= s.to_multiset().insert(e)) by {
            assert(r.to_multiset() == u.to_multiset().insert(last));
            assert(s.to_multiset() == t.to_multiset().insert(last));
        }
    }
}

/// The entries of a tree come in git's order: sorted by key, and the same
/// entries as were given.
pub proof fn law_sorted_entries(s: Seq<(Seq<char>, Seq<char>, Seq<u8>)>)
    ensures
        keys_sorted(sort_entries(s)),
        sort_entries(s).to_multiset() == s.to_multiset(),
    decreases s.len(),
{
    broadcast use vstd::seq_lib::group_to_multiset_ensures;
    if s.len() > 0 {
        law_sorted_entries(s.drop_last());
        lemma_insert_entry_sorted(sort_entries(s.drop_last()), s.last());
        assert(s =~= s.drop_last().push(s.last()));
    }
}

/// Whether the characters `a` come strictly before `b`.
pub fn chars_lt(a: &Vec<char>, b: &Vec<char>) -> (res: bool)
    ensures
        res == lex_lt(a@, b@),
{
    let mut i: usize = 0;
    assert(a@.skip(0) =~= a@);
    assert(b@.skip(0) =~= b@);
    while i < a.len() && i < b.len() && a[i] == b[i]
        invariant
            i <= a.len(),
            i <= b.len(),
            lex_lt(a@, b@) == lex_lt(a@.skip(i as int), b@.skip(i as int)),
        decreases a.len() - i,
    {
        proof {
            assert(a@.skip(i as int).drop_first() =~= a@.skip(i + 1));
            assert(b@.skip(i as int).drop_first() =~= b@.skip(i + 1));
        }
        i = i + 1;
    }
    proof {
        if i < a.len() {
            assert(a@.skip(i as int)[0] == a@[i as int]);
        }
        if i < b.len() {
            assert(b@.skip(i as int)[0] == b@[i as int]);
        }
    }
    if i == a.len() {
        i < b.len()
    } else if i == b.len() {
        false
    } else {
        a[i] < b[i]
    }
}

/// The sort key of an entry, as characters.
fn key_chars(e: &(String, String, Vec<u8>)) -> (res: Vec<char>)
    ensures
        res@ == sort_key((e.0@, e.1@, e.2@)),
{
    let mut k = crate::text::chars_of(e.1.as_str());
    if e.0 == "40000".to_string() {
        proof {
            reveal_strlit("40000");
            assert("40000"@ =~= dir_mode());
        }
        k.push('/');
        assert(k@ =~= e.1@ + seq!['/']);
    } else {
        proof {
            reveal_strlit("40000");
            assert(e.0@ != dir_mode()) by {
                if e.0@ == dir_mode() {
                    assert("40000"@ =~= dir_mode());
                }
            }
        }
    }
    k
}

/// Inserting at the position after the last entry that does not come after
/// `e` is `insert_entry`.
proof fn lemma_insert_at(
    s: Seq<(Seq<char>, Seq<char>, Seq<u8>)>,
    e: (Seq<char>, Seq<char>, Seq<u8>),
    j: int,
)
    requires
        0 <= j <= s.len(),
        j == 0 || !lex_lt(sort_key(e), sort_key(s[j - 1])),
        forall|q: int| j <= q < s.len() ==> lex_lt(sort_key(e), #[trigger] sort_key(s[q])),
    ensures
        insert_entry(s, e) == s.take(j).push(e) + s.skip(j),
    decreases s.len(),
{
    if s.len() == j {
        assert(s.skip(j) =~= Seq::<(Seq<char>, Seq<char>, Seq<u8>)>::empty());
        assert(s.take(j) =~= s);
        if s.len() > 0 {
            assert(s.last() == s[j - 1]);
        }
        assert(s.take(j).push(e) + s.skip(j) =~= s.push(e));
    } else {
        let t = s.drop_last();
        assert(lex_lt(sort_key(e), sort_key(s[s.len() - 1])));
        assert forall|q: int| j <= q < t.len() implies lex_lt(sort_key(e), #[trigger] sort_key(t[q])) by {
            assert(t[q] == s[q]);
        }
        if j > 0 {
            assert(t[j - 1] == s[j - 1]);
        }
        lemma_insert_at(t, e, j);
        assert(t.take(j) =~= s.take(j));
        assert((t.take(j).push(e) + t.skip(j)).push(s.last()) =~= s.take(j).push(e) + s.skip(j));
    }
}

/// The entries in git's order: by name, a subtree's name taken with a `/`
/// after it; entries with equal keys stay in the order they came.
pub fn sort_tree_entries(v: Vec<(String, String, Vec<u8>)>) -> (res: Vec<(String, String, Vec<u8>)>)
    ensures
        tree_input_view(res@) == sort_entries(tree_input_view(v@)),
{
    let ghost vv = tree_input_view(v@);
    let mut out: Vec<(String, String, Vec<u8>)> = Vec::new();
    let mut keys: Vec<Vec<char>> = Vec::new();
    let mut i: usize = 0;
    let mut src = v;
    let ghost sv = tree_input_view(src@);
    assert(tree_input_view(out@) =~= sort_entries(vv.take(0)));
    while i < src.len()
        invariant
            i <= src.len(),
            sv == tree_input_view(src@),
            sv == vv,
            keys@.len() == out@.len(),
            forall|q: int| 0 <= q < keys@.len() ==> #[trigger] keys@[q]@ == sort_key(tree_input_view(out@)[q]),
            tree_input_view(out@) == sort_entries(vv.take(i as int)),
        decreases src.len() - i,
    {
        let ghost t = vv.take(i + 1);
        assert(t.drop_last() =~= vv.take(i as int));
        let ghost before = tree_input_view(out@);
        let e = (src[i].0.clone(), src[i].1.clone(), src[i].2.clone());
        assert(e.2@ =~= src@[i as int].2@);
        let ghost ev = (e.0@, e.1@, e.2@);
        assert(ev == vv[i as int]);
        let k = key_chars(&e);
        let mut j: usize = out.len();
        while j > 0 && chars_lt(&k, &keys[j - 1])
            invariant
                j <= out@.len(),
                keys@.len() == out@.len(),
                before == tree_input_view(out@),
                k@ == sort_key(ev),
                forall|q: int| 0 <= q < keys@.len() ==> #[trigger] keys@[q]@ == sort_key(before[q]),
                forall|q: int| j <= q < before.len() ==> lex_lt(sort_key(ev), #[trigger] sort_key(before[q])),
            decreases j,
        {
            assert(keys@[j - 1]@ == sort_key(before[j - 1]));
            j = j - 1;
        }
        if j > 0 {
            assert(keys@[j - 1]@ == sort_key(before[j - 1]));
        }
        proof {
            lemma_insert_at(before, ev, j as int);
        }
        let ghost kb = keys@;
        out.insert(j, e);
        keys.insert(j, k);
        proof {
            let after = tree_input_view(out@);
            assert(after =~= before.take(j as int).push(ev) + before.skip(j as int));
            assert forall|q: int| 0 <= q < keys@.len() implies #[trigger] keys@[q]@ == sort_key(after[q]) by {
                if q < j {
                    assert(keys@[q] == kb[q]);
                    assert(kb[q]@ == sort_key(before[q]));
                    assert(after[q] == before[q]);
                } else if q > j {
                    assert(keys@[q] == kb[q - 1]);
                    assert(kb[q - 1]@ == sort_key(before[q - 1]));
                    assert(after[q] == before[q - 1]);
                } else {
                    assert(after[q] == ev);
                }
            }
        }
        i = i + 1;
    }
    assert(vv.take(src.len() as int) =~= vv);
    out
}

/// Whether `k` names a directory right under `dir` (the top directory being
/// empty): one more component, without a `/`.
pub open spec fn is_child_dir(dir: Seq<char>, k: Seq<char>) -> bool {
    if dir.len() == 0 {
        k.len() > 0 && !has_char(k, '/')
    } else {
        starts_with(k, dir + seq!['/']) && !has_char(k.subrange(dir.len() + 1int, k.len() as int), '/')
    }
}

/// The name of the directory `k` within `dir`.
pub open spec fn child_name(dir: Seq<char>, k: Seq<char>) -> Seq<char> {
    if dir.len() == 0 {
        k
    } else {
        k.subrange(dir.len() + 1int, k.len() as int)
    }
}

/// The directories of `g` right under `dir`, in the order of `g`.
pub open spec fn child_dirs(
    g: Seq<(Seq<char>, Seq<(Seq<char>, Seq<char>, Seq<u8>)>)>,
    dir: Seq<char>,
) -> Seq<Seq<char>>
    decreases g.len(),
{
    if g.len() == 0 {
        Seq::empty()
    } else {
        let r = child_dirs(g.drop_last(), dir);
        if is_child_dir(dir, g.last().0) {
            r.push(g.last().0)
        } else {
            r
        }
    }
}

/// The file entries that `g` holds for `dir`; none where it holds none.
pub open spec fn group_files(
    g: Seq<(Seq<char>, Seq<(Seq<char>, Seq<char>, Seq<u8>)>)>,
    dir: Seq<char>,
) -> Seq<(Seq<char>, Seq<char>, Seq<u8>)> {
    if pairs_map(g).contains_key(dir) {
        pairs_map(g)[dir]
    } else {
        Seq::empty()
    }
}

/// The tree of `dir`, built from the groups of file entries `g` (directory,
/// entries): its hash, and the contents of each tree built for it, its
/// subtrees first; `None` where directories nest deeper than `fuel`.
pub open spec fn tree_build(
    g: Seq<(Seq<char>, Seq<(Seq<char>, Seq<char>, Seq<u8>)>)>,
    dir: Seq<char>,
    fuel: nat,
) -> Option<(Seq<u8>, Seq<Seq<u8>>)>
    decreases fuel, 0nat,
{
    if fuel == 0 {
        None
    } else {
        match kid_entries(g, dir, child_dirs(g, dir), (fuel - 1) as nat) {
            None => None,
            Some((ents, objs)) => {
                let content = tree_bytes(sort_entries(group_files(g, dir) + ents));
                Some((sha1_of(object_bytes(Kind::Tree, content)), objs.push(content)))
            },
        }
    }
}

/// The entries that the subdirectories `kids` of `dir` add (each a tree
/// entry with the hash of its tree), and the trees built for them.
pub open spec fn kid_entries(
    g: Seq<(Seq<char>, Seq<(Seq<char>, Seq<char>, Seq<u8>)>)>,
    dir: Seq<char>,
    kids: Seq<Seq<char>>,
    fuel: nat,
) -> Option<(Seq<(Seq<char>, Seq<char>, Seq<u8>)>, Seq<Seq<u8>>)>
    decreases fuel, kids.len(),
{
    if kids.len() == 0 {
        Some((Seq::empty(), Seq::empty()))
    } else {
        match kid_entries(g, dir, kids.drop_last(), fuel) {
            None => None,
            Some((es, os)) => match tree_build(g, kids.last(), fuel) {
                None => None,
                Some((h, o2)) => Some((es.push((dir_mode(), child_name(dir, kids.last()), h)), os + o2)),
            },
        }
    }
}

/// The subdirectories that a prefix of the groups names come first among
/// those that all of them name.
proof fn lemma_child_dirs_prefix(
    g: Seq<(Seq<char>, Seq<(Seq<char>, Seq<char>, Seq<u8>)>)>,
    dir: Seq<char>,
    j: int,
)
    requires
        0 <= j <= g.len(),
    ensures
        child_dirs(g.take(j), dir).len() <= child_dirs(g, dir).len(),
        child_dirs(g, dir).take(child_dirs(g.take(j), dir).len() as int) == child_dirs(g.take(j), dir),
    decreases g.len(),
{
    if j == g.len() {
        assert(g.take(j) =~= g);
        assert(child_dirs(g, dir).take(child_dirs(g, dir).len() as int) =~= child_dirs(g, dir));
    } else {
        let t = g.drop_last();
        assert(t.take(j) =~= g.take(j));
        lemma_child_dirs_prefix(t, dir, j);
        let n = child_dirs(g.take(j), dir).len() as int;
        if is_child_dir(dir, g.last().0) {
            assert(child_dirs(g, dir).take(n) =~= child_dirs(t, dir).take(n));
        }
    }
}

/// Where the entries of some first subdirectories are not defined, those of
/// all are not.
proof fn lemma_kid_entries_none(
    g: Seq<(Seq<char>, Seq<(Seq<char>, Seq<char>, Seq<u8>)>)>,
    dir: Seq<char>,
    kids: Seq<Seq<char>>,
    n: int,
    fuel: nat,
)
    requires
        0 <= n <= kids.len(),
        kid_entries(g, dir, kids.take(n), fuel) is None,
    ensures
        kid_entries(g, dir, kids, fuel) is None,
    decreases kids.len(),
{
    if n == kids.len() {
        assert(kids.take(n) =~= kids);
    } else {
        let t = kids.drop_last();
        assert(t.take(n) =~= kids.take(n));
        lemma_kid_entries_none(g, dir, t, n, fuel);
    }
}

/// The view of groups of file entries.
pub open spec fn groups_view(v: Seq<(String, Vec<(String, String, Vec<u8>)>)>) -> Seq<
    (Seq<char>, Seq<(Seq<char>, Seq<char>, Seq<u8>)>),
> {
    v.map_values(|e: (String, Vec<(String, String, Vec<u8>)>)| (e.0@, tree_input_view(e.1@)))
}

/// The trees that tree contents make.
pub open spec fn trees_of(cs: Seq<Seq<u8>>) -> Seq<GitObjectView> {
    cs.map_values(|c: Seq<u8>| built_object(Kind::Tree, c))
}

/// The views of objects.
pub open spec fn objects_of(v: Seq<GitObject>) -> Seq<GitObjectView> {
    v.map_values(|o: GitObject| o@)
}

/// Whether `c` is `/`.
fn is_slash(c: char) -> (res: bool)
    ensures
        res == (c == '/'),
{
    c == '/'
}

/// Whether the characters from `from` on hold no `/`.
fn no_slash_from(cs: &Vec<char>, from: usize) -> (res: bool)
    requires
        from <= cs.len(),
    ensures
        res == !has_char(cs@.subrange(from as int, cs.len() as int), '/'),
{
    let mut i = from;
    while i < cs.len()
        invariant
            from <= i <= cs.len(),
            forall|q: int| from <= q < i ==> cs@[q] != '/',
        decreases cs.len() - i,
    {
        if is_slash(cs[i]) {
            assert(cs@.subrange(from as int, cs.len() as int)[i - from] == '/');
            return false;
        }
        i = i + 1;
    }
    assert forall|q: int| 0 <= q < cs@.subrange(from as int, cs.len() as int).len() implies cs@.subrange(
        from as int,
        cs.len() as int,
    )[q] != '/' by {
        assert(cs@.subrange(from as int, cs.len() as int)[q] == cs@[from + q]);
    }
    true
}

/// The name of `k` within `dir`, where `k` is a directory right under `dir`.
fn child_dir_name(dir: &String, k: &String) -> (res: Option<String>)
    ensures
        match res {
            Some(n) => is_child_dir(dir@, k@) && n@ == child_name(dir@, k@),
            None => !is_child_dir(dir@, k@),
        },
{
    let dc = chars_of(dir.as_str());
    let kc = chars_of(k.as_str());
    assert(kc@.subrange(0, kc@.len() as int) =~= kc@);
    if dc.len() == 0 {
        if kc.len() > 0 && no_slash_from(&kc, 0) {
            return Some(k.clone());
        }
        return None;
    }
    if kc.len() <= dc.len() {
        return None;
    }
    let mut i: usize = 0;
    while i < dc.len()
        invariant
            i <= dc.len(),
            dc.len() < kc.len(),
            dc@ == dir@,
            kc@ == k@,
            forall|q: int| 0 <= q < i ==> kc@[q] == dc@[q],
        decreases dc.len() - i,
    {
        if kc[i] != dc[i] {
            assert(kc@.subrange(0, dc@.len() + 1int)[i as int] != (dc@ + seq!['/'])[i as int]);
            return None;
        }
        i = i + 1;
    }
    if !is_slash(kc[dc.len()]) {
        assert(kc@.subrange(0, dc@.len() + 1int)[dc.len() as int] != (dc@ + seq!['/'])[dc.len() as int]);
        return None;
    }
    assert(kc@.subrange(0, dc@.len() + 1int) =~= dc@ + seq!['/']);
    if !no_slash_from(&kc, dc.len() + 1) {
        return None;
    }
    Some(string_of(kc.as_slice(), dc.len() + 1, kc.len()))
}

/// A copy of tree entries.
fn copy_entries(v: &Vec<(String, String, Vec<u8>)>) -> (res: Vec<(String, String, Vec<u8>)>)
    ensures
        tree_input_view(res@) == tree_input_view(v@),
{
    let mut out: Vec<(String, String, Vec<u8>)> = Vec::new();
    let mut i: usize = 0;
    while i < v.len()
        invariant
            i <= v.len(),
            out@.len() == i,
            tree_input_view(out@) == tree_input_view(v@).take(i as int),
        decreases v.len() - i,
    {
        let a = v[i].0.clone();
        let b = v[i].1.clone();
        let c = v[i].2.clone();
        assert(c@ =~= v@[i as int].2@);
        let ghost item = (a@, b@, c@);
        out.push((a, b, c));
        assert(tree_input_view(out@)[i as int] == item);
        assert(tree_input_view(out@) =~= tree_input_view(v@).take(i + 1));
        i = i + 1;
    }
    assert(tree_input_view(v@).take(v.len() as int) =~= tree_input_view(v@));
    out
}

/// Builds the tree of `dir` from the groups of file entries (directory,
/// entries), appending each tree built to `objects`, its subtrees first;
/// returns the hex hash of the tree, or `None` where directories nest deeper
/// than `fuel`.
pub fn build_tree_recursive(
    groups: &Vec<(String, Vec<(String, String, Vec<u8>)>)>,
    dir: &String,
    fuel: usize,
    objects: &mut Vec<GitObject>,
) -> (res: Option<String>)
    requires
        keys_distinct(groups_view(groups@)),
    ensures
        match tree_build(groups_view(groups@), dir@, fuel as nat) {
            None => res is None,
            Some((h, objs)) => res matches Some(t) && t@ == hex_encoded(h) && objects_of(final(objects)@)
                == objects_of(old(objects)@) + trees_of(objs),
        },
    decreases fuel,
{
    if fuel == 0 {
        return None;
    }
    let ghost gv = groups_view(groups@);
    let ghost f = (fuel - 1) as nat;
    let mut files: Vec<(String, String, Vec<u8>)> = Vec::new();
    match find_key(groups, dir) {
        Some(i) => {
            proof {
                lemma_pairs_map_has(gv, i as int);
            }
            files = copy_entries(&groups[i].1);
        },
        None => {
            proof {
                lemma_pairs_map_lacks(gv, dir@);
            }
        },
    }
    assert(tree_input_view(files@) == group_files(gv, dir@));
    let mut subs: Vec<(String, String, Vec<u8>)> = Vec::new();
    let ghost mut built: Seq<Seq<u8>> = Seq::empty();
    let ghost start = objects_of(objects@);
    let mut i: usize = 0;
    assert(gv.take(0) =~= Seq::<(Seq<char>, Seq<(Seq<char>, Seq<char>, Seq<u8>)>)>::empty());
    assert(tree_input_view(subs@) =~= Seq::<(Seq<char>, Seq<char>, Seq<u8>)>::empty());
    assert(trees_of(built) =~= Seq::<GitObjectView>::empty());
    assert(start + trees_of(built) =~= start);
    while i < groups.len()
        invariant
            i <= groups.len(),
            fuel >= 1,
            f == fuel - 1,
            gv == groups_view(groups@),
            keys_distinct(gv),
            start == objects_of(old(objects)@),
            kid_entries(gv, dir@, child_dirs(gv.take(i as int), dir@), f) == Some((tree_input_view(subs@), built)),
            objects_of(objects@) == start + trees_of(built),
        decreases groups.len() - i,
    {
        let ghost t = gv.take(i + 1);
        assert(t.drop_last() =~= gv.take(i as int));
        assert(t.last() == gv[i as int]);
        let ghost kids0 = child_dirs(gv.take(i as int), dir@);
        assert(gv[i as int].0 == groups@[i as int].0@);
        match child_dir_name(dir, &groups[i].0) {
            None => {},
            Some(name) => {
                let ghost kids = kids0.push(gv[i as int].0);
                assert(kids.drop_last() =~= kids0);
                let ghost before_objs = objects_of(objects@);
                let sub = build_tree_recursive(groups, &groups[i].0, fuel - 1, objects);
                match sub {
                    None => {
                        proof {
                            let full = child_dirs(gv, dir@);
                            lemma_child_dirs_prefix(gv, dir@, i + 1);
                            assert(gv.take(i + 1) == t);
                            lemma_kid_entries_none(gv, dir@, full, kids.len() as int, f);
                        }
                        return None;
                    },
                    Some(hex) => {
                        let ghost h = tree_build(gv, gv[i as int].0, f).unwrap().0;
                        let ghost o2 = tree_build(gv, gv[i as int].0, f).unwrap().1;
                        proof {
                            assert(tree_build(gv, gv[i as int].0, f) is Some);
                            assert(hex@ == hex_encoded(h));
                            lemma_hex_roundtrip(h);
                            assert(hex_decoded(hex@) is Some);
                        }
                        let bytes = match hex_decode(hex.as_str()) {
                            Ok(b) => b,
                            Err(_) => {
                                return None;
                            },
                        };
                        let ghost sb = tree_input_view(subs@);
                        subs.push(("40000".to_string(), name, bytes));
                        proof {
                            reveal_strlit("40000");
                            assert("40000"@ =~= dir_mode());
                            assert(tree_input_view(subs@) =~= sb.push((dir_mode(), child_name(dir@, gv[i as int].0), h)));
                            assert(trees_of(built + o2) =~= trees_of(built) + trees_of(o2));
                            assert(objects_of(objects@) =~= start + trees_of(built + o2));
                            built = built + o2;
                        }
                    },
                }
            },
        }
        i = i + 1;
    }
    assert(gv.take(groups.len() as int) =~= gv);
    let mut all = files;
    let ghost fv = tree_input_view(all@);
    let ghost sv = tree_input_view(subs@);
    let mut k: usize = 0;
    while k < subs.len()
        invariant
            k <= subs.len(),
            sv == tree_input_view(subs@),
            tree_input_view(all@) == fv + sv.take(k as int),
        decreases subs.len() - k,
    {
        let a = subs[k].0.clone();
        let b = subs[k].1.clone();
        let c = subs[k].2.clone();
        assert(c@ =~= subs@[k as int].2@);
        let ghost before = tree_input_view(all@);
        let ghost item = (a@, b@, c@);
        all.push((a, b, c));
        assert(tree_input_view(all@) =~= before.push(item));
        assert(fv + sv.take(k + 1) =~= (fv + sv.take(k as int)).push(sv[k as int]));
        k = k + 1;
    }
    assert(sv.take(subs.len() as int) =~= sv);
    let sorted = sort_tree_entries(all);
    let content = tree_contents(&sorted);
    let ghost cv = content@;
    let obj = match GitObject::build(Kind::Tree, content) {
        Ok(o) => o,
        Err(_) => {
            return None;
        },
    };
    let hex = obj.hex_string();
    let ghost before_last = objects_of(objects@);
    objects.push(obj);
    proof {
        assert(objects_of(objects@) =~= before_last.push(built_object(Kind::Tree, cv)));
        assert(trees_of(built.push(cv)) =~= trees_of(built).push(built_object(Kind::Tree, cv)));
    }
    Some(hex)
}

/// How many of the groups are for directories longer than `n` characters.
pub open spec fn count_longer(g: Seq<(Seq<char>, Seq<(Seq<char>, Seq<char>, Seq<u8>)>)>, n: int) -> nat
    decreases g.len(),
{
    if g.len() == 0 {
        0
    } else {
        count_longer(g.drop_last(), n) + if g.last().0.len() > n {
            1nat
        } else {
            0nat
        }
    }
}

proof fn lemma_count_longer_le(g: Seq<(Seq<char>, Seq<(Seq<char>, Seq<char>, Seq<u8>)>)>, a: int, b: int)
    requires
        a >= b,
    ensures
        count_longer(g, a) <= count_longer(g, b),
    decreases g.len(),
{
    if g.len() > 0 {
        lemma_count_longer_le(g.drop_last(), a, b);
    }
}

proof fn lemma_count_longer_strict(g: Seq<(Seq<char>, Seq<(Seq<char>, Seq<char>, Seq<u8>)>)>, i: int, d: int)
    requires
        0 <= i < g.len(),
        g[i].0.len() > d,
    ensures
        count_longer(g, g[i].0.len() as int) < count_longer(g, d),
    decreases g.len(),
{
    let t = g.drop_last();
    let kl = g[i].0.len() as int;
    if i == g.len() - 1 {
        lemma_count_longer_le(t, kl, d);
    } else {
        assert(t[i] == g[i]);
        lemma_count_longer_strict(t, i, d);
    }
}

/// The subdirectories of `dir` are groups of `g`, longer than `dir`.
proof fn lemma_child_dirs_keys(g: Seq<(Seq<char>, Seq<(Seq<char>, Seq<char>, Seq<u8>)>)>, dir: Seq<char>)
    ensures
        forall|j: int|
            0 <= j < child_dirs(g, dir).len() ==> exists|i: int|
                0 <= i < g.len() && g[i].0 == #[trigger] child_dirs(g, dir)[j] && g[i].0.len() > dir.len(),
    decreases g.len(),
{
    if g.len() > 0 {
        let t = g.drop_last();
        lemma_child_dirs_keys(t, dir);
        let c = child_dirs(g, dir);
        let ct = child_dirs(t, dir);
        assert forall|j: int| 0 <= j < c.len() implies exists|i: int|
            0 <= i < g.len() && g[i].0 == #[trigger] c[j] && g[i].0.len() > dir.len() by {
            if j < ct.len() {
                assert(c[j] == ct[j]);
                let i = choose|i: int| 0 <= i < t.len() && t[i].0 == ct[j] && t[i].0.len() > dir.len();
                assert(g[i] == t[i]);
            } else {
                let k = g[g.len() - 1].0;
                assert(c[j] == k);
                assert(is_child_dir(dir, k));
                if dir.len() > 0 {
                    assert(starts_with(k, dir + seq!['/']));
                }
            }
        }
    }
}

/// Fuel beyond the number of longer directories builds the tree.
proof fn lemma_tree_build_some(g: Seq<(Seq<char>, Seq<(Seq<char>, Seq<char>, Seq<u8>)>)>, dir: Seq<char>, fuel: nat)
    requires
        fuel > count_longer(g, dir.len() as int),
    ensures
        tree_build(g, dir, fuel) is Some,
    decreases fuel, 0nat,
{
    let kids = child_dirs(g, dir);
    lemma_child_dirs_keys(g, dir);
    assert forall|j: int| 0 <= j < kids.len() implies (fuel - 1) as nat > count_longer(g, (#[trigger] kids[j]).len() as int) by {
        let i = choose|i: int| 0 <= i < g.len() && g[i].0 == kids[j] && g[i].0.len() > dir.len();
        lemma_count_longer_strict(g, i, dir.len() as int);
    }
    lemma_kid_entries_some(g, dir, kids, (fuel - 1) as nat);
}

proof fn lemma_kid_entries_some(
    g: Seq<(Seq<char>, Seq<(Seq<char>, Seq<char>, Seq<u8>)>)>,
    dir: Seq<char>,
    kids: Seq<Seq<char>>,
    fuel: nat,
)
    requires
        forall|j: int| 0 <= j < kids.len() ==> fuel > count_longer(g, (#[trigger] kids[j]).len() as int),
    ensures
        kid_entries(g, dir, kids, fuel) is Some,
    decreases fuel, kids.len(),
{
    if kids.len() > 0 {
        let t = kids.drop_last();
        assert forall|j: int| 0 <= j < t.len() implies fuel > count_longer(g, (#[trigger] t[j]).len() as int) by {
            assert(t[j] == kids[j]);
        }
        lemma_kid_entries_some(g, dir, t, fuel);
        assert(fuel > count_longer(g, kids[kids.len() - 1].len() as int));
        lemma_tree_build_some(g, kids.last(), fuel);
    }
}

/// There are no more longer directories than groups.
proof fn lemma_count_longer_bound(g: Seq<(Seq<char>, Seq<(Seq<char>, Seq<char>, Seq<u8>)>)>, n: int)
    ensures
        count_longer(g, n) <= g.len(),
    decreases g.len(),
{
    if g.len() > 0 {
        lemma_count_longer_bound(g.drop_last(), n);
    }
}

/// Builds the trees of the groups of file entries (directory, entries): the
/// hex hash of the top tree, and every tree built, subtrees first.
pub fn build_trees(groups: &Vec<(String, Vec<(String, String, Vec<u8>)>)>) -> (res: (String, Vec<GitObject>))
    requires
        keys_distinct(groups_view(groups@)),
        groups@.len() < usize::MAX,
    ensures
        tree_build(groups_view(groups@), Seq::empty(), (groups@.len() + 1) as nat) matches Some((h, objs))
            && res.0@ == hex_encoded(h) && objects_of(res.1@) == trees_of(objs),
{
    let mut objects: Vec<GitObject> = Vec::new();
    let top = String::new();
    proof {
        lemma_count_longer_bound(groups_view(groups@), 0);
        lemma_tree_build_some(groups_view(groups@), Seq::empty(), (groups@.len() + 1) as nat);
        assert(objects_of(objects@) =~= Seq::<GitObjectView>::empty());
    }
    match build_tree_recursive(groups, &top, groups.len() + 1, &mut objects) {
        Some(h) => {
            proof {
                let objs = tree_build(groups_view(groups@), Seq::empty(), (groups@.len() + 1) as nat).unwrap().1;
                assert(Seq::<GitObjectView>::empty() + trees_of(objs) =~= trees_of(objs));
            }
            (h, objects)
        },
        None => (String::new(), objects),
    }
}

/// The directory part of a path, as `std::path::Path::parent` gives it.
pub uninterp spec fn path_parent_of(path: Seq<char>) -> Option<Seq<char>>;

/// The last component of a path, as `std::path::Path::file_name` gives it.
pub uninterp spec fn path_file_name_of(path: Seq<char>) -> Option<Seq<char>>;

/// Calls `std::path::Path::parent`: the path without its last component
/// (`Some("")` for a relative path of one component; `None` for a root or
/// empty path), as text. The contract names the outcome, which depends on
/// the path alone.
#[verifier::external_body]
fn path_parent(path: &str) -> (res: Option<String>)
    ensures
        match res {
            Some(p) => path_parent_of(path@) == Some(p@),
            None => path_parent_of(path@) is None,
        },
{
    match std::path::Path::new(path).parent() {
        Some(p) => match p.to_str() {
            Some(t) => Some(t.to_string()),
            None => None,
        },
        None => None,
    }
}

/// Calls `std::path::Path::file_name`: the last component of the path, as
/// text (`None` where the path ends in `..`, or is a root or empty). The
/// contract names the outcome, which depends on the path alone.
#[verifier::external_body]
fn path_file_name(path: &str) -> (res: Option<String>)
    ensures
        match res {
            Some(n) => path_file_name_of(path@) == Some(n@),
            None => path_file_name_of(path@) is None,
        },
{
    match std::path::Path::new(path).file_name() {
        Some(n) => match n.to_str() {
            Some(t) => Some(t.to_string()),
            None => None,
        },
        None => None,
    }
}

/// Why staged files cannot make a tree.
pub enum StageFault {
    /// This blob hash is not hex.
    BadHash(Seq<char>),
    /// This path has no file name.
    BadPath(Seq<char>),
}

/// The (directory, entry) items of staged (mode, hash, path) files, in
/// order; the first file whose hash is not hex or whose path has no file
/// name is a fault.
pub open spec fn staged_items(st: Seq<(Seq<char>, Seq<char>, Seq<char>)>) -> Result<
    Seq<(Seq<char>, (Seq<char>, Seq<char>, Seq<u8>))>,
    StageFault,
>
    decreases st.len(),
{
    if st.len() == 0 {
        Ok(Seq::empty())
    } else {
        let (m, h, p) = st[0];
        match hex_decoded(h) {
            None => Err(StageFault::BadHash(h)),
            Some(hb) => match path_file_name_of(p) {
                None => Err(StageFault::BadPath(p)),
                Some(name) => match staged_items(st.drop_first()) {
                    Err(e) => Err(e),
                    Ok(rest) => {
                        let dir = match path_parent_of(p) {
                            Some(d) => d,
                            None => Seq::empty(),
                        };
                        Ok(seq![(dir, (m, name, hb))] + rest)
                    },
                },
            },
        }
    }
}

/// Items in front of an outcome.
pub open spec fn prepend_items(
    a: Seq<(Seq<char>, (Seq<char>, Seq<char>, Seq<u8>))>,
    r: Result<Seq<(Seq<char>, (Seq<char>, Seq<char>, Seq<u8>))>, StageFault>,
) -> Result<Seq<(Seq<char>, (Seq<char>, Seq<char>, Seq<u8>))>, StageFault> {
    match r {
        Ok(x) => Ok(a + x),
        Err(e) => Err(e),
    }
}

/// The groups that items make: each directory once, in the order it first
/// comes, with its entries in order.
pub open spec fn group_items(items: Seq<(Seq<char>, (Seq<char>, Seq<char>, Seq<u8>))>) -> Seq<
    (Seq<char>, Seq<(Seq<char>, Seq<char>, Seq<u8>)>),
>
    decreases items.len(),
{
    if items.len() == 0 {
        Seq::empty()
    } else {
        add_to_group(group_items(items.drop_last()), items.last().0, items.last().1)
    }
}

/// The position of the group of `d`; the number of groups where there is
/// none.
pub open spec fn group_index(g: Seq<(Seq<char>, Seq<(Seq<char>, Seq<char>, Seq<u8>)>)>, d: Seq<char>) -> int
    decreases g.len(),
{
    if g.len() == 0 {
        0int
    } else if g.last().0 == d {
        g.len() - 1
    } else if group_index(g.drop_last(), d) < g.len() - 1 {
        group_index(g.drop_last(), d)
    } else {
        g.len() as int
    }
}

/// The groups once `e` is added to the group of `d`, or to a new group.
pub open spec fn add_to_group(
    g: Seq<(Seq<char>, Seq<(Seq<char>, Seq<char>, Seq<u8>)>)>,
    d: Seq<char>,
    e: (Seq<char>, Seq<char>, Seq<u8>),
) -> Seq<(Seq<char>, Seq<(Seq<char>, Seq<char>, Seq<u8>)>)> {
    let i = group_index(g, d);
    if i < g.len() {
        g.update(i, (d, g[i].1.push(e)))
    } else {
        g.push((d, seq![e]))
    }
}

proof fn lemma_group_index(g: Seq<(Seq<char>, Seq<(Seq<char>, Seq<char>, Seq<u8>)>)>, d: Seq<char>)
    requires
        keys_distinct(g),
    ensures
        0 <= group_index(g, d) <= g.len(),
        group_index(g, d) < g.len() ==> g[group_index(g, d)].0 == d,
        group_index(g, d) == g.len() ==> forall|q: int| 0 <= q < g.len() ==> g[q].0 != d,
    decreases g.len(),
{
    if g.len() > 0 {
        let t = g.drop_last();
        assert(keys_distinct(t)) by {
            assert forall|a: int, b: int| 0 <= a < t.len() && 0 <= b < t.len() && a != b implies t[a].0 != t[b].0 by {
                assert(t[a] == g[a] && t[b] == g[b]);
            }
        }
        lemma_group_index(t, d);
        if g.last().0 != d {
            assert forall|q: int| 0 <= q < t.len() implies t[q] == g[q] by {}
        }
    }
}

/// Adds `e` to the group of `d`.
fn add_entry(groups: &mut Vec<(String, Vec<(String, String, Vec<u8>)>)>, d: String, e: (String, String, Vec<u8>))
    requires
        keys_distinct(groups_view(old(groups)@)),
    ensures
        keys_distinct(groups_view(final(groups)@)),
        groups_view(final(groups)@) == add_to_group(groups_view(old(groups)@), d@, (e.0@, e.1@, e.2@)),
{
    let ghost gv = groups_view(groups@);
    let ghost ev = (e.0@, e.1@, e.2@);
    proof {
        lemma_group_index(gv, d@);
    }
    match find_key(groups, &d) {
        Some(i) => {
            assert(group_index(gv, d@) == i) by {
                if group_index(gv, d@) != i {
                    if group_index(gv, d@) < gv.len() {
                        assert(gv[group_index(gv, d@)].0 == gv[i as int].0);
                    } else {
                        assert(gv[i as int].0 == d@);
                    }
                }
            }
            let (k, mut es) = groups.remove(i);
            let ghost ov = tree_input_view(es@);
            es.push(e);
            assert(tree_input_view(es@) =~= ov.push(ev));
            groups.insert(i, (k, es));
            proof {
                assert(groups_view(groups@) =~= gv.update(i as int, (d@, gv[i as int].1.push(ev))));
                lemma_pairs_map_update(gv, i as int, gv[i as int].1.push(ev));
            }
        },
        None => {
            assert(group_index(gv, d@) == gv.len()) by {
                if group_index(gv, d@) < gv.len() {
                    assert(gv[group_index(gv, d@)].0 == d@);
                }
            }
            let mut es: Vec<(String, String, Vec<u8>)> = Vec::new();
            es.push(e);
            assert(tree_input_view(es@) =~= seq![ev]);
            let ghost dv = d@;
            groups.push((d, es));
            proof {
                assert(groups_view(groups@) =~= gv.push((dv, seq![ev])));
                lemma_pairs_map_push(gv, dv, seq![ev]);
            }
        },
    }
}

/// The tree that staged files make: the hash of the top tree and the
/// contents of every tree built, subtrees first; or why they make none.
pub open spec fn staged_tree(sv: Seq<(Seq<char>, Seq<char>, Seq<char>)>) -> Result<
    Option<(Seq<u8>, Seq<Seq<u8>>)>,
    StageFault,
> {
    match staged_items(sv) {
        Err(e) => Err(e),
        Ok(items) => Ok(tree_build(group_items(items), Seq::empty(), (group_items(items).len() + 1) as nat)),
    }
}

/// The view of staged (mode, hash, path) files.
pub open spec fn staged_view(v: Seq<(String, String, String)>) -> Seq<(Seq<char>, Seq<char>, Seq<char>)> {
    v.map_values(|e: (String, String, String)| (e.0@, e.1@, e.2@))
}

/// Builds the trees of the staged (mode, blob hash, path) files: the hex
/// hash of the top tree, and the trees to store, subtrees first. Files are
/// grouped by the directory of their path; a directory becomes a subtree of
/// the directory right above it where that one holds files too (or is the
/// top).
pub fn write_tree(staged: &Vec<(String, String, String)>) -> (res: Result<(String, Vec<GitObject>), GitError>)
    requires
        staged@.len() < usize::MAX,
    ensures
        staged@.len() == 0 ==> res matches Err(GitError::NothingToCommit),
        staged@.len() > 0 ==> match staged_tree(staged_view(staged@)) {
            Err(StageFault::BadHash(h)) => res matches Err(GitError::InvalidHash(t)) && t@ == h,
            Err(StageFault::BadPath(p)) => res matches Err(GitError::InvalidPath(t)) && t@ == p,
            Ok(built) => res matches Ok((hash, objs)) && built matches Some((h, cs)) && hash@ == hex_encoded(h)
                && objects_of(objs@) == trees_of(cs),
        },
{
    if staged.len() == 0 {
        return Err(GitError::NothingToCommit);
    }
    let ghost sv = staged_view(staged@);
    let mut groups: Vec<(String, Vec<(String, String, Vec<u8>)>)> = Vec::new();
    let ghost mut items: Seq<(Seq<char>, (Seq<char>, Seq<char>, Seq<u8>))> = Seq::empty();
    let mut i: usize = 0;
    assert(sv.skip(0) =~= sv);
    assert(prepend_items(items, staged_items(sv)) =~~= staged_items(sv)) by {
        match staged_items(sv) {
            Ok(x) => {
                assert(items + x =~= x);
            },
            Err(_) => {},
        }
    }
    assert(groups_view(groups@) =~= Seq::<(Seq<char>, Seq<(Seq<char>, Seq<char>, Seq<u8>)>)>::empty());
    while i < staged.len()
        invariant
            i <= staged.len(),
            sv == staged_view(staged@),
            staged_items(sv) == prepend_items(items, staged_items(sv.skip(i as int))),
            keys_distinct(groups_view(groups@)),
            groups_view(groups@) == group_items(items),
            items.len() <= i,
            groups@.len() <= i,
            staged@.len() < usize::MAX,
        decreases staged.len() - i,
    {
        let ghost rest = sv.skip(i as int);
        assert(rest[0] == sv[i as int]);
        assert(rest.drop_first() =~= sv.skip(i + 1));
        let hb = match hex_decode(staged[i].1.as_str()) {
            Ok(b) => b,
            Err(_) => {
                return Err(GitError::InvalidHash(staged[i].1.clone()));
            },
        };
        let name = match path_file_name(staged[i].2.as_str()) {
            Some(n) => n,
            None => {
                return Err(GitError::InvalidPath(staged[i].2.clone()));
            },
        };
        let dir = match path_parent(staged[i].2.as_str()) {
            Some(d) => d,
            None => String::new(),
        };
        let ghost item = (dir@, (staged@[i as int].0@, name@, hb@));
        proof {
            match staged_items(sv.skip(i + 1)) {
                Ok(x) => {
                    assert(items + (seq![item] + x) =~= items.push(item) + x);
                },
                Err(_) => {},
            }
            assert(items.push(item).drop_last() =~= items);
        }
        let ghost gb = groups_view(groups@);
        add_entry(&mut groups, dir, (staged[i].0.clone(), name, hb));
        proof {
            lemma_group_index(gb, item.0);
            assert(groups_view(groups@).len() <= gb.len() + 1);
            items = items.push(item);
        }
        i = i + 1;
    }
    assert(sv.skip(i as int) =~= Seq::<(Seq<char>, Seq<char>, Seq<char>)>::empty());
    assert(items + Seq::<(Seq<char>, (Seq<char>, Seq<char>, Seq<u8>))>::empty() =~= items);
    let (hash, objects) = build_trees(&groups);
    Ok((hash, objects))
}

/// The name under which a directory right under `dir` enters `dir`'s tree
/// is one path component: it holds no `/`, and `dir`, a `/` and the name
/// spell the directory's path (the name is the whole path right under the
/// top directory).
pub proof fn law_child_name(dir: Seq<char>, k: Seq<char>)
    requires
        is_child_dir(dir, k),
    ensures
        !has_char(child_name(dir, k), '/'),
        dir.len() == 0 ==> child_name(dir, k) == k,
        dir.len() > 0 ==> dir + seq!['/'] + child_name(dir, k) == k,
{
    if dir.len() > 0 {
        let p = dir + seq!['/'];
        assert(k.subrange(0, p.len() as int) == p);
        assert(p + k.subrange(p.len() as int, k.len() as int) =~= k);
    }
}

} // verus!
