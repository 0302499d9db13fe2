//! Line-based three-way merging: a longest common subsequence, the chunks in
//! which a version differs from a base, and the merge of two versions' chunks.
use vstd::prelude::*;

verus! {

/// The text of each line.
pub open spec fn lines_view(v: Seq<String>) -> Seq<Seq<char>> {
    v.map_values(|s: String| s@)
}

/// Length of a longest common subsequence of `a.take(i)` and `b.take(j)`.
pub open spec fn lcs_len(a: Seq<Seq<char>>, b: Seq<Seq<char>>, i: nat, j: nat) -> nat
    decreases i + j,
{
    if i == 0 || j == 0 {
        0
    } else if a[i - 1] == b[j - 1] {
        lcs_len(a, b, (i - 1) as nat, (j - 1) as nat) + 1
    } else {
        let x = lcs_len(a, b, (i - 1) as nat, j);
        let y = lcs_len(a, b, i, (j - 1) as nat);
        if x >= y {
            x
        } else {
            y
        }
    }
}

/// The longest common subsequence of `a.take(i)` and `b.take(j)` that the
/// usual table walk picks: it goes back along equal last lines, and otherwise
/// drops the last line of `a` unless that shortens the result more than
/// dropping the last line of `b`.
pub open spec fn lcs_seq(a: Seq<Seq<char>>, b: Seq<Seq<char>>, i: nat, j: nat) -> Seq<Seq<char>>
    decreases i + j,
{
    if i == 0 || j == 0 {
        Seq::empty()
    } else if a[i - 1] == b[j - 1] {
        lcs_seq(a, b, (i - 1) as nat, (j - 1) as nat).push(a[i - 1])
    } else if lcs_len(a, b, (i - 1) as nat, j) >= lcs_len(a, b, i, (j - 1) as nat) {
        lcs_seq(a, b, (i - 1) as nat, j)
    } else {
        lcs_seq(a, b, i, (j - 1) as nat)
    }
}

/// The longest common subsequence of two whole line lists.
pub open spec fn lcs_of(a: Seq<Seq<char>>, b: Seq<Seq<char>>) -> Seq<Seq<char>> {
    lcs_seq(a, b, a.len(), b.len())
}

proof fn lemma_lcs_len_bounds(a: Seq<Seq<char>>, b: Seq<Seq<char>>, i: nat, j: nat)
    ensures
        lcs_len(a, b, i, j) <= i,
        lcs_len(a, b, i, j) <= j,
    decreases i + j,
{
    if i > 0 && j > 0 {
        lemma_lcs_len_bounds(a, b, (i - 1) as nat, (j - 1) as nat);
        lemma_lcs_len_bounds(a, b, (i - 1) as nat, j);
        lemma_lcs_len_bounds(a, b, i, (j - 1) as nat);
    }
}

fn clone_lines_reversed(v: &Vec<String>) -> (r: Vec<String>)
    ensures
        r@ == v@.reverse(),
{
    let mut r: Vec<String> = Vec::new();
    let mut k = v.len();
    while k > 0
        invariant
            k <= v.len(),
            r@ =~= v@.subrange(k as int, v.len() as int).reverse(),
        decreases k,
    {
        k = k - 1;
        r.push(v[k].clone());
        assert(r@ =~= v@.subrange(k as int, v.len() as int).reverse());
    }
    assert(v@.subrange(0, v.len() as int) =~= v@);
    r
}

/// A longest common subsequence of two line lists, through a table of
/// prefix lengths.
pub fn lcs(a: &[String], b: &[String]) -> (res: Vec<String>)
    ensures
        lines_view(res@) == lcs_of(lines_view(a@), lines_view(b@)),
{
    let ghost la = lines_view(a@);
    let ghost lb = lines_view(b@);
    let m = a.len();
    let n = b.len();
    let mut dp: Vec<Vec<usize>> = Vec::new();
    let mut row0: Vec<usize> = Vec::new();
    row0.push(0);
    for j in 0..n
        invariant
            row0.len() == j + 1,
            forall|k: int| 0 <= k <= j ==> row0@[k] == 0,
    {
        row0.push(0);
    }
    dp.push(row0);
    for i in 0..m
        invariant
            m == a.len(),
            n == b.len(),
            la == lines_view(a@),
            lb == lines_view(b@),
            dp.len() == i + 1,
            forall|ii: int| 0 <= ii <= i ==> (#[trigger] dp@[ii]).len() == n + 1,
            forall|ii: int, jj: int|
                0 <= ii <= i && 0 <= jj <= n ==> dp@[ii]@[jj] == lcs_len(la, lb, ii as nat, jj as nat),
    {
        let mut cur: Vec<usize> = Vec::new();
        cur.push(0);
        for j in 0..n
            invariant
                m == a.len(),
                n == b.len(),
                i < m,
                la == lines_view(a@),
                lb == lines_view(b@),
                dp.len() == i + 1,
                forall|ii: int| 0 <= ii <= i ==> (#[trigger] dp@[ii]).len() == n + 1,
                forall|ii: int, jj: int|
                    0 <= ii <= i && 0 <= jj <= n ==> dp@[ii]@[jj] == lcs_len(la, lb, ii as nat, jj as nat),
                cur.len() == j + 1,
                forall|jj: int| 0 <= jj <= j ==> cur@[jj] == lcs_len(la, lb, (i + 1) as nat, jj as nat),
        {
            proof {
                lemma_lcs_len_bounds(la, lb, i as nat, j as nat);
            }
            let v = if a[i] == b[j] {
                dp[i][j] + 1
            } else {
                let up = dp[i][j + 1];
                let left = cur[j];
                if up >= left {
                    up
                } else {
                    left
                }
            };
            cur.push(v);
        }
        dp.push(cur);
    }
    let mut rev: Vec<String> = Vec::new();
    let mut i = m;
    let mut j = n;
    while i > 0 && j > 0
        invariant
            m == a.len(),
            n == b.len(),
            la == lines_view(a@),
            lb == lines_view(b@),
            i <= m,
            j <= n,
            dp.len() == m + 1,
            forall|ii: int| 0 <= ii <= m ==> (#[trigger] dp@[ii]).len() == n + 1,
            forall|ii: int, jj: int|
                0 <= ii <= m && 0 <= jj <= n ==> dp@[ii]@[jj] == lcs_len(la, lb, ii as nat, jj as nat),
            lcs_of(la, lb) =~= lcs_seq(la, lb, i as nat, j as nat) + lines_view(rev@).reverse(),
        decreases i + j,
    {
        if a[i - 1] == b[j - 1] {
            let ghost before = rev@;
            rev.push(a[i - 1].clone());
            assert(lines_view(rev@).reverse() =~= seq![la[i - 1]] + lines_view(before).reverse());
            i = i - 1;
            j = j - 1;
        } else if dp[i - 1][j] >= dp[i][j - 1] {
            i = i - 1;
        } else {
            j = j - 1;
        }
    }
    let res = clone_lines_reversed(&rev);
    assert(lines_view(res@) =~= lines_view(rev@).reverse());
    res
}


/// Whether `common.skip(ci)` is a subsequence of `s.skip(k)`, matched greedily
/// from the left.
pub open spec fn embeds(common: Seq<Seq<char>>, ci: int, s: Seq<Seq<char>>, k: int) -> bool
    decreases s.len() - k,
{
    if ci >= common.len() {
        true
    } else if k >= s.len() || k < 0 {
        false
    } else if s[k] == common[ci] {
        embeds(common, ci + 1, s, k + 1)
    } else {
        embeds(common, ci, s, k + 1)
    }
}

/// The first position at or after `k` where `x` occurs in `s`, or `s.len()`.
pub open spec fn first_from(s: Seq<Seq<char>>, x: Seq<char>, k: int) -> int
    decreases s.len() - k,
{
    if k >= s.len() || k < 0 {
        s.len() as int
    } else if s[k] == x {
        k
    } else {
        first_from(s, x, k + 1)
    }
}

/// Where a side of the diff gets back in step with the common lines: the
/// next occurrence of the next common line, or the end when none is left.
pub open spec fn sync_point(s: Seq<Seq<char>>, common: Seq<Seq<char>>, ci: int, k: int) -> int {
    if 0 <= ci < common.len() {
        first_from(s, common[ci], k)
    } else {
        s.len() as int
    }
}

/// A chunk: the base lines `base_start..base_end` are replaced by `lines`.
pub type ChunkView = (int, int, Seq<Seq<char>>);

pub proof fn lemma_first_from_bounds(s: Seq<Seq<char>>, x: Seq<char>, k: int)
    requires
        0 <= k <= s.len(),
    ensures
        k <= first_from(s, x, k) <= s.len(),
        first_from(s, x, k) < s.len() ==> s[first_from(s, x, k)] == x,
        forall|p: int| k <= p < first_from(s, x, k) ==> s[p] != x,
    decreases s.len() - k,
{
    if k < s.len() && s[k] != x {
        lemma_first_from_bounds(s, x, k + 1);
    }
}

/// The chunks in which `new.skip(ni)` differs from `base.skip(bi)`, walking
/// both in step along `common.skip(ci)`: equal lines that are the next common
/// line are passed together; elsewhere each side is read up to its next
/// occurrence of the next common line (or to its end when no common line is
/// left), and the base lines read are replaced by the new lines read.
pub open spec fn diff_walk(
    base: Seq<Seq<char>>,
    new: Seq<Seq<char>>,
    common: Seq<Seq<char>>,
    bi: int,
    ni: int,
    ci: int,
) -> Seq<ChunkView>
    decreases base.len() + new.len() - bi - ni,
{
    if !(0 <= bi <= base.len() && 0 <= ni <= new.len() && 0 <= ci) {
        Seq::empty()
    } else if bi == base.len() && ni == new.len() {
        Seq::empty()
    } else if ci < common.len() && bi < base.len() && ni < new.len() && base[bi] == common[ci]
        && new[ni] == common[ci] {
        diff_walk(base, new, common, bi + 1, ni + 1, ci + 1)
    } else {
        let be = sync_point(base, common, ci, bi);
        let ne = sync_point(new, common, ci, ni);
        proof {
            if ci < common.len() {
                lemma_first_from_bounds(base, common[ci], bi);
                lemma_first_from_bounds(new, common[ci], ni);
            }
        }
        if be == bi && ne == ni {
            Seq::empty()
        } else {
            seq![(bi, be, new.subrange(ni, ne))] + diff_walk(base, new, common, be, ne, ci)
        }
    }
}

/// The chunks in which `new` differs from `base`, along their longest common
/// subsequence.
pub open spec fn diff_chunks_of(base: Seq<Seq<char>>, new: Seq<Seq<char>>) -> Seq<ChunkView> {
    diff_walk(base, new, lcs_of(base, new), 0, 0, 0)
}

/// A chunk in which new lines differ from base lines: the base lines
/// `base_start..base_end` are replaced by `lines`.
pub struct Chunk {
    pub base_start: usize,
    pub base_end: usize,
    pub lines: Vec<String>,
}

/// The view of a chunk.
pub open spec fn chunk_view(c: Chunk) -> ChunkView {
    (c.base_start as int, c.base_end as int, lines_view(c.lines@))
}

/// The views of chunks.
pub open spec fn chunks_view(cs: Seq<Chunk>) -> Seq<ChunkView> {
    cs.map_values(|c: Chunk| chunk_view(c))
}

proof fn lemma_embeds_skip(common: Seq<Seq<char>>, ci: int, s: Seq<Seq<char>>, k: int, p: int)
    requires
        0 <= k <= p <= s.len(),
        0 <= ci,
        embeds(common, ci, s, k),
        forall|q: int| k <= q < p ==> ci < common.len() && s[q] != common[ci],
    ensures
        embeds(common, ci, s, p),
    decreases p - k,
{
    if k < p {
        assert(s[k] != common[ci]);
        lemma_embeds_skip(common, ci, s, k + 1, p);
    }
}

proof fn lemma_embeds_end(common: Seq<Seq<char>>, ci: int, s: Seq<Seq<char>>, k: int)
    requires
        0 <= ci,
        k == s.len(),
        embeds(common, ci, s, k),
    ensures
        ci >= common.len(),
{
}

fn push_lines(result: &mut Vec<String>, src: &[String], from: usize, to: usize)
    requires
        from <= to <= src.len(),
    ensures
        final(result)@ == old(result)@ + src@.subrange(from as int, to as int),
{
    let mut k = from;
    while k < to
        invariant
            from <= k <= to,
            to <= src.len(),
            result@ == old(result)@ + src@.subrange(from as int, k as int),
        decreases to - k,
    {
        result.push(src[k].clone());
        k = k + 1;
        assert(result@ =~= old(result)@ + src@.subrange(from as int, k as int));
    }
}

proof fn lemma_lines_view_concat(a: Seq<String>, b: Seq<String>)
    ensures
        lines_view(a + b) == lines_view(a) + lines_view(b),
{
    assert(lines_view(a + b) =~= lines_view(a) + lines_view(b));
}

proof fn lemma_lines_view_subrange(a: Seq<String>, i: int, j: int)
    requires
        0 <= i <= j <= a.len(),
    ensures
        lines_view(a.subrange(i, j)) == lines_view(a).subrange(i, j),
{
    assert(lines_view(a.subrange(i, j)) =~= lines_view(a).subrange(i, j));
}

/// The chunks in which `new` differs from `base`, given a common subsequence
/// of both.
fn diff_chunks_along(base: &[String], new: &[String], lcs: &Vec<String>) -> (res: Vec<Chunk>)
    requires
        embeds(lines_view(lcs@), 0, lines_view(base@), 0),
        embeds(lines_view(lcs@), 0, lines_view(new@), 0),
    ensures
        chunks_view(res@) == diff_walk(lines_view(base@), lines_view(new@), lines_view(lcs@), 0, 0, 0),
{
    let ghost lb = lines_view(base@);
    let ghost ln = lines_view(new@);
    let ghost lc = lines_view(lcs@);
    let mut chunks: Vec<Chunk> = Vec::new();
    let mut bi: usize = 0;
    let mut ni: usize = 0;
    let mut lcs_i: usize = 0;
    while bi < base.len() || ni < new.len()
        invariant
            lb == lines_view(base@),
            ln == lines_view(new@),
            lc == lines_view(lcs@),
            bi <= base.len(),
            ni <= new.len(),
            lcs_i <= lcs.len(),
            embeds(lc, lcs_i as int, lb, bi as int),
            embeds(lc, lcs_i as int, ln, ni as int),
            diff_walk(lb, ln, lc, 0, 0, 0) == chunks_view(chunks@) + diff_walk(
                lb,
                ln,
                lc,
                bi as int,
                ni as int,
                lcs_i as int,
            ),
        decreases base.len() + new.len() - bi - ni,
    {
        if lcs_i < lcs.len() && bi < base.len() && ni < new.len() && base[bi] == lcs[lcs_i]
            && new[ni] == lcs[lcs_i] {
            bi = bi + 1;
            ni = ni + 1;
            lcs_i = lcs_i + 1;
            continue ;
        }
        let base_start = bi;
        let new_start = ni;
        let mut new_lines: Vec<String> = Vec::new();
        loop
            invariant_except_break
                lb == lines_view(base@),
                ln == lines_view(new@),
                lc == lines_view(lcs@),
                base_start <= bi <= base.len(),
                new_start <= ni <= new.len(),
                lcs_i <= lcs.len(),
                embeds(lc, lcs_i as int, lb, bi as int),
                embeds(lc, lcs_i as int, ln, ni as int),
                forall|q: int| base_start <= q < bi ==> lcs_i < lcs.len() ==> lb[q] != lc[lcs_i as int],
                forall|q: int| new_start <= q < ni ==> lcs_i < lcs.len() ==> ln[q] != lc[lcs_i as int],
                new_lines@ == new@.subrange(new_start as int, ni as int),
            ensures
                lb == lines_view(base@),
                ln == lines_view(new@),
                lc == lines_view(lcs@),
                base_start <= bi <= base.len(),
                new_start <= ni <= new.len(),
                lcs_i <= lcs.len(),
                embeds(lc, lcs_i as int, lb, bi as int),
                embeds(lc, lcs_i as int, ln, ni as int),
                bi == sync_point(lb, lc, lcs_i as int, base_start as int),
                ni == sync_point(ln, lc, lcs_i as int, new_start as int),
                new_lines@ == new@.subrange(new_start as int, ni as int),
            decreases base.len() + new.len() - bi - ni,
        {
            let base_synced = lcs_i < lcs.len() && bi < base.len() && base[bi] == lcs[lcs_i];
            let new_synced = lcs_i < lcs.len() && ni < new.len() && new[ni] == lcs[lcs_i];
            proof {
                if lcs_i < lcs.len() {
                    lemma_first_from_bounds(lb, lc[lcs_i as int], base_start as int);
                    lemma_first_from_bounds(ln, lc[lcs_i as int], new_start as int);
                }
            }
            if !(bi < base.len() || ni < new.len()) {
                proof {
                    if lcs_i < lcs.len() {
                        lemma_embeds_end(lc, lcs_i as int, lb, bi as int);
                    }
                }
                break;
            }
            if base_synced && new_synced {
                break;
            }
            proof {
                if !base_synced && bi == base.len() {
                    lemma_embeds_end(lc, lcs_i as int, lb, bi as int);
                }
                if !new_synced && ni == new.len() {
                    lemma_embeds_end(lc, lcs_i as int, ln, ni as int);
                }
            }
            if !base_synced && bi < base.len() {
                bi = bi + 1;
            }
            if !new_synced && ni < new.len() {
                new_lines.push(new[ni].clone());
                ni = ni + 1;
                assert(new_lines@ =~= new@.subrange(new_start as int, ni as int));
            }
        }
        proof {
            lemma_lines_view_subrange(new@, new_start as int, ni as int);
            if lcs_i < lcs.len() {
                lemma_first_from_bounds(lb, lc[lcs_i as int], base_start as int);
                lemma_first_from_bounds(ln, lc[lcs_i as int], new_start as int);
                if bi == base.len() {
                    lemma_embeds_end(lc, lcs_i as int, lb, bi as int);
                }
                if ni == new.len() {
                    lemma_embeds_end(lc, lcs_i as int, ln, ni as int);
                }
            }
            assert(bi > base_start || ni > new_start);
        }
        if base_start != bi || new_lines.len() > 0 {
            let ghost before = chunks@;
            chunks.push(Chunk { base_start, base_end: bi, lines: new_lines });
            assert(chunks_view(chunks@) =~= chunks_view(before).push(
                (base_start as int, bi as int, ln.subrange(new_start as int, ni as int)),
            ));
        }
    }
    chunks
}


proof fn lemma_embeds_extend(c: Seq<Seq<char>>, ci: int, t: Seq<Seq<char>>, k: int, x: Seq<char>)
    requires
        0 <= ci,
        0 <= k <= t.len(),
        embeds(c, ci, t, k),
    ensures
        embeds(c, ci, t.push(x), k),
    decreases t.len() - k,
{
    if ci < c.len() && k < t.len() {
        assert(t.push(x)[k] == t[k]);
        if t[k] == c[ci] {
            lemma_embeds_extend(c, ci + 1, t, k + 1, x);
        } else {
            lemma_embeds_extend(c, ci, t, k + 1, x);
        }
    }
}

proof fn lemma_embeds_push_both(c: Seq<Seq<char>>, ci: int, t: Seq<Seq<char>>, k: int, x: Seq<char>)
    requires
        0 <= ci <= c.len(),
        0 <= k <= t.len(),
        ci == c.len() || embeds(c, ci, t, k),
    ensures
        embeds(c.push(x), ci, t.push(x), k),
    decreases t.len() - k,
{
    let c2 = c.push(x);
    let t2 = t.push(x);
    if k == t.len() {
        if ci == c.len() {
            assert(t2[k] == c2[ci]);
            assert(embeds(c2, ci + 1, t2, k + 1));
        }
    } else {
        assert(t2[k] == t[k]);
        if ci == c.len() {
            if t[k] != x {
                lemma_embeds_push_both(c, ci, t, k + 1, x);
            } else {
                assert(embeds(c2, ci + 1, t2, k + 1));
            }
        } else {
            assert(c2[ci] == c[ci]);
            if t[k] == c[ci] {
                lemma_embeds_push_both(c, ci + 1, t, k + 1, x);
            } else {
                lemma_embeds_push_both(c, ci, t, k + 1, x);
            }
        }
    }
}

/// The chosen longest common subsequence is a subsequence of both lists.
pub proof fn lemma_lcs_embeds(a: Seq<Seq<char>>, b: Seq<Seq<char>>, i: nat, j: nat)
    requires
        i <= a.len(),
        j <= b.len(),
    ensures
        embeds(lcs_seq(a, b, i, j), 0, a.take(i as int), 0),
        embeds(lcs_seq(a, b, i, j), 0, b.take(j as int), 0),
    decreases i + j,
{
    if i > 0 && j > 0 {
        let i1 = (i - 1) as nat;
        let j1 = (j - 1) as nat;
        assert(a.take(i as int) =~= a.take(i1 as int).push(a[i1 as int]));
        assert(b.take(j as int) =~= b.take(j1 as int).push(b[j1 as int]));
        if a[i - 1] == b[j - 1] {
            lemma_lcs_embeds(a, b, i1, j1);
            lemma_embeds_push_both(lcs_seq(a, b, i1, j1), 0, a.take(i1 as int), 0, a[i1 as int]);
            lemma_embeds_push_both(lcs_seq(a, b, i1, j1), 0, b.take(j1 as int), 0, b[j1 as int]);
        } else if lcs_len(a, b, i1, j) >= lcs_len(a, b, i, j1) {
            lemma_lcs_embeds(a, b, i1, j);
            lemma_embeds_extend(lcs_seq(a, b, i1, j), 0, a.take(i1 as int), 0, a[i1 as int]);
        } else {
            lemma_lcs_embeds(a, b, i, j1);
            lemma_embeds_extend(lcs_seq(a, b, i, j1), 0, b.take(j1 as int), 0, b[j1 as int]);
        }
    }
}

/// The chunks in which `new` differs from `base`.
pub fn diff_chunks(base: &[String], new: &[String]) -> (res: Vec<Chunk>)
    ensures
        chunks_view(res@) == diff_chunks_of(lines_view(base@), lines_view(new@)),
{
    let common = lcs(base, new);
    proof {
        let lb = lines_view(base@);
        let ln = lines_view(new@);
        lemma_lcs_embeds(lb, ln, lb.len(), ln.len());
        assert(lb.take(lb.len() as int) =~= lb);
        assert(ln.take(ln.len() as int) =~= ln);
    }
    diff_chunks_along(base, new, &common)
}

/// The lines that mark a conflict: the local lines and the remote lines,
/// fenced.
pub open spec fn conflict_block(local: Seq<Seq<char>>, remote: Seq<Seq<char>>) -> Seq<Seq<char>> {
    seq!["<<<<<<< LOCAL"@] + local + seq!["======="@] + remote + seq![">>>>>>> REMOTE"@]
}

/// Adds `prefix` in front of a merge result, and `flag` to its conflict flag.
pub open spec fn prepend_merged(
    prefix: Seq<Seq<char>>,
    flag: bool,
    rest: Option<(Seq<Seq<char>>, bool)>,
) -> Option<(Seq<Seq<char>>, bool)> {
    match rest {
        Some((lines, c)) => Some((prefix + lines, flag || c)),
        None => None,
    }
}

/// The merge of two chunk lists over `base`, from base position `pos`: the
/// chunk that starts first is taken with the unchanged base lines before it;
/// two chunks that start together are taken once when their lines agree and
/// as a conflict block otherwise, and the walk goes on after the later of
/// their ends. `None` where the walk would have to read base lines that are
/// behind it or past the end of the base.
pub open spec fn merge_walk(
    base: Seq<Seq<char>>,
    lc: Seq<ChunkView>,
    rc: Seq<ChunkView>,
    pos: int,
) -> Option<(Seq<Seq<char>>, bool)>
    decreases lc.len() + rc.len(),
{
    if lc.len() == 0 && rc.len() == 0 {
        if 0 <= pos <= base.len() {
            Some((base.subrange(pos, base.len() as int), false))
        } else {
            None
        }
    } else if rc.len() == 0 || (lc.len() > 0 && lc[0].0 < rc[0].0) {
        let l = lc[0];
        if 0 <= pos <= l.0 <= base.len() {
            prepend_merged(
                base.subrange(pos, l.0) + l.2,
                false,
                merge_walk(base, lc.drop_first(), rc, l.1),
            )
        } else {
            None
        }
    } else if lc.len() == 0 || rc[0].0 < lc[0].0 {
        let r = rc[0];
        if 0 <= pos <= r.0 <= base.len() {
            prepend_merged(
                base.subrange(pos, r.0) + r.2,
                false,
                merge_walk(base, lc, rc.drop_first(), r.1),
            )
        } else {
            None
        }
    } else {
        let l = lc[0];
        let r = rc[0];
        let end = if l.1 >= r.1 {
            l.1
        } else {
            r.1
        };
        if 0 <= pos <= l.0 <= base.len() {
            if l.2 == r.2 {
                prepend_merged(
                    base.subrange(pos, l.0) + l.2,
                    false,
                    merge_walk(base, lc.drop_first(), rc.drop_first(), end),
                )
            } else {
                prepend_merged(
                    base.subrange(pos, l.0) + conflict_block(l.2, r.2),
                    true,
                    merge_walk(base, lc.drop_first(), rc.drop_first(), end),
                )
            }
        } else {
            None
        }
    }
}

/// The three-way merge of `local` and `remote` against their common `base`,
/// with whether it holds a conflict; `None` where the chunk walk breaks down.
pub open spec fn diff3_of(
    base: Seq<Seq<char>>,
    local: Seq<Seq<char>>,
    remote: Seq<Seq<char>>,
) -> Option<(Seq<Seq<char>>, bool)> {
    merge_walk(base, diff_chunks_of(base, local), diff_chunks_of(base, remote), 0)
}

proof fn lemma_prepend_step(
    prefix: Seq<Seq<char>>,
    f: bool,
    seg: Seq<Seq<char>>,
    g: bool,
    rest: Option<(Seq<Seq<char>>, bool)>,
)
    ensures
        prepend_merged(prefix, f, prepend_merged(seg, g, rest)) == prepend_merged(prefix + seg, f || g, rest),
        prepend_merged(Seq::empty(), false, rest) == rest,
{
    match rest {
        Some((lines, c)) => {
            assert(prefix + (seg + lines) =~= (prefix + seg) + lines);
            assert(Seq::<Seq<char>>::empty() + lines =~= lines);
        },
        None => {},
    }
}

proof fn lemma_drop_first_skip<T>(s: Seq<T>, i: int)
    requires
        0 <= i < s.len(),
    ensures
        s.skip(i).drop_first() == s.skip(i + 1),
        s.skip(i)[0] == s[i],
{
    assert(s.skip(i).drop_first() =~= s.skip(i + 1));
}

#[verifier::rlimit(40)]
/// The three-way merge, or `None` on the inputs on which the chunk walk would
/// have to go back over base lines it has already passed.
pub fn try_diff3_merge(base: &[String], local: &[String], remote: &[String]) -> (res: Option<(Vec<String>, bool)>)
    ensures
        res is None <==> diff3_of(lines_view(base@), lines_view(local@), lines_view(remote@)) is None,
        res matches Some((lines, conflict)) ==> diff3_of(
            lines_view(base@),
            lines_view(local@),
            lines_view(remote@),
        ) == Some((lines_view(lines@), conflict)),
{
    let local_chunks = diff_chunks(base, local);
    let remote_chunks = diff_chunks(base, remote);
    let ghost lb = lines_view(base@);
    let ghost lcv = chunks_view(local_chunks@);
    let ghost rcv = chunks_view(remote_chunks@);
    let mut result: Vec<String> = Vec::new();
    let mut has_conflict = false;
    let mut base_pos: usize = 0;
    let mut li: usize = 0;
    let mut ri: usize = 0;
    proof {
        assert(lcv.skip(0) =~= lcv);
        assert(rcv.skip(0) =~= rcv);
        assert(lines_view(result@) =~= Seq::empty());
        lemma_prepend_step(Seq::empty(), false, Seq::empty(), false, diff3_of(lb, lines_view(local@), lines_view(remote@)));
    }
    loop
        invariant
            lb == lines_view(base@),
            lcv == chunks_view(local_chunks@),
            rcv == chunks_view(remote_chunks@),
            li <= local_chunks.len(),
            ri <= remote_chunks.len(),
            diff3_of(lines_view(base@), lines_view(local@), lines_view(remote@)) == prepend_merged(
                lines_view(result@),
                has_conflict,
                merge_walk(lb, lcv.skip(li as int), rcv.skip(ri as int), base_pos as int),
            ),
        decreases local_chunks.len() + remote_chunks.len() - li - ri,
    {
        let ghost lrest = lcv.skip(li as int);
        let ghost rrest = rcv.skip(ri as int);
        let ghost before = result@;
        if li == local_chunks.len() && ri == remote_chunks.len() {
            if base_pos > base.len() {
                return None;
            }
            push_lines(&mut result, base, base_pos, base.len());
            proof {
                lemma_lines_view_concat(before, base@.subrange(base_pos as int, base.len() as int));
                lemma_lines_view_subrange(base@, base_pos as int, base.len() as int);
            }
            return Some((result, has_conflict));
        }
        if ri == remote_chunks.len() || (li < local_chunks.len()
            && local_chunks[li].base_start < remote_chunks[ri].base_start) {
            let l = &local_chunks[li];
            proof {
                lemma_drop_first_skip(lcv, li as int);
            }
            if base_pos > l.base_start || l.base_start > base.len() {
                return None;
            }
            push_lines(&mut result, base, base_pos, l.base_start);
            let ghost mid = result@;
            push_lines(&mut result, l.lines.as_slice(), 0, l.lines.len());
            proof {
                lemma_lines_view_concat(before, base@.subrange(base_pos as int, l.base_start as int));
                lemma_lines_view_subrange(base@, base_pos as int, l.base_start as int);
                lemma_lines_view_concat(mid, l.lines@.subrange(0, l.lines.len() as int));
                assert(l.lines@.subrange(0, l.lines.len() as int) =~= l.lines@);
                assert(lines_view(result@) =~= lines_view(before) + (lb.subrange(
                    base_pos as int,
                    l.base_start as int,
                ) + lines_view(l.lines@)));
                lemma_prepend_step(lines_view(before), has_conflict, lb.subrange(base_pos as int, l.base_start as int) + lines_view(l.lines@), false, merge_walk(lb, lcv.skip(li + 1), rrest, l.base_end as int));
            }
            base_pos = l.base_end;
            li = li + 1;
        } else if li == local_chunks.len() || remote_chunks[ri].base_start
            < local_chunks[li].base_start {
            let r = &remote_chunks[ri];
            proof {
                lemma_drop_first_skip(rcv, ri as int);
            }
            if base_pos > r.base_start || r.base_start > base.len() {
                return None;
            }
            push_lines(&mut result, base, base_pos, r.base_start);
            let ghost mid = result@;
            push_lines(&mut result, r.lines.as_slice(), 0, r.lines.len());
            proof {
                lemma_lines_view_concat(before, base@.subrange(base_pos as int, r.base_start as int));
                lemma_lines_view_subrange(base@, base_pos as int, r.base_start as int);
                lemma_lines_view_concat(mid, r.lines@.subrange(0, r.lines.len() as int));
                assert(r.lines@.subrange(0, r.lines.len() as int) =~= r.lines@);
                assert(lines_view(result@) =~= lines_view(before) + (lb.subrange(
                    base_pos as int,
                    r.base_start as int,
                ) + lines_view(r.lines@)));
                lemma_prepend_step(lines_view(before), has_conflict, lb.subrange(base_pos as int, r.base_start as int) + lines_view(r.lines@), false, merge_walk(lb, lrest, rcv.skip(ri + 1), r.base_end as int));
            }
            base_pos = r.base_end;
            ri = ri + 1;
        } else {
            let l = &local_chunks[li];
            let r = &remote_chunks[ri];
            proof {
                lemma_drop_first_skip(lcv, li as int);
                lemma_drop_first_skip(rcv, ri as int);
            }
            if base_pos > l.base_start || l.base_start > base.len() {
                return None;
            }
            push_lines(&mut result, base, base_pos, l.base_start);
            let ghost mid = result@;
            let ghost old_conflict = has_conflict;
            proof {
                lemma_lines_view_concat(before, base@.subrange(base_pos as int, l.base_start as int));
                lemma_lines_view_subrange(base@, base_pos as int, l.base_start as int);
            }
            if lines_equal(&l.lines, &r.lines) {
                push_lines(&mut result, l.lines.as_slice(), 0, l.lines.len());
                proof {
                    lemma_lines_view_concat(mid, l.lines@.subrange(0, l.lines.len() as int));
                    assert(l.lines@.subrange(0, l.lines.len() as int) =~= l.lines@);
                    assert(lines_view(result@) =~= lines_view(before) + (lb.subrange(
                        base_pos as int,
                        l.base_start as int,
                    ) + lines_view(l.lines@)));
                }
            } else {
                has_conflict = true;
                result.push("<<<<<<< LOCAL".to_string());
                push_lines(&mut result, l.lines.as_slice(), 0, l.lines.len());
                result.push("=======".to_string());
                push_lines(&mut result, r.lines.as_slice(), 0, r.lines.len());
                result.push(">>>>>>> REMOTE".to_string());
                proof {
                    assert(l.lines@.subrange(0, l.lines.len() as int) =~= l.lines@);
                    assert(r.lines@.subrange(0, r.lines.len() as int) =~= r.lines@);
                    assert(lines_view(result@) =~= lines_view(before) + (lb.subrange(
                        base_pos as int,
                        l.base_start as int,
                    ) + conflict_block(lines_view(l.lines@), lines_view(r.lines@))));
                }
            }
            let end = if l.base_end >= r.base_end {
                l.base_end
            } else {
                r.base_end
            };
            proof {
                let seg = if lines_view(l.lines@) == lines_view(r.lines@) {
                    lines_view(l.lines@)
                } else {
                    conflict_block(lines_view(l.lines@), lines_view(r.lines@))
                };
                lemma_prepend_step(lines_view(before), old_conflict, lb.subrange(base_pos as int, l.base_start as int) + seg, lines_view(l.lines@) != lines_view(r.lines@), merge_walk(lb, lcv.skip(li + 1), rcv.skip(ri + 1), end as int));
            }
            base_pos = end;
            li = li + 1;
            ri = ri + 1;
        }
    }
}

/// Whether two line lists hold the same lines.
fn lines_equal(a: &Vec<String>, b: &Vec<String>) -> (res: bool)
    ensures
        res == (lines_view(a@) == lines_view(b@)),
{
    if a.len() != b.len() {
        assert(lines_view(a@).len() != lines_view(b@).len());
        return false;
    }
    let mut k: usize = 0;
    while k < a.len()
        invariant
            a.len() == b.len(),
            k <= a.len(),
            forall|q: int| 0 <= q < k ==> a@[q]@ == b@[q]@,
        decreases a.len() - k,
    {
        if a[k] != b[k] {
            assert(lines_view(a@)[k as int] != lines_view(b@)[k as int]);
            return false;
        }
        k = k + 1;
    }
    assert(lines_view(a@) =~= lines_view(b@));
    true
}

/// Merges `local` and `remote`, two versions of the line list `base`: lines
/// that only one side changed take that side's change, changes that both
/// sides made alike are taken once, and where the sides changed the same
/// place differently both changes stand between conflict markers. The flag
/// tells whether any conflict is left.
pub fn diff3_merge(base: &[String], local: &[String], remote: &[String]) -> (res: (Vec<String>, bool))
    requires
        diff3_of(lines_view(base@), lines_view(local@), lines_view(remote@)) is Some,
    ensures
        diff3_of(lines_view(base@), lines_view(local@), lines_view(remote@)) == Some(
            (lines_view(res.0@), res.1),
        ),
{
    match try_diff3_merge(base, local, remote) {
        Some(r) => r,
        None => (Vec::new(), false),
    }
}


/// The lines that result from replacing, from base position `pos` on, each
/// chunk's base lines by its lines.
pub open spec fn apply_chunks(base: Seq<Seq<char>>, chunks: Seq<ChunkView>, pos: int) -> Seq<Seq<char>>
    decreases chunks.len(),
{
    if chunks.len() == 0 {
        base.subrange(pos, base.len() as int)
    } else {
        base.subrange(pos, chunks[0].0) + chunks[0].2 + apply_chunks(base, chunks.drop_first(), chunks[0].1)
    }
}

/// Chunks that follow each other from `pos` on without overlapping, inside a
/// base of length `len`.
pub open spec fn chunks_ordered(chunks: Seq<ChunkView>, pos: int, len: int) -> bool
    decreases chunks.len(),
{
    if chunks.len() == 0 {
        0 <= pos <= len
    } else {
        0 <= pos <= chunks[0].0 <= chunks[0].1 <= len && chunks_ordered(chunks.drop_first(), chunks[0].1, len)
    }
}

proof fn lemma_ordered_weaken(chunks: Seq<ChunkView>, pos: int, len: int)
    requires
        chunks_ordered(chunks, pos + 1, len),
        0 <= pos,
    ensures
        chunks_ordered(chunks, pos, len),
{
}

proof fn lemma_apply_shift(base: Seq<Seq<char>>, chunks: Seq<ChunkView>, pos: int)
    requires
        chunks_ordered(chunks, pos + 1, base.len() as int),
        0 <= pos < base.len(),
    ensures
        apply_chunks(base, chunks, pos) == seq![base[pos]] + apply_chunks(base, chunks, pos + 1),
{
    if chunks.len() == 0 {
        assert(base.subrange(pos, base.len() as int) =~= seq![base[pos]] + base.subrange(pos + 1, base.len() as int));
    } else {
        assert(base.subrange(pos, chunks[0].0) =~= seq![base[pos]] + base.subrange(pos + 1, chunks[0].0));
        let rest = chunks[0].2 + apply_chunks(base, chunks.drop_first(), chunks[0].1);
        assert(base.subrange(pos, chunks[0].0) + chunks[0].2 + apply_chunks(base, chunks.drop_first(), chunks[0].1)
            =~= seq![base[pos]] + (base.subrange(pos + 1, chunks[0].0) + chunks[0].2 + apply_chunks(base, chunks.drop_first(), chunks[0].1)));
    }
}

/// The walk gives ordered chunks, and applying them to the base gives the
/// new lines back.
proof fn lemma_diff_walk(
    base: Seq<Seq<char>>,
    new: Seq<Seq<char>>,
    common: Seq<Seq<char>>,
    bi: int,
    ni: int,
    ci: int,
)
    requires
        0 <= bi <= base.len(),
        0 <= ni <= new.len(),
        0 <= ci,
        embeds(common, ci, base, bi),
        embeds(common, ci, new, ni),
    ensures
        chunks_ordered(diff_walk(base, new, common, bi, ni, ci), bi, base.len() as int),
        apply_chunks(base, diff_walk(base, new, common, bi, ni, ci), bi) == new.subrange(ni, new.len() as int),
    decreases base.len() + new.len() - bi - ni,
{
    let w = diff_walk(base, new, common, bi, ni, ci);
    if bi == base.len() && ni == new.len() {
        assert(new.subrange(ni, new.len() as int) =~= Seq::<Seq<char>>::empty());
        assert(base.subrange(bi, base.len() as int) =~= Seq::<Seq<char>>::empty());
    } else if ci < common.len() && bi < base.len() && ni < new.len() && base[bi] == common[ci]
        && new[ni] == common[ci] {
        lemma_diff_walk(base, new, common, bi + 1, ni + 1, ci + 1);
        lemma_ordered_weaken(w, bi, base.len() as int);
        lemma_apply_shift(base, w, bi);
        assert(new.subrange(ni, new.len() as int) =~= seq![new[ni]] + new.subrange(ni + 1, new.len() as int));
    } else {
        let be = sync_point(base, common, ci, bi);
        let ne = sync_point(new, common, ci, ni);
        if ci < common.len() {
            lemma_first_from_bounds(base, common[ci], bi);
            lemma_first_from_bounds(new, common[ci], ni);
            if bi == base.len() {
                lemma_embeds_end(common, ci, base, bi);
            }
            if ni == new.len() {
                lemma_embeds_end(common, ci, new, ni);
            }
            lemma_embeds_skip(common, ci, base, bi, be);
            lemma_embeds_skip(common, ci, new, ni, ne);
        }
        assert(!(be == bi && ne == ni));
        lemma_diff_walk(base, new, common, be, ne, ci);
        let rest = diff_walk(base, new, common, be, ne, ci);
        let c = (bi, be, new.subrange(ni, ne));
        assert(w == seq![c] + rest);
        assert(w.drop_first() =~= rest);
        assert(base.subrange(bi, bi) =~= Seq::<Seq<char>>::empty());
        assert(new.subrange(ni, new.len() as int) =~= new.subrange(ni, ne) + new.subrange(ne, new.len() as int));
        assert(apply_chunks(base, w, bi) =~= base.subrange(bi, bi) + new.subrange(ni, ne) + apply_chunks(base, rest, be));
    }
}

proof fn lemma_lcs_self(a: Seq<Seq<char>>, i: nat)
    requires
        i <= a.len(),
    ensures
        lcs_seq(a, a, i, i) == a.take(i as int),
    decreases i,
{
    if i > 0 {
        lemma_lcs_self(a, (i - 1) as nat);
        assert(a.take(i as int) =~= a.take(i - 1).push(a[i - 1]));
    }
}

proof fn lemma_diff_walk_self(a: Seq<Seq<char>>, k: int)
    requires
        0 <= k <= a.len(),
    ensures
        diff_walk(a, a, a, k, k, k) == Seq::<ChunkView>::empty(),
    decreases a.len() - k,
{
    if k < a.len() {
        lemma_diff_walk_self(a, k + 1);
    }
}

/// A version differs from itself in no chunk.
proof fn lemma_diff_chunks_self(a: Seq<Seq<char>>)
    ensures
        diff_chunks_of(a, a) == Seq::<ChunkView>::empty(),
{
    lemma_lcs_self(a, a.len());
    assert(a.take(a.len() as int) =~= a);
    lemma_diff_walk_self(a, 0);
}

/// The chunks of a diff are ordered, and applying them to the base gives the
/// new version.
pub proof fn lemma_diff_chunks_apply(base: Seq<Seq<char>>, new: Seq<Seq<char>>)
    ensures
        chunks_ordered(diff_chunks_of(base, new), 0, base.len() as int),
        apply_chunks(base, diff_chunks_of(base, new), 0) == new,
{
    lemma_lcs_embeds(base, new, base.len(), new.len());
    assert(base.take(base.len() as int) =~= base);
    assert(new.take(new.len() as int) =~= new);
    lemma_diff_walk(base, new, lcs_of(base, new), 0, 0, 0);
    assert(new.subrange(0, new.len() as int) =~= new);
}

proof fn lemma_merge_one_side(base: Seq<Seq<char>>, c: Seq<ChunkView>, pos: int)
    requires
        chunks_ordered(c, pos, base.len() as int),
    ensures
        merge_walk(base, c, Seq::empty(), pos) == Some((apply_chunks(base, c, pos), false)),
        merge_walk(base, Seq::empty(), c, pos) == Some((apply_chunks(base, c, pos), false)),
        merge_walk(base, c, c, pos) == Some((apply_chunks(base, c, pos), false)),
    decreases c.len(),
{
    if c.len() > 0 {
        lemma_merge_one_side(base, c.drop_first(), c[0].1);
    }
}

/// Merging a changed local version with an unchanged remote gives the local
/// version, without conflict.
pub proof fn law_merge_remote_unchanged(base: Seq<Seq<char>>, local: Seq<Seq<char>>)
    ensures
        diff3_of(base, local, base) == Some((local, false)),
{
    lemma_diff_chunks_self(base);
    lemma_diff_chunks_apply(base, local);
    lemma_merge_one_side(base, diff_chunks_of(base, local), 0);
}

/// Merging an unchanged local version with a changed remote gives the remote
/// version, without conflict.
pub proof fn law_merge_local_unchanged(base: Seq<Seq<char>>, remote: Seq<Seq<char>>)
    ensures
        diff3_of(base, base, remote) == Some((remote, false)),
{
    lemma_diff_chunks_self(base);
    lemma_diff_chunks_apply(base, remote);
    lemma_merge_one_side(base, diff_chunks_of(base, remote), 0);
}

/// When both sides made the same change, the merge is that change, without
/// conflict.
pub proof fn law_merge_same_change(base: Seq<Seq<char>>, both: Seq<Seq<char>>)
    ensures
        diff3_of(base, both, both) == Some((both, false)),
{
    lemma_diff_chunks_apply(base, both);
    lemma_merge_one_side(base, diff_chunks_of(base, both), 0);
}

} // verus!

verus! {

/// A merge walk that reports a conflict leaves all three conflict markers in
/// its lines.
proof fn lemma_walk_marked(base: Seq<Seq<char>>, lc: Seq<ChunkView>, rc: Seq<ChunkView>, pos: int)
    ensures
        merge_walk(base, lc, rc, pos) matches Some((lines, true)) ==> lines.contains("<<<<<<< LOCAL"@)
            && lines.contains("======="@) && lines.contains(">>>>>>> REMOTE"@),
    decreases lc.len() + rc.len(),
{
    if lc.len() == 0 && rc.len() == 0 {
    } else if rc.len() == 0 || (lc.len() > 0 && lc[0].0 < rc[0].0) {
        let l = lc[0];
        lemma_walk_marked(base, lc.drop_first(), rc, l.1);
        lemma_marked_after(base.subrange(pos, l.0) + l.2, merge_walk(base, lc.drop_first(), rc, l.1));
    } else if lc.len() == 0 || rc[0].0 < lc[0].0 {
        let r = rc[0];
        lemma_walk_marked(base, lc, rc.drop_first(), r.1);
        lemma_marked_after(base.subrange(pos, r.0) + r.2, merge_walk(base, lc, rc.drop_first(), r.1));
    } else {
        let l = lc[0];
        let r = rc[0];
        let end = if l.1 >= r.1 {
            l.1
        } else {
            r.1
        };
        lemma_walk_marked(base, lc.drop_first(), rc.drop_first(), end);
        let rest = merge_walk(base, lc.drop_first(), rc.drop_first(), end);
        if l.2 == r.2 {
            lemma_marked_after(base.subrange(pos, l.0) + l.2, rest);
        } else if 0 <= pos <= l.0 <= base.len() {
            let pre = base.subrange(pos, l.0);
            let cb = conflict_block(l.2, r.2);
            match rest {
                Some((lines, c)) => {
                    let all = pre + cb + lines;
                    let n = pre.len() as int;
                    assert(all[n] == "<<<<<<< LOCAL"@);
                    assert(all[n + 1 + l.2.len()] == "======="@);
                    assert(all[n + 2 + l.2.len() + r.2.len()] == ">>>>>>> REMOTE"@);
                },
                None => {},
            }
        }
    }
}

/// Lines put in front keep the markers that a conflicting walk's lines hold.
proof fn lemma_marked_after(prefix: Seq<Seq<char>>, rest: Option<(Seq<Seq<char>>, bool)>)
    requires
        rest matches Some((lines, true)) ==> lines.contains("<<<<<<< LOCAL"@) && lines.contains("======="@)
            && lines.contains(">>>>>>> REMOTE"@),
    ensures
        prepend_merged(prefix, false, rest) matches Some((all, true)) ==> all.contains("<<<<<<< LOCAL"@)
            && all.contains("======="@) && all.contains(">>>>>>> REMOTE"@),
{
    if let Some((lines, c)) = rest {
        if c {
            let all = prefix + lines;
            let i = choose|i: int| 0 <= i < lines.len() && lines[i] == "<<<<<<< LOCAL"@;
            assert(all[prefix.len() + i] == "<<<<<<< LOCAL"@);
            let j = choose|j: int| 0 <= j < lines.len() && lines[j] == "======="@;
            assert(all[prefix.len() + j] == "======="@);
            let k = choose|k: int| 0 <= k < lines.len() && lines[k] == ">>>>>>> REMOTE"@;
            assert(all[prefix.len() + k] == ">>>>>>> REMOTE"@);
        }
    }
}

/// Where a three-way merge reports a conflict, its lines hold the conflict
/// markers: the `<<<<<<< LOCAL`, `=======` and `>>>>>>> REMOTE` lines.
pub proof fn law_conflict_marked(base: Seq<Seq<char>>, local: Seq<Seq<char>>, remote: Seq<Seq<char>>)
    ensures
        diff3_of(base, local, remote) matches Some((lines, true)) ==> lines.contains("<<<<<<< LOCAL"@)
            && lines.contains("======="@) && lines.contains(">>>>>>> REMOTE"@),
{
    lemma_walk_marked(base, diff_chunks_of(base, local), diff_chunks_of(base, remote), 0);
}

} // verus!

verus! {

/// Whether `x` is a subsequence of `y`: its lines appear in `y` in order.
pub open spec fn is_subseq(x: Seq<Seq<char>>, y: Seq<Seq<char>>) -> bool
    decreases y.len(),
{
    if x.len() == 0 {
        true
    } else if y.len() == 0 {
        false
    } else if x.last() == y.last() {
        is_subseq(x.drop_last(), y.drop_last())
    } else {
        is_subseq(x, y.drop_last())
    }
}

/// A subsequence without its last line is still one.
proof fn lemma_subseq_drop_last(x: Seq<Seq<char>>, y: Seq<Seq<char>>)
    requires
        x.len() > 0,
        is_subseq(x, y),
    ensures
        is_subseq(x.drop_last(), y),
    decreases y.len(), 0nat,
{
    if y.len() > 0 {
        if x.last() == y.last() {
            lemma_subseq_extend(x.drop_last(), y.drop_last(), y.last());
            assert(y.drop_last().push(y.last()) =~= y);
        } else {
            lemma_subseq_drop_last(x, y.drop_last());
            lemma_subseq_extend(x.drop_last(), y.drop_last(), y.last());
            assert(y.drop_last().push(y.last()) =~= y);
        }
    }
}

/// A subsequence of `y` is one of `y` with a line more at its end.
proof fn lemma_subseq_extend(x: Seq<Seq<char>>, y: Seq<Seq<char>>, z: Seq<char>)
    requires
        is_subseq(x, y),
    ensures
        is_subseq(x, y.push(z)),
    decreases y.len(), 1nat,
{
    assert(y.push(z).drop_last() =~= y);
    if x.len() > 0 && x.last() == z {
        lemma_subseq_drop_last(x, y);
    }
}

proof fn lemma_lcs_subseq(a: Seq<Seq<char>>, b: Seq<Seq<char>>, i: nat, j: nat)
    requires
        i <= a.len(),
        j <= b.len(),
    ensures
        is_subseq(lcs_seq(a, b, i, j), a.take(i as int)),
        is_subseq(lcs_seq(a, b, i, j), b.take(j as int)),
        lcs_seq(a, b, i, j).len() == lcs_len(a, b, i, j),
    decreases i + j,
{
    if i > 0 && j > 0 {
        let ai = a.take(i as int);
        let bj = b.take(j as int);
        assert(ai.drop_last() =~= a.take(i - 1));
        assert(bj.drop_last() =~= b.take(j - 1));
        if a[i - 1] == b[j - 1] {
            lemma_lcs_subseq(a, b, (i - 1) as nat, (j - 1) as nat);
            let s = lcs_seq(a, b, (i - 1) as nat, (j - 1) as nat).push(a[i - 1]);
            assert(s.drop_last() =~= lcs_seq(a, b, (i - 1) as nat, (j - 1) as nat));
        } else if lcs_len(a, b, (i - 1) as nat, j) >= lcs_len(a, b, i, (j - 1) as nat) {
            lemma_lcs_subseq(a, b, (i - 1) as nat, j);
            lemma_subseq_extend(lcs_seq(a, b, (i - 1) as nat, j), a.take(i - 1), a[i - 1]);
            assert(a.take(i - 1).push(a[i - 1]) =~= ai);
        } else {
            lemma_lcs_subseq(a, b, i, (j - 1) as nat);
            lemma_subseq_extend(lcs_seq(a, b, i, (j - 1) as nat), b.take(j - 1), b[j - 1]);
            assert(b.take(j - 1).push(b[j - 1]) =~= bj);
        }
    }
}

proof fn lemma_lcs_longest(a: Seq<Seq<char>>, b: Seq<Seq<char>>, i: nat, j: nat, c: Seq<Seq<char>>)
    requires
        i <= a.len(),
        j <= b.len(),
        is_subseq(c, a.take(i as int)),
        is_subseq(c, b.take(j as int)),
    ensures
        c.len() <= lcs_len(a, b, i, j),
    decreases i + j,
{
    if c.len() > 0 {
        let ai = a.take(i as int);
        let bj = b.take(j as int);
        assert(i > 0 && j > 0);
        assert(ai.drop_last() =~= a.take(i - 1));
        assert(bj.drop_last() =~= b.take(j - 1));
        assert(ai.last() == a[i - 1]);
        assert(bj.last() == b[j - 1]);
        if a[i - 1] == b[j - 1] {
            if c.last() == a[i - 1] {
                lemma_lcs_longest(a, b, (i - 1) as nat, (j - 1) as nat, c.drop_last());
            } else {
                lemma_lcs_longest(a, b, (i - 1) as nat, (j - 1) as nat, c);
            }
        } else if c.last() != a[i - 1] {
            lemma_lcs_longest(a, b, (i - 1) as nat, j, c);
        } else {
            lemma_lcs_longest(a, b, i, (j - 1) as nat, c);
        }
    }
}

/// Walking the chunks with the two sides swapped breaks down where the walk
/// does, reports a conflict where it does, and gives the same lines where
/// there is none.
proof fn lemma_merge_walk_swap(base: Seq<Seq<char>>, lc: Seq<ChunkView>, rc: Seq<ChunkView>, pos: int)
    ensures
        merge_walk(base, lc, rc, pos) is None <==> merge_walk(base, rc, lc, pos) is None,
        merge_walk(base, lc, rc, pos) matches Some((m1, c1)) ==> (merge_walk(base, rc, lc, pos) matches Some(
            (m2, c2),
        ) && c1 == c2 && (!c1 ==> m1 == m2)),
    decreases lc.len() + rc.len(),
{
    if lc.len() == 0 && rc.len() == 0 {
    } else if rc.len() == 0 || (lc.len() > 0 && lc[0].0 < rc[0].0) {
        lemma_merge_walk_swap(base, lc.drop_first(), rc, lc[0].1);
    } else if lc.len() == 0 || rc[0].0 < lc[0].0 {
        lemma_merge_walk_swap(base, lc, rc.drop_first(), rc[0].1);
    } else {
        let end = if lc[0].1 >= rc[0].1 {
            lc[0].1
        } else {
            rc[0].1
        };
        let end2 = if rc[0].1 >= lc[0].1 {
            rc[0].1
        } else {
            lc[0].1
        };
        assert(end == end2);
        lemma_merge_walk_swap(base, lc.drop_first(), rc.drop_first(), end);
    }
}

/// Swapping the local and the remote side of a three-way merge changes
/// neither whether the merge is defined nor whether it reports a conflict,
/// and a merge without conflict gives the same lines.
pub proof fn law_merge_swap(base: Seq<Seq<char>>, local: Seq<Seq<char>>, remote: Seq<Seq<char>>)
    ensures
        diff3_of(base, local, remote) is None <==> diff3_of(base, remote, local) is None,
        diff3_of(base, local, remote) matches Some((m1, c1)) ==> (diff3_of(base, remote, local) matches Some(
            (m2, c2),
        ) && c1 == c2 && (!c1 ==> m1 == m2)),
{
    lemma_merge_walk_swap(base, diff_chunks_of(base, local), diff_chunks_of(base, remote), 0);
}

/// Whether a chunk of `cs` replaces base line `i`.
pub open spec fn covers(cs: Seq<ChunkView>, i: int) -> bool {
    exists|k: int| 0 <= k < cs.len() && (#[trigger] cs[k]).0 <= i < cs[k].1
}

/// Whether `c` puts in, at its base position, the lines that a chunk of
/// `lc` or of `rc` puts in there.
pub open spec fn from_side(lc: Seq<ChunkView>, rc: Seq<ChunkView>, c: ChunkView) -> bool {
    ||| exists|k: int| 0 <= k < lc.len() && (#[trigger] lc[k]).0 == c.0 && lc[k].2 == c.2
    ||| exists|k: int| 0 <= k < rc.len() && (#[trigger] rc[k]).0 == c.0 && rc[k].2 == c.2
}

proof fn lemma_ordered_lower(cs: Seq<ChunkView>, p: int, q: int, len: int)
    requires
        chunks_ordered(cs, p, len),
        0 <= q <= p,
    ensures
        chunks_ordered(cs, q, len),
{
}

proof fn lemma_covers_first(cs: Seq<ChunkView>, i: int)
    requires
        cs.len() > 0,
    ensures
        covers(cs, i) <==> (cs[0].0 <= i < cs[0].1 || covers(cs.drop_first(), i)),
{
    if covers(cs, i) {
        let k = choose|k: int| 0 <= k < cs.len() && (#[trigger] cs[k]).0 <= i < cs[k].1;
        if k > 0 {
            assert(cs.drop_first()[k - 1] == cs[k]);
        }
    }
    if covers(cs.drop_first(), i) {
        let k = choose|k: int| 0 <= k < cs.drop_first().len() && (#[trigger] cs.drop_first()[k]).0 <= i < cs.drop_first()[k].1;
        assert(cs[k + 1] == cs.drop_first()[k]);
    }
}

proof fn lemma_from_side_more(lc: Seq<ChunkView>, rc: Seq<ChunkView>, c: ChunkView)
    ensures
        lc.len() > 0 && from_side(lc.drop_first(), rc, c) ==> from_side(lc, rc, c),
        rc.len() > 0 && from_side(lc, rc.drop_first(), c) ==> from_side(lc, rc, c),
{
    if lc.len() > 0 && from_side(lc.drop_first(), rc, c) {
        if exists|k: int| 0 <= k < lc.drop_first().len() && (#[trigger] lc.drop_first()[k]).0 == c.0 && lc.drop_first()[k].2 == c.2 {
            let k = choose|k: int| 0 <= k < lc.drop_first().len() && (#[trigger] lc.drop_first()[k]).0 == c.0 && lc.drop_first()[k].2 == c.2;
            assert(lc[k + 1] == lc.drop_first()[k]);
        }
    }
    if rc.len() > 0 && from_side(lc, rc.drop_first(), c) {
        if exists|k: int| 0 <= k < rc.drop_first().len() && (#[trigger] rc.drop_first()[k]).0 == c.0 && rc.drop_first()[k].2 == c.2 {
            let k = choose|k: int| 0 <= k < rc.drop_first().len() && (#[trigger] rc.drop_first()[k]).0 == c.0 && rc.drop_first()[k].2 == c.2;
            assert(rc[k + 1] == rc.drop_first()[k]);
        }
    }
}

/// A walk over two ordered chunk lists that ends without conflict applies
/// chunks to the base that replace exactly the base lines that either list
/// replaces, each with the lines that one of the lists puts at its place.
proof fn lemma_merge_walk_applies(base: Seq<Seq<char>>, lc: Seq<ChunkView>, rc: Seq<ChunkView>, pos: int)
    requires
        chunks_ordered(lc, 0, base.len() as int),
        chunks_ordered(rc, 0, base.len() as int),
    ensures
        merge_walk(base, lc, rc, pos) matches Some((m, c)) ==> (c || exists|t: Seq<ChunkView>|
            chunks_ordered(t, pos, base.len() as int) && apply_chunks(base, t, pos) == m && (forall|i: int|
                covers(t, i) <==> covers(lc, i) || covers(rc, i)) && (forall|k: int|
                0 <= k < t.len() ==> from_side(lc, rc, #[trigger] t[k]))),
    decreases lc.len() + rc.len(),
{
    let len = base.len() as int;
    if lc.len() > 0 {
        lemma_ordered_lower(lc.drop_first(), lc[0].1, 0, len);
    }
    if rc.len() > 0 {
        lemma_ordered_lower(rc.drop_first(), rc[0].1, 0, len);
    }
    if let Some((m, c)) = merge_walk(base, lc, rc, pos) {
        if !c {
            if lc.len() == 0 && rc.len() == 0 {
                let t = Seq::<ChunkView>::empty();
                assert(apply_chunks(base, t, pos) == m);
                assert forall|i: int| covers(t, i) <==> covers(lc, i) || covers(rc, i) by {}
            } else {
                let first_l = rc.len() == 0 || (lc.len() > 0 && lc[0].0 < rc[0].0);
                let first_r = !first_l && (lc.len() == 0 || rc[0].0 < lc[0].0);
                let (ch, lc2, rc2, next) = if first_l {
                    (lc[0], lc.drop_first(), rc, lc[0].1)
                } else if first_r {
                    (rc[0], lc, rc.drop_first(), rc[0].1)
                } else {
                    let end = if lc[0].1 >= rc[0].1 {
                        lc[0].1
                    } else {
                        rc[0].1
                    };
                    ((lc[0].0, end, lc[0].2), lc.drop_first(), rc.drop_first(), end)
                };
                lemma_merge_walk_applies(base, lc2, rc2, next);
                let (m2, c2) = merge_walk(base, lc2, rc2, next).unwrap();
                assert(!c2);
                assert(m == base.subrange(pos, ch.0) + ch.2 + m2);
                let t2 = choose|t: Seq<ChunkView>|
                    chunks_ordered(t, next, len) && apply_chunks(base, t, next) == m2 && (forall|i: int|
                        covers(t, i) <==> covers(lc2, i) || covers(rc2, i)) && (forall|k: int|
                        0 <= k < t.len() ==> from_side(lc2, rc2, #[trigger] t[k]));
                let t = seq![ch] + t2;
                assert(t.drop_first() =~= t2);
                assert(t[0] == ch);
                assert(chunks_ordered(t, pos, len));
                assert(apply_chunks(base, t, pos) == m);
                assert forall|i: int| covers(t, i) <==> covers(lc, i) || covers(rc, i) by {
                    lemma_covers_first(t, i);
                    if lc.len() > 0 {
                        lemma_covers_first(lc, i);
                    }
                    if rc.len() > 0 {
                        lemma_covers_first(rc, i);
                    }
                }
                assert forall|k: int| 0 <= k < t.len() implies from_side(lc, rc, #[trigger] t[k]) by {
                    if k == 0 {
                        if first_l {
                            assert(lc[0].0 == ch.0 && lc[0].2 == ch.2);
                        } else if first_r {
                            assert(rc[0].0 == ch.0 && rc[0].2 == ch.2);
                        } else {
                            assert(lc[0].0 == ch.0 && lc[0].2 == ch.2);
                        }
                    } else {
                        assert(t[k] == t2[k - 1]);
                        lemma_from_side_more(lc, rc, t[k]);
                        lemma_from_side_more(lc, rc2, t[k]);
                    }
                }
            }
        }
    }
}

/// A three-way merge without conflict is the base with chunks applied that
/// replace exactly the base lines that either side replaced (against the
/// base), each with the lines that one side put at that place; so a base
/// line that one side deleted or replaced is never brought back.
pub proof fn law_clean_merge_applies_both(base: Seq<Seq<char>>, local: Seq<Seq<char>>, remote: Seq<Seq<char>>)
    ensures
        diff3_of(base, local, remote) matches Some((m, c)) ==> (c || exists|t: Seq<ChunkView>|
            chunks_ordered(t, 0, base.len() as int) && apply_chunks(base, t, 0) == m && (forall|i: int|
                covers(t, i) <==> covers(diff_chunks_of(base, local), i) || covers(diff_chunks_of(base, remote), i))
                && (forall|k: int|
                0 <= k < t.len() ==> from_side(
                    diff_chunks_of(base, local),
                    diff_chunks_of(base, remote),
                    #[trigger] t[k],
                ))),
{
    lemma_diff_chunks_apply(base, local);
    lemma_diff_chunks_apply(base, remote);
    lemma_merge_walk_applies(base, diff_chunks_of(base, local), diff_chunks_of(base, remote), 0);
}

/// The lines `lcs` finds are a longest common subsequence: a subsequence of
/// both lists, and no common subsequence is longer.
pub proof fn law_lcs_longest(a: Seq<Seq<char>>, b: Seq<Seq<char>>, c: Seq<Seq<char>>)
    ensures
        is_subseq(lcs_of(a, b), a),
        is_subseq(lcs_of(a, b), b),
        is_subseq(c, a) && is_subseq(c, b) ==> c.len() <= lcs_of(a, b).len(),
{
    lemma_lcs_subseq(a, b, a.len(), b.len());
    assert(a.take(a.len() as int) =~= a);
    assert(b.take(b.len() as int) =~= b);
    if is_subseq(c, a) && is_subseq(c, b) {
        lemma_lcs_longest(a, b, a.len(), b.len(), c);
    }
}

} // verus!

verus! {

/// Whether no line holds a newline.
pub open spec fn no_newlines(ls: Seq<Seq<char>>) -> bool {
    forall|i: int| 0 <= i < ls.len() ==> !crate::text::has_char(#[trigger] ls[i], '\n')
}

/// The lines of the chunks of a diff walk are lines of the new side.
proof fn lemma_walk_plain(
    base: Seq<Seq<char>>,
    new: Seq<Seq<char>>,
    common: Seq<Seq<char>>,
    bi: int,
    ni: int,
    ci: int,
)
    requires
        no_newlines(new),
    ensures
        forall|k: int|
            0 <= k < diff_walk(base, new, common, bi, ni, ci).len() ==> no_newlines(
                #[trigger] diff_walk(base, new, common, bi, ni, ci)[k].2,
            ),
    decreases base.len() + new.len() - bi - ni,
{
    let w = diff_walk(base, new, common, bi, ni, ci);
    if !(0 <= bi <= base.len() && 0 <= ni <= new.len() && 0 <= ci) {
        assert(w.len() == 0);
    } else if bi == base.len() && ni == new.len() {
        assert(w.len() == 0);
    } else if ci < common.len() && bi < base.len() && ni < new.len() && base[bi] == common[ci]
        && new[ni] == common[ci] {
        lemma_walk_plain(base, new, common, bi + 1, ni + 1, ci + 1);
        assert(w == diff_walk(base, new, common, bi + 1, ni + 1, ci + 1));
    } else {
        let be = sync_point(base, common, ci, bi);
        let ne = sync_point(new, common, ci, ni);
        if ci < common.len() {
            lemma_first_from_bounds(base, common[ci], bi);
            lemma_first_from_bounds(new, common[ci], ni);
        }
        if be == bi && ne == ni {
            assert(w.len() == 0);
        } else {
            lemma_walk_plain(base, new, common, be, ne, ci);
            let rest = diff_walk(base, new, common, be, ne, ci);
            let sub = new.subrange(ni, ne);
            assert(w == seq![(bi, be, sub)] + rest);
            assert forall|k: int| 0 <= k < w.len() implies no_newlines(#[trigger] w[k].2) by {
                if k == 0 {
                    assert(w[0].2 == sub);
                    assert forall|q: int| 0 <= q < sub.len() implies !crate::text::has_char(#[trigger] sub[q], '\n') by {
                        assert(sub[q] == new[ni + q]);
                    }
                } else {
                    assert(w[k] == rest[k - 1]);
                }
            }
        }
    }
}

/// Lines of a merge walk over lines without newlines hold none.
proof fn lemma_merge_walk_plain(base: Seq<Seq<char>>, lc: Seq<ChunkView>, rc: Seq<ChunkView>, pos: int)
    requires
        no_newlines(base),
        forall|k: int| 0 <= k < lc.len() ==> no_newlines(#[trigger] lc[k].2),
        forall|k: int| 0 <= k < rc.len() ==> no_newlines(#[trigger] rc[k].2),
    ensures
        merge_walk(base, lc, rc, pos) matches Some((lines, _)) ==> no_newlines(lines),
    decreases lc.len() + rc.len(),
{
    reveal_strlit("<<<<<<< LOCAL");
    reveal_strlit("=======");
    reveal_strlit(">>>>>>> REMOTE");
    if lc.len() > 0 {
        assert forall|k: int| 0 <= k < lc.drop_first().len() implies no_newlines(#[trigger] lc.drop_first()[k].2) by {
            assert(lc.drop_first()[k] == lc[k + 1]);
        }
    }
    if rc.len() > 0 {
        assert forall|k: int| 0 <= k < rc.drop_first().len() implies no_newlines(#[trigger] rc.drop_first()[k].2) by {
            assert(rc.drop_first()[k] == rc[k + 1]);
        }
    }
    if lc.len() == 0 && rc.len() == 0 {
        if 0 <= pos <= base.len() {
            let sub = base.subrange(pos, base.len() as int);
            assert forall|q: int| 0 <= q < sub.len() implies !crate::text::has_char(#[trigger] sub[q], '\n') by {
                assert(sub[q] == base[pos + q]);
            }
        }
    } else {
        let (pre, rest) = if rc.len() == 0 || (lc.len() > 0 && lc[0].0 < rc[0].0) {
            lemma_merge_walk_plain(base, lc.drop_first(), rc, lc[0].1);
            (base.subrange(pos, lc[0].0) + lc[0].2, merge_walk(base, lc.drop_first(), rc, lc[0].1))
        } else if lc.len() == 0 || rc[0].0 < lc[0].0 {
            lemma_merge_walk_plain(base, lc, rc.drop_first(), rc[0].1);
            (base.subrange(pos, rc[0].0) + rc[0].2, merge_walk(base, lc, rc.drop_first(), rc[0].1))
        } else {
            let end = if lc[0].1 >= rc[0].1 {
                lc[0].1
            } else {
                rc[0].1
            };
            lemma_merge_walk_plain(base, lc.drop_first(), rc.drop_first(), end);
            let mid = if lc[0].2 == rc[0].2 {
                lc[0].2
            } else {
                conflict_block(lc[0].2, rc[0].2)
            };
            (base.subrange(pos, lc[0].0) + mid, merge_walk(base, lc.drop_first(), rc.drop_first(), end))
        };
        if let Some((lines, c)) = merge_walk(base, lc, rc, pos) {
            let (tail, c2) = rest.unwrap();
            assert(lines == pre + tail);
            assert forall|q: int| 0 <= q < lines.len() implies !crate::text::has_char(#[trigger] lines[q], '\n') by {
                if q >= pre.len() {
                    assert(lines[q] == tail[q - pre.len()]);
                } else {
                    let p0 = if rc.len() == 0 || (lc.len() > 0 && lc[0].0 < rc[0].0) {
                        lc[0].0
                    } else if lc.len() == 0 || rc[0].0 < lc[0].0 {
                        rc[0].0
                    } else {
                        lc[0].0
                    };
                    let bs = base.subrange(pos, p0);
                    if q < bs.len() {
                        assert(lines[q] == base[pos + q]);
                    } else {
                        let r = q - bs.len();
                        if rc.len() == 0 || (lc.len() > 0 && lc[0].0 < rc[0].0) {
                            assert(lines[q] == lc[0].2[r]);
                        } else if lc.len() == 0 || rc[0].0 < lc[0].0 {
                            assert(lines[q] == rc[0].2[r]);
                        } else if lc[0].2 == rc[0].2 {
                            assert(lines[q] == lc[0].2[r]);
                        } else {
                            let cb = conflict_block(lc[0].2, rc[0].2);
                            assert(lines[q] == cb[r]);
                            let nl = lc[0].2.len() as int;
                            let nr = rc[0].2.len() as int;
                            if r == 0 || r == nl + 1 || r == nl + nr + 2 {
                            } else if r <= nl {
                                assert(cb[r] == lc[0].2[r - 1]);
                            } else {
                                assert(cb[r] == rc[0].2[r - nl - 2]);
                            }
                        }
                    }
                }
            }
        }
    }
}

/// A three-way merge of lines without newlines gives lines without newlines.
pub proof fn lemma_diff3_plain(base: Seq<Seq<char>>, local: Seq<Seq<char>>, remote: Seq<Seq<char>>)
    requires
        no_newlines(base),
        no_newlines(local),
        no_newlines(remote),
    ensures
        diff3_of(base, local, remote) matches Some((lines, _)) ==> no_newlines(lines),
{
    lemma_walk_plain(base, local, lcs_of(base, local), 0, 0, 0);
    lemma_walk_plain(base, remote, lcs_of(base, remote), 0, 0, 0);
    lemma_merge_walk_plain(base, diff_chunks_of(base, local), diff_chunks_of(base, remote), 0);
}

} // verus!
