use vstd::prelude::*;

use super::{
    crossings_upto, is_free_permutation, occurs, pair_crossings, positions, ranked_below, row_crossings,
    GraphView,
};

verus! {

/// The sum of `f(i)` over `lo <= i < hi`.
pub open spec fn sum_range(f: spec_fn(int) -> int, lo: int, hi: int) -> int
    decreases hi - lo,
{
    if hi <= lo {
        0
    } else {
        sum_range(f, lo, hi - 1) + f(hi - 1)
    }
}

/// How many of the first `n` entries of `s` rank above `r`.
pub open spec fn ranked_above(s: Seq<usize>, n: nat, rank: Seq<int>, offset: int, r: int) -> nat
    decreases n,
{
    if n == 0 {
        0
    } else {
        ranked_above(s, (n - 1) as nat, rank, offset, r) + if rank[s[n - 1] - offset] > r {
            1nat
        } else {
            0nat
        }
    }
}

/// The pairs of an entry among the first `n` of `s1` and one among the first
/// `m` of `s2` where the second ranks below the first.
pub open spec fn pairs_below(s1: Seq<usize>, n: nat, s2: Seq<usize>, m: nat, rank: Seq<int>, offset: int) -> nat
    decreases n,
{
    if n == 0 {
        0
    } else {
        pairs_below(s1, (n - 1) as nat, s2, m, rank, offset) + ranked_below(s2, m, rank, offset, rank[s1[n - 1] - offset])
    }
}

/// The pairs of an entry among the first `n` of `s1` and one among the first
/// `m` of `s2` where the second ranks above the first.
pub open spec fn pairs_above(s1: Seq<usize>, n: nat, s2: Seq<usize>, m: nat, rank: Seq<int>, offset: int) -> nat
    decreases n,
{
    if n == 0 {
        0
    } else {
        pairs_above(s1, (n - 1) as nat, s2, m, rank, offset) + ranked_above(s2, m, rank, offset, rank[s1[n - 1] - offset])
    }
}

/// The crossings between fixed nodes `a` and `b` of `adj`, `a` the earlier.
pub open spec fn pair_term(adj: Seq<Seq<usize>>, rank: Seq<int>, offset: int, a: int, b: int) -> int {
    pair_crossings(adj[a], adj[a].len(), adj[b], rank, offset) as int
}

/// The graph `h` is `g` with the order of its fixed nodes reversed.
pub open spec fn is_mirror(g: GraphView, h: GraphView) -> bool {
    &&& h.fixed == g.fixed
    &&& h.free == g.free
    &&& forall|x: int| 0 <= x < g.fixed ==> #[trigger] h.adj[x] == g.adj[g.fixed - 1 - x]
}

/// Reversing the fixed nodes together with the order of the free nodes keeps
/// every crossing a crossing: the mirrored graph under the reversed ordering
/// has as many crossings as the graph under the ordering.
pub proof fn lemma_mirror_crossings(g: GraphView, h: GraphView, ordering: Seq<usize>)
    requires
        g.wf(),
        h.wf(),
        is_mirror(g, h),
        is_free_permutation(ordering, g.fixed, g.free),
    ensures
        is_free_permutation(ordering.reverse(), h.fixed, h.free),
        h.crossings(positions(ordering.reverse(), h.fixed)) == g.crossings(positions(ordering, g.fixed)),
{
    let fixed = g.fixed;
    let free = g.free;
    let off = fixed as int;
    let n = fixed as int;
    let rev = ordering.reverse();
    lemma_reverse_permutation(ordering, fixed, free);
    let r = positions(ordering, fixed);
    let rr = positions(rev, fixed);
    let tg = |a: int, b: int| pair_term(g.adj, r, off, a, b);
    let col = |c: int| sum_range(|y: int| tg(y, c), 0, c);
    let rows_h = |a: int| row_crossings(h.adj, a as nat, fixed, rr, off) as int;
    let rows_g = |a: int| row_crossings(g.adj, a as nat, fixed, r, off) as int;
    let rows_t = |a: int| sum_range(|b: int| tg(a, b), a + 1, n);
    let cols_reflected = |a: int| col(n - 1 - a);
    lemma_crossings_as_sum(h.adj, fixed, rr, off);
    lemma_crossings_as_sum(g.adj, fixed, r, off);
    // each row of the mirrored graph is a column of the graph
    assert forall|a: int| 0 <= a < n implies #[trigger] rows_h(a) == cols_reflected(a) by {
        lemma_row_as_sum(h.adj, a as nat, fixed, rr, off);
        let phi = |y: int| tg(y, n - 1 - a);
        let row = |b: int| pair_term(h.adj, rr, off, a, b);
        let reflected = |b: int| phi(n - 1 - b);
        assert forall|b: int| a + 1 <= b < n implies #[trigger] row(b) == reflected(b) by {
            assert(h.adj[a] == g.adj[n - 1 - a]);
            assert(h.adj[b] == g.adj[n - 1 - b]);
            lemma_fixed_list_in_range(g, n - 1 - a, r);
            lemma_fixed_list_in_range(g, n - 1 - b, r);
            lemma_mirrored_pair(g.adj[n - 1 - b], g.adj[n - 1 - a], r, rr, off, free);
        }
        lemma_sum_ext(row, reflected, a + 1, n);
        lemma_sum_reflect(phi, reflected, n - 1, a + 1, n);
        lemma_sum_ext(phi, |y: int| tg(y, n - 1 - a), 0, n - 1 - a);
    }
    lemma_sum_ext(rows_h, cols_reflected, 0, n);
    lemma_sum_reflect(col, cols_reflected, n - 1, 0, n);
    // the rows of the graph, regrouped by columns
    assert forall|a: int| 0 <= a < n implies #[trigger] rows_g(a) == rows_t(a) by {
        lemma_row_as_sum(g.adj, a as nat, fixed, r, off);
        lemma_sum_ext(|b: int| pair_term(g.adj, r, off, a, b), |b: int| tg(a, b), a + 1, n);
    }
    lemma_sum_ext(rows_g, rows_t, 0, n);
    lemma_triangle_swap(tg, n);
    lemma_sum_ext(col, |b: int| sum_range(|a: int| tg(a, b), 0, b), 0, n);
}

/// The reversal of an ordering is an ordering, and each free node's position
/// in it is mirrored.
proof fn lemma_reverse_permutation(ordering: Seq<usize>, fixed: nat, free: nat)
    requires
        is_free_permutation(ordering, fixed, free),
    ensures
        is_free_permutation(ordering.reverse(), fixed, free),
        forall|k: int|
            0 <= k < free ==> #[trigger] positions(ordering.reverse(), fixed)[k] == free - 1 - positions(
                ordering,
                fixed,
            )[k],
        forall|k: int| 0 <= k < free ==> 0 <= #[trigger] positions(ordering, fixed)[k] < free,
{
    let rev = ordering.reverse();
    let len = ordering.len() as int;
    assert forall|i: int| 0 <= i < rev.len() implies fixed <= #[trigger] rev[i] < fixed + free by {
        assert(rev[i] == ordering[len - 1 - i]);
    }
    assert forall|i: int, j: int| 0 <= i < j < rev.len() implies rev[i] != rev[j] by {
        assert(rev[i] == ordering[len - 1 - i]);
        assert(rev[j] == ordering[len - 1 - j]);
    }
    assert forall|k: int| 0 <= k < free implies #[trigger] occurs(rev, fixed + k) by {
        assert(occurs(ordering, fixed + k));
        let i = choose|i: int| 0 <= i < ordering.len() && ordering[i] == fixed + k;
        assert(rev[len - 1 - i] == ordering[i]);
    }
    assert forall|k: int| 0 <= k < free implies 0 <= #[trigger] positions(ordering, fixed)[k] < free by {
        assert(occurs(ordering, fixed + k));
    }
    assert forall|k: int| 0 <= k < free implies #[trigger] positions(rev, fixed)[k] == free - 1 - positions(
        ordering,
        fixed,
    )[k] by {
        assert(occurs(ordering, fixed + k));
        assert(occurs(rev, fixed + k));
        let i = positions(ordering, fixed)[k];
        let j = positions(rev, fixed)[k];
        assert(0 <= i < len && ordering[i] == fixed + k);
        assert(0 <= j < len && rev[j] == fixed + k);
        assert(rev[j] == ordering[len - 1 - j]);
        if len - 1 - j < i {
            assert(ordering[len - 1 - j] != ordering[i]);
        } else if len - 1 - j > i {
            assert(ordering[i] != ordering[len - 1 - j]);
        }
    }
}

/// The list of a fixed node holds free ids, whose ranks are defined.
proof fn lemma_fixed_list_in_range(g: GraphView, x: int, rank: Seq<int>)
    requires
        g.wf(),
        0 <= x < g.fixed,
        rank.len() == g.free,
    ensures
        forall|k: int| 0 <= k < g.adj[x].len() ==> 0 <= #[trigger] g.adj[x][k] - g.fixed < rank.len(),
{
    assert forall|k: int| 0 <= k < g.adj[x].len() implies 0 <= #[trigger] g.adj[x][k] - g.fixed < rank.len() by {
        assert(g.is_free(g.adj[x][k] as int));
    }
}

/// Under mirrored ranks, the crossings of a pair of fixed nodes are those of
/// the pair taken in the other order.
proof fn lemma_mirrored_pair(s1: Seq<usize>, s2: Seq<usize>, r: Seq<int>, rr: Seq<int>, off: int, free: nat)
    requires
        r.len() == free,
        rr.len() == free,
        forall|k: int| 0 <= k < free ==> #[trigger] rr[k] == free - 1 - r[k],
        forall|k: int| 0 <= k < s1.len() ==> 0 <= #[trigger] s1[k] - off < free,
        forall|k: int| 0 <= k < s2.len() ==> 0 <= #[trigger] s2[k] - off < free,
    ensures
        pair_crossings(s2, s2.len(), s1, rr, off) == pair_crossings(s1, s1.len(), s2, r, off),
{
    lemma_mirrored_rows(s2, s2.len(), s1, r, rr, off, free);
    lemma_pairs_swap(s1, s1.len(), s2, s2.len(), r, off);
    lemma_pair_crossings_as_pairs(s1, s1.len(), s2, r, off);
}

proof fn lemma_mirrored_rows(s1: Seq<usize>, n: nat, s2: Seq<usize>, r: Seq<int>, rr: Seq<int>, off: int, free: nat)
    requires
        n <= s1.len(),
        r.len() == free,
        rr.len() == free,
        forall|k: int| 0 <= k < free ==> #[trigger] rr[k] == free - 1 - r[k],
        forall|k: int| 0 <= k < s1.len() ==> 0 <= #[trigger] s1[k] - off < free,
        forall|k: int| 0 <= k < s2.len() ==> 0 <= #[trigger] s2[k] - off < free,
    ensures
        pair_crossings(s1, n, s2, rr, off) == pairs_above(s1, n, s2, s2.len(), r, off),
    decreases n,
{
    if n > 0 {
        lemma_mirrored_rows(s1, (n - 1) as nat, s2, r, rr, off, free);
        let p = s1[n - 1] - off;
        assert(0 <= p < free);
        lemma_mirrored_count(s2, s2.len(), r, rr, off, free, p);
    }
}

proof fn lemma_mirrored_count(s: Seq<usize>, m: nat, r: Seq<int>, rr: Seq<int>, off: int, free: nat, p: int)
    requires
        m <= s.len(),
        0 <= p < free,
        r.len() == free,
        rr.len() == free,
        forall|k: int| 0 <= k < free ==> #[trigger] rr[k] == free - 1 - r[k],
        forall|k: int| 0 <= k < s.len() ==> 0 <= #[trigger] s[k] - off < free,
    ensures
        ranked_below(s, m, rr, off, rr[p]) == ranked_above(s, m, r, off, r[p]),
    decreases m,
{
    if m > 0 {
        lemma_mirrored_count(s, (m - 1) as nat, r, rr, off, free, p);
        let q = s[m - 1] - off;
        assert(0 <= q < free);
        assert(rr[q] == free - 1 - r[q]);
        assert(rr[p] == free - 1 - r[p]);
    }
}

proof fn lemma_pair_crossings_as_pairs(s1: Seq<usize>, n: nat, s2: Seq<usize>, r: Seq<int>, off: int)
    ensures
        pair_crossings(s1, n, s2, r, off) == pairs_below(s1, n, s2, s2.len(), r, off),
    decreases n,
{
    if n > 0 {
        lemma_pair_crossings_as_pairs(s1, (n - 1) as nat, s2, r, off);
    }
}

/// Counting the pairs in which an entry of `s2` ranks below one of `s1` from
/// either side gives the same number.
proof fn lemma_pairs_swap(s1: Seq<usize>, n: nat, s2: Seq<usize>, m: nat, r: Seq<int>, off: int)
    ensures
        pairs_below(s1, n, s2, m, r, off) == pairs_above(s2, m, s1, n, r, off),
    decreases m,
{
    if m > 0 {
        lemma_pairs_swap(s1, n, s2, (m - 1) as nat, r, off);
        lemma_pairs_peel(s1, n, s2, m, r, off);
    } else {
        lemma_pairs_below_empty(s1, n, s2, r, off);
    }
}

proof fn lemma_pairs_below_empty(s1: Seq<usize>, n: nat, s2: Seq<usize>, r: Seq<int>, off: int)
    ensures
        pairs_below(s1, n, s2, 0, r, off) == 0,
    decreases n,
{
    if n > 0 {
        lemma_pairs_below_empty(s1, (n - 1) as nat, s2, r, off);
    }
}

proof fn lemma_pairs_peel(s1: Seq<usize>, n: nat, s2: Seq<usize>, m: nat, r: Seq<int>, off: int)
    requires
        m > 0,
    ensures
        pairs_below(s1, n, s2, m, r, off) == pairs_below(s1, n, s2, (m - 1) as nat, r, off) + ranked_above(
            s1,
            n,
            r,
            off,
            r[s2[m - 1] - off],
        ),
    decreases n,
{
    if n > 0 {
        lemma_pairs_peel(s1, (n - 1) as nat, s2, m, r, off);
    }
}

/// A graph's crossing count as a sum over its fixed nodes of their rows.
proof fn lemma_crossings_as_sum(adj: Seq<Seq<usize>>, fixed: nat, r: Seq<int>, off: int)
    ensures
        crossings_upto(adj, fixed, fixed, r, off) == sum_range(
            |a: int| row_crossings(adj, a as nat, fixed, r, off) as int,
            0,
            fixed as int,
        ),
{
    lemma_crossings_upto_as_sum(adj, fixed, fixed, r, off);
}

proof fn lemma_crossings_upto_as_sum(adj: Seq<Seq<usize>>, n: nat, fixed: nat, r: Seq<int>, off: int)
    ensures
        crossings_upto(adj, n, fixed, r, off) == sum_range(
            |a: int| row_crossings(adj, a as nat, fixed, r, off) as int,
            0,
            n as int,
        ),
    decreases n,
{
    if n > 0 {
        lemma_crossings_upto_as_sum(adj, (n - 1) as nat, fixed, r, off);
    }
}

/// A row of crossings as a sum over the later fixed nodes.
proof fn lemma_row_as_sum(adj: Seq<Seq<usize>>, a: nat, end: nat, r: Seq<int>, off: int)
    ensures
        row_crossings(adj, a, end, r, off) == sum_range(|b: int| pair_term(adj, r, off, a as int, b), a as int + 1, end as int),
    decreases end,
{
    if end > a + 1 {
        lemma_row_as_sum(adj, a, (end - 1) as nat, r, off);
    }
}

proof fn lemma_sum_ext(f: spec_fn(int) -> int, g: spec_fn(int) -> int, lo: int, hi: int)
    requires
        forall|i: int| lo <= i < hi ==> #[trigger] f(i) == g(i),
    ensures
        sum_range(f, lo, hi) == sum_range(g, lo, hi),
    decreases hi - lo,
{
    if hi > lo {
        lemma_sum_ext(f, g, lo, hi - 1);
    }
}

proof fn lemma_sum_front(f: spec_fn(int) -> int, lo: int, hi: int)
    requires
        lo < hi,
    ensures
        sum_range(f, lo, hi) == f(lo) + sum_range(f, lo + 1, hi),
    decreases hi - lo,
{
    if hi > lo + 1 {
        lemma_sum_front(f, lo, hi - 1);
        assert(sum_range(f, lo + 1, hi) == sum_range(f, lo + 1, hi - 1) + f(hi - 1));
    } else {
        assert(sum_range(f, lo, lo) == 0);
        assert(sum_range(f, lo + 1, hi) == 0);
    }
}

/// Summing `g(i) = f(c - i)` over `lo .. hi` sums `f` over
/// `c + 1 - hi .. c + 1 - lo`.
proof fn lemma_sum_reflect(f: spec_fn(int) -> int, g: spec_fn(int) -> int, c: int, lo: int, hi: int)
    requires
        forall|i: int| #[trigger] g(i) == f(c - i),
    ensures
        sum_range(g, lo, hi) == sum_range(f, c + 1 - hi, c + 1 - lo),
    decreases hi - lo,
{
    if hi > lo {
        lemma_sum_reflect(f, g, c, lo, hi - 1);
        lemma_sum_front(f, c + 1 - hi, c + 1 - lo);
        assert(g(hi - 1) == f(c + 1 - hi));
    }
}

proof fn lemma_sum_add(f: spec_fn(int) -> int, g: spec_fn(int) -> int, lo: int, hi: int)
    ensures
        sum_range(|i: int| f(i) + g(i), lo, hi) == sum_range(f, lo, hi) + sum_range(g, lo, hi),
    decreases hi - lo,
{
    if hi > lo {
        lemma_sum_add(f, g, lo, hi - 1);
    }
}

/// Summing over the pairs `a < b < n` by rows or by columns gives the same.
proof fn lemma_triangle_swap(t: spec_fn(int, int) -> int, n: int)
    requires
        n >= 0,
    ensures
        sum_range(|a: int| sum_range(|b: int| t(a, b), a + 1, n), 0, n) == sum_range(
            |b: int| sum_range(|a: int| t(a, b), 0, b),
            0,
            n,
        ),
    decreases n,
{
    if n > 0 {
        let m = n - 1;
        lemma_triangle_swap(t, m);
        let rows_n = |a: int| sum_range(|b: int| t(a, b), a + 1, n);
        let rows_m = |a: int| sum_range(|b: int| t(a, b), a + 1, m);
        let last = |a: int| t(a, m);
        let both = |i: int| rows_m(i) + last(i);
        assert forall|a: int| 0 <= a < m implies #[trigger] rows_n(a) == both(a) by {}
        lemma_sum_ext(rows_n, both, 0, m);
        lemma_sum_add(rows_m, last, 0, m);
        assert(rows_n(m) == 0);
    }
}

} // verus!
