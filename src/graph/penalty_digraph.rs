use vstd::prelude::*;

use super::{strictly_ascending, Graph};

verus! {

/// How many of the first `n` entries of `s` are below `x`.
pub open spec fn count_below(s: Seq<usize>, n: nat, x: usize) -> nat
    decreases n,
{
    if n == 0 {
        0
    } else {
        count_below(s, (n - 1) as nat, x) + if s[n - 1] < x {
            1nat
        } else {
            0nat
        }
    }
}

/// How many of the first `n` entries of `s` are above `x`.
pub open spec fn count_above(s: Seq<usize>, n: nat, x: usize) -> nat
    decreases n,
{
    if n == 0 {
        0
    } else {
        count_above(s, (n - 1) as nat, x) + if s[n - 1] > x {
            1nat
        } else {
            0nat
        }
    }
}

/// The pairs `(p, q)` with `p` among the first `n` entries of `s1`, `q` among
/// the first `m` entries of `s2`, and `q < p`.
pub open spec fn cost_sum(s1: Seq<usize>, n: nat, s2: Seq<usize>, m: nat) -> nat
    decreases n,
{
    if n == 0 {
        0
    } else {
        cost_sum(s1, (n - 1) as nat, s2, m) + count_below(s2, m, s1[n - 1])
    }
}

/// The pairs `(p, q)` with `p` among the first `n` entries of `s1`, `q` among
/// the first `m` entries of `s2`, and `q > p`.
pub open spec fn above_sum(s1: Seq<usize>, n: nat, s2: Seq<usize>, m: nat) -> nat
    decreases n,
{
    if n == 0 {
        0
    } else {
        above_sum(s1, (n - 1) as nat, s2, m) + count_above(s2, m, s1[n - 1])
    }
}

/// How many of the first `n` entries of `s` equal `x`.
pub open spec fn count_equal(s: Seq<usize>, n: nat, x: usize) -> nat
    decreases n,
{
    if n == 0 {
        0
    } else {
        count_equal(s, (n - 1) as nat, x) + if s[n - 1] == x {
            1nat
        } else {
            0nat
        }
    }
}

/// The pairs `(p, q)` with `p` among the first `n` entries of `s1`, `q` among
/// the first `m` entries of `s2`, and `q == p`.
pub open spec fn equal_sum(s1: Seq<usize>, n: nat, s2: Seq<usize>, m: nat) -> nat
    decreases n,
{
    if n == 0 {
        0
    } else {
        equal_sum(s1, (n - 1) as nat, s2, m) + count_equal(s2, m, s1[n - 1])
    }
}

/// The number of neighbours that two free nodes with neighbour lists `s1`
/// and `s2` have in common.
pub open spec fn shared_neighbors(s1: Seq<usize>, s2: Seq<usize>) -> nat {
    equal_sum(s1, s1.len(), s2, s2.len())
}

/// The crossings between the edges of a free node with neighbours `s1` and
/// those of a free node with neighbours `s2` when the first stands before the
/// second: edges to `p` in `s1` and to `q` in `s2` cross when `q < p`.
pub open spec fn crossing_cost(s1: Seq<usize>, s2: Seq<usize>) -> nat {
    cost_sum(s1, s1.len(), s2, s2.len())
}

/// How placing `u` before `v` changes the insertion score: `1` when the
/// matrix favours `v` before `u`, `-1` when it favours `u` before `v`.
pub open spec fn insertion_step(m: Seq<Seq<usize>>, u: int, v: int) -> int {
    if m[u][v] > m[v][u] {
        1
    } else if m[v][u] > m[u][v] {
        -1
    } else {
        0
    }
}

/// The score of inserting `u` at position `j` of `order`: the steps of `u`
/// against every entry from `j` on.
pub open spec fn insertion_score(m: Seq<Seq<usize>>, order: Seq<usize>, u: int, j: int) -> int
    decreases order.len() - j,
{
    if j >= order.len() || j < 0 {
        0
    } else {
        insertion_step(m, u, order[j] as int) + insertion_score(m, order, u, j + 1)
    }
}

/// The lowest score over the positions `j ..= order.len()` and the leftmost
/// position that reaches it.
pub open spec fn best_insertion(m: Seq<Seq<usize>>, order: Seq<usize>, u: int, j: int) -> (int, int)
    decreases order.len() - j,
{
    if j >= order.len() || j < 0 {
        (0, order.len() as int)
    } else {
        let rest = best_insertion(m, order, u, j + 1);
        let score = insertion_score(m, order, u, j);
        if score <= rest.0 {
            (score, j)
        } else {
            rest
        }
    }
}

/// The order built by inserting `0, 1, .., n - 1` one after another, each at
/// its best insertion position among those already placed.
pub open spec fn insertion_order(m: Seq<Seq<usize>>, n: nat) -> Seq<usize>
    decreases n,
{
    if n == 0 {
        Seq::empty()
    } else {
        let before = insertion_order(m, (n - 1) as nat);
        before.insert(best_insertion(m, before, n - 1, 0).1, (n - 1) as usize)
    }
}

/// `order` lists each of `0 .. n` exactly once.
pub open spec fn is_permutation(order: Seq<usize>, n: nat) -> bool {
    &&& order.len() == n
    &&& forall|i: int| 0 <= i < order.len() ==> #[trigger] order[i] < n
    &&& forall|i: int, j: int| 0 <= i < j < order.len() ==> order[i] != order[j]
    &&& forall|k: usize| k < n ==> #[trigger] order.contains(k)
}

/// For every pair of free nodes, the crossings among their own edges under
/// each of the two orders in which they can stand.
#[derive(Debug)]
pub struct PenaltyDigraph {
    number_of_nodes: usize,
    crossings: Vec<Vec<usize>>,
}

impl View for PenaltyDigraph {
    type V = Seq<Seq<usize>>;

    closed spec fn view(&self) -> Seq<Seq<usize>> {
        self.crossings@.map_values(|row: Vec<usize>| row@)
    }
}

impl PenaltyDigraph {
    /// The matrix is square, one row and column per free node.
    pub closed spec fn wf(&self) -> bool {
        &&& self.crossings@.len() == self.number_of_nodes
        &&& forall|u: int| 0 <= u < self.number_of_nodes ==> (#[trigger] self.crossings@[u])@.len() == self.number_of_nodes
    }

    /// The number of free nodes.
    pub open spec fn size(&self) -> nat {
        self@.len()
    }

    /// The crossings among the edges of `u` and `v` when `u` stands before `v`.
    pub open spec fn entry(&self, u: int, v: int) -> int {
        self@[u][v] as int
    }

    /// A matrix for `number_of_nodes` free nodes with every cost zero.
    pub fn new(number_of_nodes: usize) -> (d: PenaltyDigraph)
        ensures
            d.wf(),
            d.size() == number_of_nodes,
            forall|u: int, v: int| 0 <= u < number_of_nodes && 0 <= v < number_of_nodes ==> #[trigger] d.entry(u, v) == 0,
    {
        let mut crossings: Vec<Vec<usize>> = Vec::new();
        let mut u: usize = 0;
        while u < number_of_nodes
            invariant
                u <= number_of_nodes,
                crossings@.len() == u,
                forall|k: int| 0 <= k < u ==> (#[trigger] crossings@[k])@ == Seq::new(number_of_nodes as nat, |v: int| 0usize),
            decreases number_of_nodes - u,
        {
            let row: Vec<usize> = vec![0usize; number_of_nodes];
            assert(row@ =~= Seq::new(number_of_nodes as nat, |v: int| 0usize));
            crossings.push(row);
            u = u + 1;
        }
        PenaltyDigraph { number_of_nodes, crossings }
    }

    /// The crossings among the edges of free nodes `u` and `v` (free-local
    /// indices) when `u` stands before `v`.
    pub fn cost(&self, u: usize, v: usize) -> (r: usize)
        requires
            self.wf(),
            u < self.size(),
            v < self.size(),
        ensures
            r == self.entry(u as int, v as int),
    {
        assert(self.crossings@[u as int]@ == self@[u as int]);
        self.crossings[u][v]
    }

    /// Whether the matrix favours `v` before `u`.
    fn edge_exists(&self, u: usize, v: usize) -> (r: bool)
        requires
            self.wf(),
            u < self.size(),
            v < self.size(),
        ensures
            r == (self.entry(u as int, v as int) > self.entry(v as int, u as int)),
    {
        assert(self.crossings@[u as int]@ == self@[u as int]);
        assert(self.crossings@[v as int]@ == self@[v as int]);
        self.crossings[u][v] > self.crossings[v][u]
    }

    /// Orders the free nodes by inserting `0, 1, ..` one after another, each
    /// at the leftmost position where the count of placed nodes that the
    /// matrix puts after it, less those that it puts before it, is lowest.
    pub fn sort_fas(&self) -> (order: Vec<usize>)
        requires
            self.wf(),
        ensures
            order@ == insertion_order(self@, self.size()),
            is_permutation(order@, self.size()),
    {
        let ghost m = self@;
        let mut feedback_arc_set: Vec<usize> = Vec::new();
        let mut u: usize = 0;
        while u < self.number_of_nodes
            invariant
                self.wf(),
                m == self@,
                u <= self.size(),
                feedback_arc_set@ == insertion_order(m, u as nat),
            decreases self.number_of_nodes - u,
        {
            proof {
                lemma_insertion_order_permutation(m, u as nat);
            }
            let ghost placed = feedback_arc_set@;
            let mut val: i128 = 0;
            let mut min: i128 = 0;
            let mut loc: usize = u;
            let mut j: usize = u;
            while j > 0
                invariant
                    self.wf(),
                    m == self@,
                    u < self.size(),
                    placed == feedback_arc_set@,
                    placed.len() == u,
                    is_permutation(placed, u as nat),
                    j <= u,
                    val == insertion_score(m, placed, u as int, j as int),
                    -(u - j) <= val <= u - j,
                    (min as int, loc as int) == best_insertion(m, placed, u as int, j as int),
                decreases j,
            {
                j = j - 1;
                let v = feedback_arc_set[j];
                if self.edge_exists(u, v) {
                    val = val + 1;
                }
                if self.edge_exists(v, u) {
                    val = val - 1;
                }
                if val <= min {
                    min = val;
                    loc = j;
                }
            }
            proof {
                lemma_best_insertion_range(m, placed, u as int, 0);
            }
            feedback_arc_set.insert(loc, u);
            u = u + 1;
        }
        proof {
            lemma_insertion_order_permutation(m, self.size());
        }
        feedback_arc_set
    }

    /// Records the costs of both orders of the free nodes `u` and `v`.
    fn add_crossings(&mut self, u: usize, v: usize, c_uv: usize, c_vu: usize)
        requires
            old(self).wf(),
            u < old(self).size(),
            v < old(self).size(),
            u != v,
        ensures
            final(self).wf(),
            final(self).size() == old(self).size(),
            final(self)@ == old(self)@.update(u as int, old(self)@[u as int].update(v as int, c_uv)).update(
                v as int,
                old(self)@[v as int].update(u as int, c_vu),
            ),
    {
        let ghost before = self@;
        self.crossings[u].set(v, c_uv);
        self.crossings[v].set(u, c_vu);
        assert(self@ =~= before.update(u as int, before[u as int].update(v as int, c_uv)).update(
            v as int,
            before[v as int].update(u as int, c_vu),
        ));
    }

    /// Builds the cost matrix of the free nodes of `graph`: entry `(a, b)`
    /// counts the crossings among the edges of free nodes `fixed + a` and
    /// `fixed + b` when `a` stands before `b`. The diagonal is zero.
    pub fn from_graph(graph: &Graph) -> (d: PenaltyDigraph)
        requires
            graph.wf(),
            graph@.fixed * graph@.fixed <= usize::MAX,
        ensures
            d.wf(),
            d.size() == graph@.free,
            forall|a: int, b: int|
                0 <= a < graph@.free && 0 <= b < graph@.free ==> #[trigger] d.entry(a, b) == if a == b {
                    0
                } else {
                    crossing_cost(graph@.adj[graph@.fixed + a], graph@.adj[graph@.fixed + b]) as int
                },
    {
        let ghost g = graph@;
        let fixed_count = graph.number_of_fixed_nodes;
        let node_count = graph.number_of_nodes;
        let mut penalty_digraph = PenaltyDigraph::new(graph.number_of_free_nodes);
        let mut u: usize = fixed_count;
        while u < node_count
            invariant
                graph.wf(),
                g == graph@,
                g.fixed * g.fixed <= usize::MAX,
                fixed_count == g.fixed,
                node_count == g.fixed + g.free,
                fixed_count <= u <= node_count,
                penalty_digraph.wf(),
                penalty_digraph.size() == g.free,
                forall|a: int, b: int|
                    0 <= a < g.free && 0 <= b < g.free ==> #[trigger] penalty_digraph.entry(a, b) == if a == b
                        || (a >= u - fixed_count && b >= u - fixed_count) {
                        0
                    } else {
                        crossing_cost(g.adj[g.fixed + a], g.adj[g.fixed + b]) as int
                    },
            decreases node_count - u,
        {
            let mut v: usize = u + 1;
            while v < node_count
                invariant
                    graph.wf(),
                    g == graph@,
                    g.fixed * g.fixed <= usize::MAX,
                    fixed_count == g.fixed,
                    node_count == g.fixed + g.free,
                    fixed_count <= u < v <= node_count,
                    penalty_digraph.wf(),
                    penalty_digraph.size() == g.free,
                    forall|a: int, b: int|
                        0 <= a < g.free && 0 <= b < g.free ==> #[trigger] penalty_digraph.entry(a, b) == if a == b
                            || (a >= u - fixed_count && b >= u - fixed_count && !(a == u - fixed_count && b < v
                            - fixed_count) && !(b == u - fixed_count && a < v - fixed_count)) {
                            0
                        } else {
                            crossing_cost(g.adj[g.fixed + a], g.adj[g.fixed + b]) as int
                        },
                decreases node_count - v,
            {
                let neighbors_u = &graph.adjacency_list[u];
                let neighbors_v = &graph.adjacency_list[v];
                proof {
                    assert(neighbors_u@ == g.adj[u as int]);
                    assert(neighbors_v@ == g.adj[v as int]);
                    lemma_free_degree(g, u as int);
                    lemma_free_degree(g, v as int);
                    assert(neighbors_u@.len() * neighbors_v@.len() <= g.fixed * g.fixed) by (nonlinear_arith)
                        requires
                            neighbors_u@.len() <= g.fixed,
                            neighbors_v@.len() <= g.fixed,
                    ;
                }
                let (c_uv, c_vu) = pair_costs(neighbors_u, neighbors_v);
                let ghost before_matrix = penalty_digraph;
                let ghost before = penalty_digraph@;
                penalty_digraph.add_crossings(u - fixed_count, v - fixed_count, c_uv, c_vu);
                proof {
                    let uu = u - fixed_count;
                    let vv = v - fixed_count;
                    assert forall|a: int, b: int| 0 <= a < g.free && 0 <= b < g.free implies #[trigger] penalty_digraph.entry(a, b) == if a == b
                        || (a >= uu && b >= uu && !(a == uu && b < vv + 1) && !(b == uu && a < vv + 1)) {
                        0
                    } else {
                        crossing_cost(g.adj[g.fixed + a], g.adj[g.fixed + b]) as int
                    } by {
                        if a == uu && b == vv {
                        } else if a == vv && b == uu {
                        } else {
                            assert(penalty_digraph@[a][b] == before[a][b]);
                            assert(before_matrix.entry(a, b) == before[a][b]);
                        }
                    }
                }
                v = v + 1;
            }
            u = u + 1;
        }
        penalty_digraph
    }
}

/// The two orders of a pair of free nodes together cost one crossing for
/// every pair of their edges, except the pairs that meet at a shared fixed
/// neighbour, which cross in neither order.
pub proof fn lemma_pair_costs_total(s1: Seq<usize>, s2: Seq<usize>)
    ensures
        crossing_cost(s1, s2) + crossing_cost(s2, s1) + shared_neighbors(s1, s2) == s1.len() * s2.len(),
{
    lemma_cost_swap(s2, s2.len(), s1, s1.len());
    lemma_sums_partition(s1, s1.len(), s2, s2.len());
}

/// For two distinct free nodes of a graph that share no fixed neighbour, the
/// costs of the two orders add up to the product of their degrees.
pub proof fn lemma_disjoint_pair_costs(g: super::GraphView, a: int, b: int)
    requires
        g.wf(),
        0 <= a < g.free,
        0 <= b < g.free,
        a != b,
        forall|x: int| g.is_fixed(x) ==> !(g.has_edge(x, g.fixed + a) && g.has_edge(x, g.fixed + b)),
    ensures
        crossing_cost(g.adj[g.fixed + a], g.adj[g.fixed + b]) + crossing_cost(g.adj[g.fixed + b], g.adj[g.fixed + a])
            == g.adj[g.fixed + a].len() * g.adj[g.fixed + b].len(),
{
    let fa = g.fixed + a;
    let fb = g.fixed + b;
    let s1 = g.adj[fa];
    let s2 = g.adj[fb];
    assert forall|k: int| 0 <= k < s1.len() implies !s2.contains(#[trigger] s1[k]) by {
        let x = s1[k] as int;
        assert(g.is_fixed(g.adj[fa][k] as int));
        assert(s1.contains(x as usize));
        assert(g.adj[x].contains(fa as usize) <==> g.adj[fa].contains(x as usize));
        assert(g.adj[x].contains(fb as usize) <==> g.adj[fb].contains(x as usize));
    }
    lemma_equal_sum_disjoint(s1, s1.len(), s2);
    lemma_pair_costs_total(s1, s2);
}

/// Ordering the free nodes is a function of the matrix alone: two results of
/// the insertion heuristic on the same matrix are the same order.
pub proof fn lemma_sort_fas_deterministic(d: &PenaltyDigraph, first: Seq<usize>, second: Seq<usize>)
    requires
        first == insertion_order(d@, d.size()),
        second == insertion_order(d@, d.size()),
    ensures
        first == second,
{
}

proof fn lemma_counts_partition(s: Seq<usize>, n: nat, x: usize)
    ensures
        count_below(s, n, x) + count_above(s, n, x) + count_equal(s, n, x) == n,
    decreases n,
{
    if n > 0 {
        lemma_counts_partition(s, (n - 1) as nat, x);
    }
}

proof fn lemma_sums_partition(s1: Seq<usize>, n: nat, s2: Seq<usize>, m: nat)
    ensures
        cost_sum(s1, n, s2, m) + above_sum(s1, n, s2, m) + equal_sum(s1, n, s2, m) == n * m,
    decreases n,
{
    if n > 0 {
        let k = (n - 1) as nat;
        lemma_sums_partition(s1, k, s2, m);
        lemma_counts_partition(s2, m, s1[k as int]);
        assert(k * m + m == n * m) by (nonlinear_arith)
            requires
                k + 1 == n,
        ;
    } else {
        assert(0 * m == 0);
    }
}

proof fn lemma_equal_sum_disjoint(s1: Seq<usize>, n: nat, s2: Seq<usize>)
    requires
        n <= s1.len(),
        forall|k: int| 0 <= k < s1.len() ==> !s2.contains(#[trigger] s1[k]),
    ensures
        equal_sum(s1, n, s2, s2.len()) == 0,
    decreases n,
{
    if n > 0 {
        lemma_equal_sum_disjoint(s1, (n - 1) as nat, s2);
        lemma_count_equal_absent(s2, s2.len(), s1[n - 1]);
    }
}

pub(crate) proof fn lemma_count_equal_absent(s: Seq<usize>, n: nat, x: usize)
    requires
        n <= s.len(),
        !s.contains(x),
    ensures
        count_equal(s, n, x) == 0,
    decreases n,
{
    if n > 0 {
        lemma_count_equal_absent(s, (n - 1) as nat, x);
        assert(s[n - 1] != x);
    }
}

proof fn lemma_best_insertion_range(m: Seq<Seq<usize>>, order: Seq<usize>, u: int, j: int)
    requires
        0 <= j <= order.len(),
    ensures
        j <= best_insertion(m, order, u, j).1 <= order.len(),
    decreases order.len() - j,
{
    if j < order.len() {
        lemma_best_insertion_range(m, order, u, j + 1);
    }
}

/// The insertion order of `n` nodes lists each of `0 .. n` exactly once.
proof fn lemma_insertion_order_permutation(m: Seq<Seq<usize>>, n: nat)
    requires
        n <= usize::MAX,
    ensures
        is_permutation(insertion_order(m, n), n),
    decreases n,
{
    if n > 0 {
        let k = (n - 1) as nat;
        lemma_insertion_order_permutation(m, k);
        let before = insertion_order(m, k);
        let pos = best_insertion(m, before, k as int, 0).1;
        lemma_best_insertion_range(m, before, k as int, 0);
        let after = before.insert(pos, k as usize);
        assert(after == insertion_order(m, n));
        assert forall|i: int| 0 <= i < after.len() implies #[trigger] after[i] < n by {
            if i < pos {
                assert(after[i] == before[i]);
            } else if i > pos {
                assert(after[i] == before[i - 1]);
            }
        }
        assert forall|i: int, j: int| 0 <= i < j < after.len() implies after[i] != after[j] by {
            if i != pos && j != pos {
                let i0 = if i < pos { i } else { i - 1 };
                let j0 = if j < pos { j } else { j - 1 };
                assert(after[i] == before[i0]);
                assert(after[j] == before[j0]);
            } else if i == pos {
                let j0 = if j < pos { j } else { j - 1 };
                assert(after[j] == before[j0]);
                assert(before[j0] < k);
                assert(after[i] == k as usize);
            } else {
                let i0 = if i < pos { i } else { i - 1 };
                assert(after[i] == before[i0]);
                assert(before[i0] < k);
                assert(after[j] == k as usize);
            }
        }
        assert forall|v: usize| v < n implies #[trigger] after.contains(v) by {
            if v == k {
                assert(after[pos] == v);
            } else {
                assert(before.contains(v));
                let i = choose|i: int| 0 <= i < before.len() && before[i] == v;
                if i < pos {
                    assert(after[i] == v);
                } else {
                    assert(after[i + 1] == v);
                }
            }
        }
    }
}

/// The crossing costs of both orders of two free nodes with ascending
/// neighbour lists `neighbors_u` and `neighbors_v`, found by one merge of the
/// two lists.
fn pair_costs(neighbors_u: &Vec<usize>, neighbors_v: &Vec<usize>) -> (r: (usize, usize))
    requires
        strictly_ascending(neighbors_u@),
        strictly_ascending(neighbors_v@),
        neighbors_u@.len() * neighbors_v@.len() <= usize::MAX,
    ensures
        r.0 == crossing_cost(neighbors_u@, neighbors_v@),
        r.1 == crossing_cost(neighbors_v@, neighbors_u@),
{
    let ghost su = neighbors_u@;
    let ghost sv = neighbors_v@;
    let degree_v = neighbors_v.len();
    let mut c_uv: usize = 0;
    let mut c_vu: usize = 0;
    let mut scan: usize = 0;
    let mut i: usize = 0;
    while i < neighbors_u.len()
        invariant
            su == neighbors_u@,
            sv == neighbors_v@,
            degree_v == sv.len(),
            strictly_ascending(su),
            strictly_ascending(sv),
            su.len() * sv.len() <= usize::MAX,
            i <= su.len(),
            scan <= degree_v,
            i < su.len() ==> forall|k: int| 0 <= k < scan ==> #[trigger] sv[k] < su[i as int],
            c_uv == cost_sum(su, i as nat, sv, sv.len()),
            c_vu == above_sum(su, i as nat, sv, sv.len()),
            c_uv + c_vu <= i * sv.len(),
        decreases su.len() - i,
    {
        let x = neighbors_u[i];
        while scan < degree_v && neighbors_v[scan] < x
            invariant
                sv == neighbors_v@,
                degree_v == sv.len(),
                scan <= degree_v,
                forall|k: int| 0 <= k < scan ==> #[trigger] sv[k] < x,
            decreases degree_v - scan,
        {
            scan = scan + 1;
        }
        let shared: usize = if scan < degree_v && neighbors_v[scan] == x {
            1
        } else {
            0
        };
        proof {
            assert forall|k: int| scan <= k < sv.len() implies #[trigger] sv[k] >= x by {
                if k > scan {
                    assert(sv[scan as int] < sv[k]);
                }
            }
            lemma_split_counts(sv, sv.len(), x, scan as nat);
            assert(c_uv + c_vu + sv.len() <= (i + 1) * sv.len()) by (nonlinear_arith)
                requires
                    c_uv + c_vu <= i * sv.len(),
            ;
            assert((i + 1) * sv.len() <= su.len() * sv.len()) by (nonlinear_arith)
                requires
                    i + 1 <= su.len(),
            ;
            if i + 1 < su.len() {
                assert(su[i as int] < su[i + 1]);
            }
        }
        c_uv = c_uv + scan;
        c_vu = c_vu + (degree_v - scan - shared);
        i = i + 1;
    }
    proof {
        lemma_cost_swap(sv, sv.len(), su, su.len());
    }
    (c_uv, c_vu)
}

/// For an ascending `s` whose entries before index `j` are below `x` and the
/// rest at least `x`: the counts of entries below and above `x`.
proof fn lemma_split_counts(s: Seq<usize>, n: nat, x: usize, j: nat)
    requires
        strictly_ascending(s),
        n <= s.len(),
        j <= s.len(),
        forall|k: int| 0 <= k < j ==> #[trigger] s[k] < x,
        forall|k: int| j <= k < s.len() ==> #[trigger] s[k] >= x,
    ensures
        count_below(s, n, x) == if n <= j {
            n
        } else {
            j
        },
        count_above(s, n, x) == if n <= j {
            0
        } else {
            n - j - if s[j as int] == x {
                1int
            } else {
                0int
            }
        },
    decreases n,
{
    if n > 0 {
        lemma_split_counts(s, (n - 1) as nat, x, j);
        if n - 1 > j {
            assert(s[j as int] < s[n - 1]);
        }
    }
}

/// Counting the pairs `q < p` from either side gives the same number.
proof fn lemma_cost_swap(s1: Seq<usize>, n: nat, s2: Seq<usize>, m: nat)
    ensures
        cost_sum(s1, n, s2, m) == above_sum(s2, m, s1, n),
    decreases m,
{
    if m > 0 {
        lemma_cost_swap(s1, n, s2, (m - 1) as nat);
        lemma_cost_peel(s1, n, s2, m);
    } else {
        lemma_cost_sum_empty(s1, n, s2);
    }
}

proof fn lemma_cost_sum_empty(s1: Seq<usize>, n: nat, s2: Seq<usize>)
    ensures
        cost_sum(s1, n, s2, 0) == 0,
    decreases n,
{
    if n > 0 {
        lemma_cost_sum_empty(s1, (n - 1) as nat, s2);
    }
}

proof fn lemma_cost_peel(s1: Seq<usize>, n: nat, s2: Seq<usize>, m: nat)
    requires
        m > 0,
    ensures
        cost_sum(s1, n, s2, m) == cost_sum(s1, n, s2, (m - 1) as nat) + count_above(s1, n, s2[m - 1]),
    decreases n,
{
    if n > 0 {
        lemma_cost_peel(s1, (n - 1) as nat, s2, m);
    }
}

/// A free node has at most as many neighbours as there are fixed nodes.
proof fn lemma_free_degree(g: super::GraphView, f: int)
    requires
        g.wf(),
        g.is_free(f),
    ensures
        strictly_ascending(g.adj[f]),
        g.adj[f].len() <= g.fixed,
{
    assert(strictly_ascending(g.adj[f]));
    assert forall|k: int| 0 <= k < g.adj[f].len() implies 0 <= #[trigger] g.adj[f][k] < g.fixed by {
        assert(g.is_fixed(g.adj[f][k] as int));
    }
    super::lemma_ascending_len(g.adj[f], 0, g.fixed as int);
}

} // verus!
