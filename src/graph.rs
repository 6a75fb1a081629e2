pub mod mirror;
pub mod penalty_digraph;

use vstd::prelude::*;

use crate::error::Error;

use self::penalty_digraph::{count_equal, lemma_count_equal_absent};

verus! {

/// A two-layer graph: fixed nodes `0..fixed`, free nodes `fixed..fixed + free`,
/// and edges that each join one fixed node to one free node.
#[derive(Debug)]
pub struct Graph {
    number_of_nodes: usize,
    number_of_fixed_nodes: usize,
    number_of_free_nodes: usize,
    number_of_edges: usize,
    adjacency_list: Vec<Vec<usize>>,
}

/// The abstract value of a [`Graph`]: its two layer sizes, its edge count and,
/// for every node, its neighbours in ascending order.
pub struct GraphView {
    pub fixed: nat,
    pub free: nat,
    pub edges: nat,
    pub adj: Seq<Seq<usize>>,
}

/// `s` is in strictly ascending order.
pub open spec fn strictly_ascending(s: Seq<usize>) -> bool {
    forall|i: int, j: int| 0 <= i < j < s.len() ==> s[i] < s[j]
}

/// The summed lengths of the first `n` lists of `adj`.
pub open spec fn degree_sum(adj: Seq<Seq<usize>>, n: nat) -> nat
    decreases n,
{
    if n == 0 {
        0
    } else {
        degree_sum(adj, (n - 1) as nat) + adj[n - 1].len()
    }
}


/// How many of the first `n` entries of `s` rank below `r`, the rank of node
/// `f` being `rank[f - offset]`.
pub open spec fn ranked_below(s: Seq<usize>, n: nat, rank: Seq<int>, offset: int, r: int) -> nat
    decreases n,
{
    if n == 0 {
        0
    } else {
        ranked_below(s, (n - 1) as nat, rank, offset, r) + if rank[s[n - 1] - offset] < r {
            1nat
        } else {
            0nat
        }
    }
}

/// Crossings between the edges from one fixed node to the first `n` entries of
/// `s1` and the edges from a later fixed node to the entries of `s2`: such a
/// pair crosses when the later node's neighbour ranks below the earlier one's.
pub open spec fn pair_crossings(s1: Seq<usize>, n: nat, s2: Seq<usize>, rank: Seq<int>, offset: int) -> nat
    decreases n,
{
    if n == 0 {
        0
    } else {
        pair_crossings(s1, (n - 1) as nat, s2, rank, offset) + ranked_below(
            s2,
            s2.len(),
            rank,
            offset,
            rank[s1[n - 1] - offset],
        )
    }
}

/// Crossings between the edges of fixed node `x1` and those of the fixed
/// nodes `x1 + 1 .. end`.
pub open spec fn row_crossings(adj: Seq<Seq<usize>>, x1: nat, end: nat, rank: Seq<int>, offset: int) -> nat
    decreases end,
{
    if end <= x1 + 1 {
        0
    } else {
        row_crossings(adj, x1, (end - 1) as nat, rank, offset) + pair_crossings(
            adj[x1 as int],
            adj[x1 as int].len(),
            adj[end - 1],
            rank,
            offset,
        )
    }
}

/// Crossings between the edges of each of the first `n` fixed nodes and those
/// of every later fixed node below `fixed`.
pub open spec fn crossings_upto(adj: Seq<Seq<usize>>, n: nat, fixed: nat, rank: Seq<int>, offset: int) -> nat
    decreases n,
{
    if n == 0 {
        0
    } else {
        crossings_upto(adj, (n - 1) as nat, fixed, rank, offset) + row_crossings(
            adj,
            (n - 1) as nat,
            fixed,
            rank,
            offset,
        )
    }
}

/// The rank of every free node when the free nodes stand in id order.
pub open spec fn identity_rank(free: nat) -> Seq<int> {
    Seq::new(free, |k: int| k)
}

/// `ord` lists every free node id `fixed .. fixed + free` exactly once.
pub open spec fn is_free_permutation(ord: Seq<usize>, fixed: nat, free: nat) -> bool {
    &&& ord.len() == free
    &&& forall|i: int| 0 <= i < ord.len() ==> fixed <= #[trigger] ord[i] < fixed + free
    &&& forall|i: int, j: int| 0 <= i < j < ord.len() ==> ord[i] != ord[j]
    &&& forall|k: int| 0 <= k < free ==> #[trigger] occurs(ord, fixed + k)
}

/// Node `v` stands somewhere in `ord`.
pub open spec fn occurs(ord: Seq<usize>, v: int) -> bool {
    exists|i: int| 0 <= i < ord.len() && ord[i] == v
}

/// The position in `ord` of each free node, indexed by `id - fixed`.
pub open spec fn positions(ord: Seq<usize>, fixed: nat) -> Seq<int> {
    Seq::new(ord.len(), |k: int| choose|i: int| 0 <= i < ord.len() && ord[i] == fixed + k)
}

/// A sequence of machine integers as mathematical integers.
pub open spec fn as_ints(s: Seq<usize>) -> Seq<int> {
    s.map_values(|v: usize| v as int)
}

/// How often `v` appears in the first `n` lists of `adj`.
pub open spec fn incoming(adj: Seq<Seq<usize>>, n: nat, v: usize) -> nat
    decreases n,
{
    if n == 0 {
        0
    } else {
        incoming(adj, (n - 1) as nat, v) + count_equal(adj[n - 1], adj[n - 1].len(), v)
    }
}

/// The nodes among the first `n` whose neighbour lists are empty, ascending.
pub open spec fn isolated_upto(adj: Seq<Seq<usize>>, n: nat) -> Seq<usize>
    decreases n,
{
    if n == 0 {
        Seq::empty()
    } else if adj[n - 1].len() == 0 {
        isolated_upto(adj, (n - 1) as nat).push((n - 1) as usize)
    } else {
        isolated_upto(adj, (n - 1) as nat)
    }
}

impl GraphView {
    pub open spec fn nodes(self) -> nat {
        self.fixed + self.free
    }

    pub open spec fn is_fixed(self, i: int) -> bool {
        0 <= i < self.fixed
    }

    pub open spec fn is_free(self, i: int) -> bool {
        self.fixed <= i < self.fixed + self.free
    }

    /// Whether the edge between fixed node `x` and free node `f` is present.
    pub open spec fn has_edge(self, x: int, f: int) -> bool {
        self.adj[x].contains(f as usize)
    }

    /// The structural invariant: one neighbour list per node, each ascending,
    /// edges only between the layers, symmetric lists, and `edges` equal to
    /// the number of edges present.
    pub open spec fn wf(self) -> bool {
        &&& self.adj.len() == self.nodes()
        &&& forall|i: int| 0 <= i < self.adj.len() ==> #[trigger] strictly_ascending(self.adj[i])
        &&& forall|x: int, k: int|
            self.is_fixed(x) && 0 <= k < self.adj[x].len() ==> self.is_free(#[trigger] self.adj[x][k] as int)
        &&& forall|f: int, k: int|
            self.is_free(f) && 0 <= k < self.adj[f].len() ==> self.is_fixed(#[trigger] self.adj[f][k] as int)
        &&& forall|x: int, f: int|
            self.is_fixed(x) && self.is_free(f) ==> (#[trigger] self.adj[x].contains(f as usize)
                <==> #[trigger] self.adj[f].contains(x as usize))
        &&& self.edges == degree_sum(self.adj, self.fixed)
    }

    /// The number of crossing edge pairs when free node `f` stands at
    /// position `rank[f - fixed]`.
    pub open spec fn crossings(self, rank: Seq<int>) -> nat {
        crossings_upto(self.adj, self.fixed, self.fixed, rank, self.fixed as int)
    }
}

impl View for Graph {
    type V = GraphView;

    closed spec fn view(&self) -> GraphView {
        GraphView {
            fixed: self.number_of_fixed_nodes as nat,
            free: self.number_of_free_nodes as nat,
            edges: self.number_of_edges as nat,
            adj: self.adjacency_list@.map_values(|l: Vec<usize>| l@),
        }
    }
}

impl Graph {
    /// The graph's invariant: its view is well formed and the node count
    /// fits in `usize`.
    pub open spec fn wf(&self) -> bool {
        &&& self.shape()
        &&& self@.wf()
        &&& self@.nodes() <= usize::MAX
    }

    /// The stored node count and the list of neighbour lists match the layers.
    pub closed spec fn shape(&self) -> bool {
        &&& self.number_of_nodes == self.number_of_fixed_nodes + self.number_of_free_nodes
        &&& self.adjacency_list@.len() == self.number_of_nodes
    }

    /// The number of nodes of both layers.
    pub fn number_of_nodes(&self) -> (r: usize)
        requires
            self.wf(),
        ensures
            r == self@.nodes(),
    {
        self.number_of_nodes
    }

    /// The number of fixed nodes.
    pub fn number_of_fixed_nodes(&self) -> (r: usize)
        ensures
            r == self@.fixed,
    {
        self.number_of_fixed_nodes
    }

    /// The number of free nodes.
    pub fn number_of_free_nodes(&self) -> (r: usize)
        ensures
            r == self@.free,
    {
        self.number_of_free_nodes
    }

    /// The number of edges.
    pub fn number_of_edges(&self) -> (r: usize)
        ensures
            r == self@.edges,
    {
        self.number_of_edges
    }

    /// An empty graph with the given layer sizes.
    pub fn new(number_of_fixed_nodes: usize, number_of_free_nodes: usize) -> (g: Graph)
        requires
            number_of_fixed_nodes + number_of_free_nodes <= usize::MAX,
        ensures
            g.wf(),
            g@.fixed == number_of_fixed_nodes,
            g@.free == number_of_free_nodes,
            g@.edges == 0,
            g@.adj == Seq::new(g@.nodes(), |i: int| Seq::<usize>::empty()),
    {
        let number_of_nodes = number_of_fixed_nodes + number_of_free_nodes;
        let mut adjacency_list: Vec<Vec<usize>> = Vec::new();
        let mut i: usize = 0;
        while i < number_of_nodes
            invariant
                i <= number_of_nodes,
                adjacency_list@.len() == i,
                forall|k: int| 0 <= k < i ==> (#[trigger] adjacency_list@[k])@.len() == 0,
            decreases number_of_nodes - i,
        {
            adjacency_list.push(Vec::new());
            i = i + 1;
        }
        let g = Graph {
            number_of_nodes,
            number_of_fixed_nodes,
            number_of_free_nodes,
            number_of_edges: 0,
            adjacency_list,
        };
        proof {
            assert forall|k: int| 0 <= k < g@.adj.len() implies g@.adj[k] =~= Seq::<usize>::empty() by {}
            assert(g@.adj =~= Seq::new(g@.nodes(), |i: int| Seq::<usize>::empty()));
            lemma_degree_sum_empty(g@.adj, g@.fixed);
        }
        g
    }

    /// Inserts the edge between fixed node `node_index1` and free node
    /// `node_index2`. Returns whether the edge was new; an edge already present
    /// leaves the graph as it was.
    pub fn add_edge(&mut self, node_index1: usize, node_index2: usize) -> (r: Result<bool, Error>)
        requires
            old(self).wf(),
            old(self)@.edges < usize::MAX,
        ensures
            final(self).wf(),
            final(self)@.fixed == old(self)@.fixed,
            final(self)@.free == old(self)@.free,
            match r {
                Ok(inserted) => {
                    &&& old(self)@.is_fixed(node_index1 as int)
                    &&& old(self)@.is_free(node_index2 as int)
                    &&& inserted == !old(self)@.has_edge(node_index1 as int, node_index2 as int)
                    &&& final(self)@.edges == old(self)@.edges + if inserted {
                        1nat
                    } else {
                        0nat
                    }
                    &&& forall|x: int, f: int|
                        old(self)@.is_fixed(x) && old(self)@.is_free(f) ==> (#[trigger] final(self)@.has_edge(x, f)
                            <==> (old(self)@.has_edge(x, f) || (x == node_index1 && f == node_index2)))
                },
                Err(e) => {
                    &&& !(old(self)@.is_fixed(node_index1 as int) && old(self)@.is_free(node_index2 as int))
                    &&& e is IndexError
                    &&& final(self)@ == old(self)@
                },
            },
    {
        match self.check_fixed_node_index(node_index1) {
            Ok(()) => {},
            Err(e) => return Err(e),
        }
        match self.check_free_node_index(node_index2) {
            Ok(()) => {},
            Err(e) => return Err(e),
        }
        let ghost old_view = self@;
        let ghost old_adj = self@.adj;
        let ghost a = node_index1 as int;
        let ghost b = node_index2 as int;
        assert(self.adjacency_list@[a]@ == old_adj[a]);
        assert(self.adjacency_list@[b]@ == old_adj[b]);
        assert(strictly_ascending(old_adj[a]));
        assert(strictly_ascending(old_adj[b]));
        let position1 = lower_bound(&self.adjacency_list[node_index1], node_index2);
        if position1 < self.adjacency_list[node_index1].len()
            && self.adjacency_list[node_index1][position1] == node_index2 {
            assert(old_adj[a][position1 as int] == node_index2);
            return Ok(false);
        }
        proof {
            lemma_lower_bound_absent(old_adj[a], node_index2, position1 as int);
            assert(old_adj[a].contains(b as usize) <==> old_adj[b].contains(a as usize));
        }
        let position2 = lower_bound(&self.adjacency_list[node_index2], node_index1);
        proof {
            lemma_lower_bound_absent(old_adj[b], node_index1, position2 as int);
            lemma_insert_ascending(old_adj[a], node_index2, position1 as int);
            lemma_insert_ascending(old_adj[b], node_index1, position2 as int);
        }
        self.adjacency_list[node_index1].insert(position1, node_index2);
        self.adjacency_list[node_index2].insert(position2, node_index1);
        self.number_of_edges = self.number_of_edges + 1;
        proof {
            let s1 = old_adj[a].insert(position1 as int, node_index2);
            let s2 = old_adj[b].insert(position2 as int, node_index1);
            let new_adj = self@.adj;
            assert(new_adj =~= old_adj.update(a, s1).update(b, s2));
            lemma_degree_sum_update(old_adj, a, s1, old_view.fixed);
            lemma_degree_sum_update(old_adj.update(a, s1), b, s2, old_view.fixed);
            let g = self@;
            assert forall|x: int, k: int| g.is_fixed(x) && 0 <= k < g.adj[x].len() implies g.is_free(
                #[trigger] g.adj[x][k] as int,
            ) by {
                if x == a {
                    if k != position1 {
                        let k0 = if k < position1 { k } else { k - 1 };
                        assert(old_adj[a][k0] == g.adj[x][k]);
                    }
                }
            }
            assert forall|f: int, k: int| g.is_free(f) && 0 <= k < g.adj[f].len() implies g.is_fixed(
                #[trigger] g.adj[f][k] as int,
            ) by {
                if f == b {
                    if k != position2 {
                        let k0 = if k < position2 { k } else { k - 1 };
                        assert(old_adj[b][k0] == g.adj[f][k]);
                    }
                }
            }
            assert forall|x: int, f: int| g.is_fixed(x) && g.is_free(f) implies (#[trigger] g.adj[x].contains(
                f as usize,
            ) <==> #[trigger] g.adj[f].contains(x as usize)) && (g.has_edge(x, f) <==> (old_view.has_edge(x, f)
                || (x == a && f == b))) by {
                assert(old_adj[x].contains(f as usize) <==> old_adj[f].contains(x as usize));
            }
            assert forall|i: int| 0 <= i < g.adj.len() implies #[trigger] strictly_ascending(g.adj[i]) by {
                assert(strictly_ascending(old_adj[i]));
            }
        }
        Ok(true)
    }

    /// Whether nodes `index1` and `index2` are joined by an edge.
    pub fn does_edge_exist(&self, index1: usize, index2: usize) -> (r: Result<bool, Error>)
        requires
            self.wf(),
        ensures
            match r {
                Ok(exists) => index1 < self@.nodes() && index2 < self@.nodes() && exists
                    == self@.adj[index1 as int].contains(index2),
                Err(e) => (index1 >= self@.nodes() || index2 >= self@.nodes()) && e is IndexError,
            },
    {
        if index1 >= self.number_of_nodes || index2 >= self.number_of_nodes {
            return Err(Error::IndexError("Index is out of bounds".to_string()));
        }
        let neighbors = &self.adjacency_list[index1];
        assert(neighbors@ == self@.adj[index1 as int]);
        let position = lower_bound(neighbors, index2);
        if position < neighbors.len() && neighbors[position] == index2 {
            Ok(true)
        } else {
            proof {
                lemma_lower_bound_absent(neighbors@, index2, position as int);
            }
            Ok(false)
        }
    }

    fn check_fixed_node_index(&self, index: usize) -> (r: Result<(), Error>)
        requires
            self.wf(),
        ensures
            r is Ok <==> self@.is_fixed(index as int),
            r matches Err(e) ==> e is IndexError,
    {
        if index < self.number_of_fixed_nodes {
            Ok(())
        } else {
            Err(Error::IndexError("Fixed index is out of bounds".to_string()))
        }
    }

    fn check_free_node_index(&self, index: usize) -> (r: Result<(), Error>)
        requires
            self.wf(),
        ensures
            r is Ok <==> self@.is_free(index as int),
            r matches Err(e) ==> e is IndexError,
    {
        if self.number_of_fixed_nodes <= index && index < self.number_of_nodes {
            Ok(())
        } else {
            Err(Error::IndexError("Free index is out of bounds".to_string()))
        }
    }

    /// A feedback arc set read off the topological order of the nodes: the
    /// neighbours of the sorted nodes, each once. The topological pass only
    /// reaches nodes with no incoming entries, and in a graph whose neighbour
    /// lists are symmetric those are the isolated nodes, so the set is empty.
    pub fn sort_fas(&self) -> (feedback_arc_set: Vec<usize>)
        requires
            self.wf(),
        ensures
            feedback_arc_set@ == Seq::<usize>::empty(),
    {
        let ghost adj = self@.adj;
        let sorted_nodes = self.sort_nodes();
        let mut feedback_arc_set: Vec<usize> = Vec::new();
        let mut removed_nodes: Vec<bool> = vec![false; self.number_of_nodes];
        let mut i: usize = 0;
        while i < sorted_nodes.len()
            invariant
                self.wf(),
                adj == self@.adj,
                removed_nodes@.len() == self@.nodes(),
                sorted_nodes@ == isolated_upto(adj, self@.nodes()),
                feedback_arc_set@ == Seq::<usize>::empty(),
            decreases sorted_nodes.len() - i,
        {
            let node_index = sorted_nodes[i];
            proof {
                lemma_isolated_upto(adj, self@.nodes(), i as int);
            }
            let neighbors = &self.adjacency_list[node_index];
            assert(neighbors@ == adj[node_index as int]);
            let mut k: usize = 0;
            while k < neighbors.len()
                invariant
                    neighbors@.len() == 0,
                    removed_nodes@.len() == self@.nodes(),
                    feedback_arc_set@ == Seq::<usize>::empty(),
                decreases neighbors.len() - k,
            {
                let neighbor_index = neighbors[k];
                if neighbor_index < removed_nodes.len() && !removed_nodes[neighbor_index] {
                    removed_nodes.set(neighbor_index, true);
                    feedback_arc_set.push(neighbor_index);
                }
                k = k + 1;
            }
            i = i + 1;
        }
        feedback_arc_set
    }

    /// The nodes in a topological order of the neighbour lists read as
    /// directed edges: nodes without incoming entries first, each releasing
    /// its neighbours. As every list is matched by its reverse, this is the
    /// ascending list of isolated nodes.
    fn sort_nodes(&self) -> (sorted_nodes: Vec<usize>)
        requires
            self.wf(),
        ensures
            sorted_nodes@ == isolated_upto(self@.adj, self@.nodes()),
    {
        let ghost adj = self@.adj;
        let node_count = self.number_of_nodes;
        let mut in_degree: Vec<usize> = vec![0usize; node_count];
        let mut i: usize = 0;
        while i < node_count
            invariant
                self.wf(),
                adj == self@.adj,
                node_count == self@.nodes(),
                i <= node_count,
                in_degree@.len() == node_count,
                forall|v: int| 0 <= v < node_count ==> #[trigger] in_degree@[v] == incoming(adj, i as nat, v as usize),
                forall|v: int| 0 <= v < node_count ==> #[trigger] in_degree@[v] <= i,
            decreases node_count - i,
        {
            let neighbors = &self.adjacency_list[i];
            assert(neighbors@ == adj[i as int]);
            assert(strictly_ascending(adj[i as int]));
            let mut k: usize = 0;
            while k < neighbors.len()
                invariant
                    self.wf(),
                    adj == self@.adj,
                    node_count == self@.nodes(),
                    i < node_count,
                    neighbors@ == adj[i as int],
                    strictly_ascending(neighbors@),
                    k <= neighbors@.len(),
                    in_degree@.len() == node_count,
                    forall|v: int|
                        0 <= v < node_count ==> #[trigger] in_degree@[v] == incoming(adj, i as nat, v as usize)
                            + count_equal(neighbors@, k as nat, v as usize),
                    forall|v: int| 0 <= v < node_count ==> #[trigger] in_degree@[v] <= i + count_equal(
                        neighbors@,
                        k as nat,
                        v as usize,
                    ),
                    forall|v: usize| #[trigger] count_equal(neighbors@, k as nat, v) <= 1,
                    forall|v: usize|
                        k < neighbors@.len() && #[trigger] count_equal(neighbors@, k as nat, v) == 1 ==> v
                            < neighbors@[k as int],
                decreases neighbors.len() - k,
            {
                let neighbor_index = neighbors[k];
                proof {
                    lemma_neighbor_in_range(self@, i as int, k as int);
                    let s = neighbors@;
                    assert forall|v: usize| #[trigger] count_equal(s, (k + 1) as nat, v) <= 1 && (k + 1 < s.len()
                        && count_equal(s, (k + 1) as nat, v) == 1 ==> v < s[k + 1]) by {
                        assert(count_equal(s, (k + 1) as nat, v) == count_equal(s, k as nat, v) + if s[k as int] == v {
                            1nat
                        } else {
                            0nat
                        });
                        assert(count_equal(s, k as nat, v) <= 1);
                        if k + 1 < s.len() {
                            assert(s[k as int] < s[k + 1]);
                        }
                        if count_equal(s, k as nat, v) == 1 {
                            assert(v < s[k as int]);
                        }
                    }
                }
                in_degree.set(neighbor_index, in_degree[neighbor_index] + 1);
                k = k + 1;
            }
            proof {
                assert forall|v: int| 0 <= v < node_count implies #[trigger] in_degree@[v] <= i + 1 by {}
            }
            i = i + 1;
        }
        let mut queue: Vec<usize> = Vec::new();
        let mut v: usize = 0;
        while v < node_count
            invariant
                self.wf(),
                adj == self@.adj,
                node_count == self@.nodes(),
                v <= node_count,
                in_degree@.len() == node_count,
                forall|w: int| 0 <= w < node_count ==> #[trigger] in_degree@[w] == incoming(adj, node_count as nat, w as usize),
                queue@ == isolated_upto(adj, v as nat),
            decreases node_count - v,
        {
            proof {
                lemma_no_incoming_is_isolated(self@, v as int);
            }
            if in_degree[v] == 0 {
                queue.push(v);
            }
            v = v + 1;
        }
        let mut sorted_nodes: Vec<usize> = Vec::new();
        let mut head: usize = 0;
        while head < queue.len()
            invariant
                self.wf(),
                adj == self@.adj,
                node_count == self@.nodes(),
                in_degree@.len() == node_count,
                queue@ == isolated_upto(adj, node_count as nat),
                head <= queue@.len(),
                sorted_nodes@ == queue@.take(head as int),
            decreases queue.len() - head,
        {
            let next_index = queue[head];
            proof {
                lemma_isolated_upto(adj, node_count as nat, head as int);
            }
            sorted_nodes.push(next_index);
            let neighbors = &self.adjacency_list[next_index];
            assert(neighbors@ == adj[next_index as int]);
            let mut k: usize = 0;
            while k < neighbors.len()
                invariant
                    neighbors@.len() == 0,
                    in_degree@.len() == node_count,
                    queue@ == isolated_upto(adj, node_count as nat),
                decreases neighbors.len() - k,
            {
                let neighbor_index = neighbors[k];
                let degree = in_degree[neighbor_index];
                if degree >= 2 {
                    in_degree.set(neighbor_index, degree - 1);
                } else if degree == 1 {
                    in_degree.set(neighbor_index, 0);
                    queue.push(neighbor_index);
                }
                k = k + 1;
            }
            assert(queue@.take(head + 1) =~= queue@.take(head as int).push(next_index));
            head = head + 1;
        }
        assert(queue@.take(queue@.len() as int) =~= queue@);
        sorted_nodes
    }

    /// The lowest free node that fixed node `x` is not joined to, or `None`
    /// when `x` is joined to every free node.
    pub(crate) fn first_non_neighbor(&self, x: usize) -> (r: Option<usize>)
        requires
            self.wf(),
            self@.is_fixed(x as int),
        ensures
            r matches Some(f) ==> self@.is_free(f as int) && !self@.has_edge(x as int, f as int),
            r is None ==> self@.adj[x as int].len() == self@.free,
    {
        let ghost g = self@;
        let neighbors = &self.adjacency_list[x];
        let fixed_count = self.number_of_fixed_nodes;
        let free_count = self.number_of_free_nodes;
        assert(neighbors@ == g.adj[x as int]);
        assert(strictly_ascending(neighbors@));
        let mut c: usize = 0;
        while c < neighbors.len() && c < free_count && neighbors[c] == fixed_count + c
            invariant
                neighbors@ == g.adj[x as int],
                fixed_count == g.fixed,
                free_count == g.free,
                fixed_count + free_count <= usize::MAX,
                c <= neighbors@.len(),
                c <= free_count,
                forall|i: int| 0 <= i < c ==> #[trigger] neighbors@[i] == fixed_count + i,
            decreases free_count - c,
        {
            c = c + 1;
        }
        if c < free_count {
            proof {
                let v = (fixed_count + c) as usize;
                if c < neighbors@.len() {
                    assert(g.is_free(g.adj[x as int][c as int] as int));
                    if c > 0 {
                        assert(neighbors@[c - 1] < neighbors@[c as int]);
                    }
                    assert(neighbors@[c as int] > v);
                }
                if neighbors@.contains(v) {
                    let i = choose|i: int| 0 <= i < neighbors@.len() && neighbors@[i] == v;
                    if i > c {
                        assert(neighbors@[c as int] < neighbors@[i]);
                    }
                }
            }
            Some(fixed_count + c)
        } else {
            proof {
                assert forall|k: int| 0 <= k < neighbors@.len() implies fixed_count <= #[trigger] neighbors@[k]
                    < fixed_count + free_count by {
                    assert(g.is_free(g.adj[x as int][k] as int));
                }
                lemma_ascending_len(neighbors@, fixed_count as int, fixed_count + free_count);
            }
            None
        }
    }

    /// The position of each free node in `ordering`, indexed by `id - fixed`,
    /// or `None` when `ordering` is not a permutation of the free node ids.
    fn free_positions(&self, ordering: &Vec<usize>) -> (r: Option<Vec<usize>>)
        requires
            self.wf(),
        ensures
            r is Some <==> is_free_permutation(ordering@, self@.fixed, self@.free),
            r matches Some(p) ==> p@.len() == self@.free && as_ints(p@) == positions(
                ordering@,
                self@.fixed,
            ),
    {
        let ghost fixed = self@.fixed;
        let ghost free = self@.free;
        let free_count = self.number_of_free_nodes;
        let fixed_count = self.number_of_fixed_nodes;
        if ordering.len() != free_count {
            return None;
        }
        let mut position_of: Vec<usize> = vec![0usize; free_count];
        let mut seen: Vec<bool> = vec![false; free_count];
        let mut i: usize = 0;
        while i < ordering.len()
            invariant
                fixed == fixed_count,
                free == free_count,
                fixed == self@.fixed,
                free == self@.free,
                fixed + free <= usize::MAX,
                ordering@.len() == free,
                i <= free,
                position_of@.len() == free,
                seen@.len() == free,
                forall|j: int| 0 <= j < i ==> fixed <= #[trigger] ordering@[j] < fixed + free,
                forall|j1: int, j2: int| 0 <= j1 < j2 < i ==> ordering@[j1] != ordering@[j2],
                forall|k: int|
                    0 <= k < free ==> (#[trigger] seen@[k] <==> exists|j: int|
                        0 <= j < i && ordering@[j] == fixed + k),
                forall|k: int|
                    0 <= k < free && #[trigger] seen@[k] ==> position_of@[k] < i && ordering@[position_of@[k] as int]
                        == fixed + k,
            decreases free - i,
        {
            let id = ordering[i];
            if id < fixed_count || id - fixed_count >= free_count {
                proof {
                    assert(!(fixed <= ordering@[i as int] < fixed + free));
                }
                return None;
            }
            let k = id - fixed_count;
            if seen[k] {
                proof {
                    let j = choose|j: int| 0 <= j < i && ordering@[j] == fixed + k;
                    assert(ordering@[j] == ordering@[i as int]);
                }
                return None;
            }
            seen.set(k, true);
            position_of.set(k, i);
            i = i + 1;
        }
        let mut k: usize = 0;
        while k < free_count
            invariant
                fixed == fixed_count,
                free == free_count,
                fixed == self@.fixed,
                free == self@.free,
                ordering@.len() == free,
                position_of@.len() == free,
                seen@.len() == free,
                k <= free,
                forall|m: int| 0 <= m < k ==> #[trigger] seen@[m],
                forall|m: int|
                    0 <= m < free ==> (#[trigger] seen@[m] <==> exists|j: int|
                        0 <= j < free && ordering@[j] == fixed + m),
                forall|m: int|
                    0 <= m < free && #[trigger] seen@[m] ==> position_of@[m] < free && ordering@[position_of@[m] as int]
                        == fixed + m,
            decreases free - k,
        {
            if !seen[k] {
                proof {
                    let m: int = k as int;
                    assert(!occurs(ordering@, fixed + m));
                }
                return None;
            }
            k = k + 1;
        }
        proof {
            assert forall|m: int| 0 <= m < free implies #[trigger] occurs(ordering@, fixed + m) by {
                assert(seen@[m]);
            }
            let pos = positions(ordering@, fixed);
            assert forall|m: int| 0 <= m < free implies as_ints(position_of@)[m] == pos[m] by {
                assert(seen@[m]);
                assert(occurs(ordering@, fixed + m));
                let c = choose|c: int| 0 <= c < ordering@.len() && ordering@[c] == fixed + m;
                assert(pos[m] == c);
                let p = position_of@[m] as int;
                if c < p {
                    assert(ordering@[c] != ordering@[p]);
                } else if p < c {
                    assert(ordering@[p] != ordering@[c]);
                }
            }
            assert(as_ints(position_of@) =~= pos);
        }
        Some(position_of)
    }

    /// Counts the crossings when the free nodes stand in the order given by
    /// `ordering`: the edges `(x1, f1)` and `(x2, f2)` with `x1 < x2` cross
    /// when `f2` comes before `f1`.
    pub fn compute_number_of_crossings_for_ordering(&self, ordering: &Vec<usize>) -> (r: Result<usize, Error>)
        requires
            self.wf(),
            self@.edges * self@.edges <= usize::MAX,
        ensures
            match r {
                Ok(count) => is_free_permutation(ordering@, self@.fixed, self@.free) && count
                    == self@.crossings(positions(ordering@, self@.fixed)),
                Err(e) => !is_free_permutation(ordering@, self@.fixed, self@.free) && e is ValueError,
            },
    {
        match self.free_positions(ordering) {
            Some(position_of) => Ok(self.count_crossings_ranked(&position_of)),
            None => Err(Error::ValueError("The ordering does not contain all free nodes".to_string())),
        }
    }

    /// Counts the crossings when the free nodes stand in id order.
    pub fn compute_number_of_crossings_with_default_ordering(&self) -> (r: Result<usize, Error>)
        requires
            self.wf(),
            self@.edges * self@.edges <= usize::MAX,
        ensures
            r == Ok::<usize, Error>(self@.crossings(identity_rank(self@.free)) as usize),
    {
        let free_count = self.number_of_free_nodes;
        let mut rank: Vec<usize> = Vec::new();
        let mut k: usize = 0;
        while k < free_count
            invariant
                free_count == self@.free,
                k <= free_count,
                rank@.len() == k,
                forall|m: int| 0 <= m < k ==> #[trigger] rank@[m] == m,
            decreases free_count - k,
        {
            rank.push(k);
            k = k + 1;
        }
        assert(as_ints(rank@) =~= identity_rank(self@.free));
        Ok(self.count_crossings_ranked(&rank))
    }

    /// Counts the crossings when free node `f` stands at position
    /// `rank[f - fixed]`.
    fn count_crossings_ranked(&self, rank: &Vec<usize>) -> (count: usize)
        requires
            self.wf(),
            rank@.len() == self@.free,
            self@.edges * self@.edges <= usize::MAX,
        ensures
            count == self@.crossings(as_ints(rank@)),
    {
        let ghost adj = self@.adj;
        let ghost rk = as_ints(rank@);
        let ghost off = self.number_of_fixed_nodes as int;
        let ghost fixed = self@.fixed;
        let fixed_count = self.number_of_fixed_nodes;
        let mut count: usize = 0;
        let mut x1: usize = 0;
        while x1 < fixed_count
            invariant
                self.wf(),
                adj == self@.adj,
                fixed == self@.fixed,
                fixed_count == fixed,
                off == fixed,
                rank@.len() == self@.free,
                rk == as_ints(rank@),
                self@.edges * self@.edges <= usize::MAX,
                x1 <= fixed_count,
                count == crossings_upto(adj, x1 as nat, fixed, rk, off),
            decreases fixed_count - x1,
        {
            let mut x2: usize = x1 + 1;
            while x2 < fixed_count
                invariant
                    self.wf(),
                    adj == self@.adj,
                    fixed == self@.fixed,
                    fixed_count == fixed,
                    off == fixed,
                    rank@.len() == self@.free,
                    rk == as_ints(rank@),
                    self@.edges * self@.edges <= usize::MAX,
                    x1 < fixed_count,
                    x1 + 1 <= x2 <= fixed_count,
                    count == crossings_upto(adj, x1 as nat, fixed, rk, off) + row_crossings(
                        adj,
                        x1 as nat,
                        x2 as nat,
                        rk,
                        off,
                    ),
                decreases fixed_count - x2,
            {
                let neighbors1 = &self.adjacency_list[x1];
                let neighbors2 = &self.adjacency_list[x2];
                assert(neighbors1@ == adj[x1 as int]);
                assert(neighbors2@ == adj[x2 as int]);
                let mut i: usize = 0;
                while i < neighbors1.len()
                    invariant
                        self.wf(),
                        adj == self@.adj,
                        fixed == self@.fixed,
                        fixed_count == fixed,
                        off == fixed,
                        rank@.len() == self@.free,
                        rk == as_ints(rank@),
                        self@.edges * self@.edges <= usize::MAX,
                        x1 < x2 < fixed_count,
                        neighbors1@ == adj[x1 as int],
                        neighbors2@ == adj[x2 as int],
                        i <= neighbors1@.len(),
                        count == crossings_upto(adj, x1 as nat, fixed, rk, off) + row_crossings(
                            adj,
                            x1 as nat,
                            x2 as nat,
                            rk,
                            off,
                        ) + pair_crossings(neighbors1@, i as nat, neighbors2@, rk, off),
                    decreases neighbors1.len() - i,
                {
                    assert(self@.is_free(adj[x1 as int][i as int] as int));
                    let position1 = rank[neighbors1[i] - fixed_count];
                    let mut j: usize = 0;
                    while j < neighbors2.len()
                        invariant
                            self.wf(),
                            adj == self@.adj,
                            fixed == self@.fixed,
                            fixed_count == fixed,
                            off == fixed,
                            rank@.len() == self@.free,
                            rk == as_ints(rank@),
                            self@.edges * self@.edges <= usize::MAX,
                            x1 < x2 < fixed_count,
                            neighbors1@ == adj[x1 as int],
                            neighbors2@ == adj[x2 as int],
                            i < neighbors1@.len(),
                            j <= neighbors2@.len(),
                            position1 == rk[neighbors1@[i as int] - off],
                            count == crossings_upto(adj, x1 as nat, fixed, rk, off) + row_crossings(
                                adj,
                                x1 as nat,
                                x2 as nat,
                                rk,
                                off,
                            ) + pair_crossings(neighbors1@, i as nat, neighbors2@, rk, off)
                                + ranked_below(neighbors2@, j as nat, rk, off, position1 as int),
                        decreases neighbors2.len() - j,
                    {
                        assert(self@.is_free(adj[x2 as int][j as int] as int));
                        let position2 = rank[neighbors2[j] - fixed_count];
                        if position2 < position1 {
                            proof {
                                lemma_partial_count_bound(adj, fixed, x1 as nat, x2 as nat, i as nat, j as nat, rk, off);
                            }
                            count = count + 1;
                        }
                        j = j + 1;
                    }
                    i = i + 1;
                }
                x2 = x2 + 1;
            }
            x1 = x1 + 1;
        }
        count
    }
}

/// Listing the free nodes in id order gives a valid ordering whose crossing
/// count is the count of the default ordering.
pub proof fn lemma_identity_ordering_is_default(g: GraphView, ordering: Seq<usize>)
    requires
        g.wf(),
        ordering.len() == g.free,
        forall|i: int| 0 <= i < ordering.len() ==> #[trigger] ordering[i] == g.fixed + i,
    ensures
        is_free_permutation(ordering, g.fixed, g.free),
        g.crossings(positions(ordering, g.fixed)) == g.crossings(identity_rank(g.free)),
{
    assert forall|k: int| 0 <= k < g.free implies #[trigger] occurs(ordering, g.fixed + k) by {
        assert(ordering[k] == g.fixed + k);
    }
    let pos = positions(ordering, g.fixed);
    assert forall|k: int| 0 <= k < g.free implies pos[k] == identity_rank(g.free)[k] by {
        assert(ordering[k] == g.fixed + k);
        let c = choose|c: int| 0 <= c < ordering.len() && ordering[c] == g.fixed + k;
        assert(ordering[c] == g.fixed + c);
    }
    assert(pos =~= identity_rank(g.free));
}

/// Every entry of the isolated-node list is an isolated node below `n`.
proof fn lemma_isolated_upto(adj: Seq<Seq<usize>>, n: nat, i: int)
    requires
        n <= adj.len(),
        n <= usize::MAX,
        0 <= i < isolated_upto(adj, n).len(),
    ensures
        isolated_upto(adj, n)[i] < n,
        adj[isolated_upto(adj, n)[i] as int].len() == 0,
    decreases n,
{
    if n > 0 {
        let k = (n - 1) as nat;
        if i < isolated_upto(adj, k).len() {
            lemma_isolated_upto(adj, k, i);
        }
    }
}

/// Neighbours are node ids.
proof fn lemma_neighbor_in_range(g: GraphView, i: int, k: int)
    requires
        g.wf(),
        0 <= i < g.nodes(),
        0 <= k < g.adj[i].len(),
    ensures
        g.adj[i][k] < g.nodes(),
{
    if g.is_fixed(i) {
        assert(g.is_free(g.adj[i][k] as int));
    } else {
        assert(g.is_fixed(g.adj[i][k] as int));
    }
}

/// A node that no list names has an empty list of its own, and the reverse.
proof fn lemma_no_incoming_is_isolated(g: GraphView, v: int)
    requires
        g.wf(),
        g.nodes() <= usize::MAX,
        0 <= v < g.nodes(),
    ensures
        incoming(g.adj, g.nodes(), v as usize) == 0 <==> g.adj[v].len() == 0,
{
    if g.adj[v].len() > 0 {
        let w = g.adj[v][0] as int;
        lemma_neighbor_in_range(g, v, 0);
        assert(g.adj[v].contains(w as usize));
        if g.is_fixed(v) {
            assert(g.is_free(w));
            assert(g.adj[v].contains(w as usize) <==> g.adj[w].contains(v as usize));
        } else {
            assert(g.is_fixed(w));
            assert(g.adj[w].contains(v as usize) <==> g.adj[v].contains(w as usize));
        }
        lemma_count_equal_present(g.adj[w], v as usize);
        lemma_incoming_at_least(g.adj, g.nodes(), w, v as usize);
    } else {
        assert forall|j: int| 0 <= j < g.nodes() implies !(#[trigger] g.adj[j]).contains(v as usize) by {
            if g.adj[j].contains(v as usize) {
                let k = choose|k: int| 0 <= k < g.adj[j].len() && g.adj[j][k] == v as usize;
                if g.is_fixed(j) {
                    assert(g.is_free(g.adj[j][k] as int));
                    assert(g.adj[j].contains(v as usize) <==> g.adj[v].contains(j as usize));
                } else {
                    assert(g.is_fixed(g.adj[j][k] as int));
                    assert(g.is_fixed(v));
                    assert(g.is_free(j));
                    assert(g.adj[v].contains(j as usize) <==> g.adj[j].contains(v as usize));
                }
            }
        }
        lemma_incoming_none(g.adj, g.nodes(), v as usize);
    }
}

proof fn lemma_count_equal_present(s: Seq<usize>, v: usize)
    requires
        s.contains(v),
    ensures
        count_equal(s, s.len(), v) >= 1,
{
    let k = choose|k: int| 0 <= k < s.len() && s[k] == v;
    lemma_count_equal_grows(s, (k + 1) as nat, s.len(), v);
}

proof fn lemma_count_equal_grows(s: Seq<usize>, n: nat, m: nat, v: usize)
    requires
        0 < n <= m,
        s[n - 1] == v,
    ensures
        count_equal(s, m, v) >= 1,
    decreases m,
{
    if m > n {
        lemma_count_equal_grows(s, n, (m - 1) as nat, v);
    }
}

proof fn lemma_incoming_at_least(adj: Seq<Seq<usize>>, n: nat, w: int, v: usize)
    requires
        0 <= w < n,
        count_equal(adj[w], adj[w].len(), v) >= 1,
    ensures
        incoming(adj, n, v) >= 1,
    decreases n,
{
    if n > w + 1 {
        lemma_incoming_at_least(adj, (n - 1) as nat, w, v);
    }
}

proof fn lemma_incoming_none(adj: Seq<Seq<usize>>, n: nat, v: usize)
    requires
        n <= adj.len(),
        forall|j: int| 0 <= j < n ==> !(#[trigger] adj[j]).contains(v),
    ensures
        incoming(adj, n, v) == 0,
    decreases n,
{
    if n > 0 {
        lemma_incoming_none(adj, (n - 1) as nat, v);
        let s = adj[n - 1];
        assert(!s.contains(v));
        lemma_count_equal_absent(s, s.len(), v);
    }
}

/// The number of entries of the ascending `s` that are below `v`.
fn lower_bound(s: &Vec<usize>, v: usize) -> (pos: usize)
    requires
        strictly_ascending(s@),
    ensures
        pos <= s@.len(),
        forall|i: int| 0 <= i < pos ==> #[trigger] s@[i] < v,
        forall|i: int| pos <= i < s@.len() ==> #[trigger] s@[i] >= v,
{
    let mut low: usize = 0;
    let mut high: usize = s.len();
    while low < high
        invariant
            strictly_ascending(s@),
            low <= high <= s@.len(),
            forall|i: int| 0 <= i < low ==> #[trigger] s@[i] < v,
            forall|i: int| high <= i < s@.len() ==> #[trigger] s@[i] >= v,
        decreases high - low,
    {
        let mid = low + (high - low) / 2;
        if s[mid] < v {
            assert forall|i: int| 0 <= i <= mid implies #[trigger] s@[i] < v by {
                if i < mid {
                    assert(s@[i] < s@[mid as int]);
                }
            }
            low = mid + 1;
        } else {
            assert forall|i: int| mid <= i < s@.len() implies #[trigger] s@[i] >= v by {
                if i > mid {
                    assert(s@[mid as int] < s@[i]);
                }
            }
            high = mid;
        }
    }
    low
}

/// A value that is not at its lower-bound position is absent.
proof fn lemma_lower_bound_absent(s: Seq<usize>, v: usize, pos: int)
    requires
        strictly_ascending(s),
        0 <= pos <= s.len(),
        forall|i: int| 0 <= i < pos ==> #[trigger] s[i] < v,
        forall|i: int| pos <= i < s.len() ==> #[trigger] s[i] >= v,
        !(pos < s.len() && s[pos] == v),
    ensures
        !s.contains(v),
{
    if s.contains(v) {
        let i = choose|i: int| 0 <= i < s.len() && s[i] == v;
        if i > pos {
            assert(s[pos] < s[i]);
        }
    }
}

/// Inserting `v` at its lower-bound position keeps a list ascending and adds
/// exactly `v` to its contents.
proof fn lemma_insert_ascending(s: Seq<usize>, v: usize, pos: int)
    requires
        strictly_ascending(s),
        0 <= pos <= s.len(),
        forall|i: int| 0 <= i < pos ==> #[trigger] s[i] < v,
        forall|i: int| pos <= i < s.len() ==> #[trigger] s[i] >= v,
        !s.contains(v),
    ensures
        strictly_ascending(s.insert(pos, v)),
        forall|y: usize| #[trigger] s.insert(pos, v).contains(y) <==> (s.contains(y) || y == v),
{
    let t = s.insert(pos, v);
    assert forall|i: int| pos < i < t.len() implies #[trigger] t[i] > v by {
        assert(t[i] == s[i - 1]);
        assert(s[i - 1] != v);
    }
    assert forall|y: usize| #[trigger] t.contains(y) <==> (s.contains(y) || y == v) by {
        if t.contains(y) {
            let i = choose|i: int| 0 <= i < t.len() && t[i] == y;
            if i < pos {
                assert(s[i] == y);
            } else if i > pos {
                assert(s[i - 1] == y);
            }
        }
        if s.contains(y) {
            let i = choose|i: int| 0 <= i < s.len() && s[i] == y;
            if i < pos {
                assert(t[i] == y);
            } else {
                assert(t[i + 1] == y);
            }
        }
        if y == v {
            assert(t[pos] == y);
        }
    }
}

/// How a sum of list lengths changes when one list is replaced.
proof fn lemma_degree_sum_update(adj: Seq<Seq<usize>>, i: int, t: Seq<usize>, n: nat)
    requires
        0 <= i < adj.len(),
        n <= adj.len(),
    ensures
        degree_sum(adj.update(i, t), n) == if i < n {
            degree_sum(adj, n) - adj[i].len() + t.len()
        } else {
            degree_sum(adj, n) as int
        },
        i < n ==> degree_sum(adj, n) >= adj[i].len(),
    decreases n,
{
    if n > 0 {
        lemma_degree_sum_update(adj, i, t, (n - 1) as nat);
    }
}

/// An ascending list of values in `low .. high` has at most `high - low` entries.
pub(crate) proof fn lemma_ascending_len(s: Seq<usize>, low: int, high: int)
    requires
        strictly_ascending(s),
        low <= high,
        forall|k: int| 0 <= k < s.len() ==> low <= #[trigger] s[k] < high,
    ensures
        s.len() <= high - low,
{
    if s.len() > 0 {
        assert forall|k: int| 0 <= k < s.len() implies #[trigger] s[k] >= low + k by {
            lemma_ascending_step(s, low, k);
        }
        assert(s[s.len() - 1] >= low + s.len() - 1);
    }
}

proof fn lemma_ascending_step(s: Seq<usize>, low: int, k: int)
    requires
        strictly_ascending(s),
        0 <= k < s.len(),
        s[0] >= low,
    ensures
        s[k] >= low + k,
    decreases k,
{
    if k > 0 {
        lemma_ascending_step(s, low, k - 1);
        assert(s[k - 1] < s[k]);
    }
}

proof fn lemma_degree_sum_empty(adj: Seq<Seq<usize>>, n: nat)
    requires
        n <= adj.len(),
        forall|i: int| 0 <= i < n ==> (#[trigger] adj[i]).len() == 0,
    ensures
        degree_sum(adj, n) == 0,
    decreases n,
{
    if n > 0 {
        lemma_degree_sum_empty(adj, (n - 1) as nat);
    }
}


proof fn lemma_ranked_below_bound(s: Seq<usize>, n: nat, m: nat, rank: Seq<int>, offset: int, r: int)
    requires
        n <= m,
    ensures
        ranked_below(s, n, rank, offset, r) <= ranked_below(s, m, rank, offset, r),
        ranked_below(s, m, rank, offset, r) <= m,
    decreases m,
{
    if m > 0 {
        if n < m {
            lemma_ranked_below_bound(s, n, (m - 1) as nat, rank, offset, r);
        } else {
            lemma_ranked_below_bound(s, (m - 1) as nat, (m - 1) as nat, rank, offset, r);
        }
    }
}

proof fn lemma_pair_crossings_bound(s1: Seq<usize>, n: nat, m: nat, s2: Seq<usize>, rank: Seq<int>, offset: int)
    requires
        n <= m,
    ensures
        pair_crossings(s1, n, s2, rank, offset) <= pair_crossings(s1, m, s2, rank, offset),
        pair_crossings(s1, m, s2, rank, offset) <= m * s2.len(),
    decreases m,
{
    if m > 0 {
        let k = (m - 1) as nat;
        if n < m {
            lemma_pair_crossings_bound(s1, n, k, s2, rank, offset);
        } else {
            lemma_pair_crossings_bound(s1, k, k, s2, rank, offset);
        }
        lemma_ranked_below_bound(s2, s2.len(), s2.len(), rank, offset, rank[s1[m - 1] - offset]);
        assert(k * s2.len() + s2.len() == m * s2.len()) by (nonlinear_arith)
            requires
                k + 1 == m,
        ;
    }
}

proof fn lemma_row_crossings_bound(adj: Seq<Seq<usize>>, x1: nat, n: nat, m: nat, rank: Seq<int>, offset: int)
    requires
        n <= m,
    ensures
        row_crossings(adj, x1, n, rank, offset) <= row_crossings(adj, x1, m, rank, offset),
        row_crossings(adj, x1, m, rank, offset) <= adj[x1 as int].len() * degree_sum(adj, m),
    decreases m,
{
    let d = adj[x1 as int].len();
    if m > x1 + 1 {
        let k = (m - 1) as nat;
        if n < m {
            lemma_row_crossings_bound(adj, x1, n, k, rank, offset);
        } else {
            lemma_row_crossings_bound(adj, x1, k, k, rank, offset);
        }
        lemma_pair_crossings_bound(adj[x1 as int], d, d, adj[m - 1], rank, offset);
        let a = degree_sum(adj, k);
        let b = adj[m - 1].len();
        assert(d * a + d * b == d * (a + b)) by (nonlinear_arith);
    } else {
        assert(0 <= d * degree_sum(adj, m)) by (nonlinear_arith);
        if n > x1 + 1 {
            lemma_row_crossings_bound(adj, x1, n, n, rank, offset);
        }
    }
}

proof fn lemma_crossings_upto_bound(adj: Seq<Seq<usize>>, n: nat, m: nat, fixed: nat, rank: Seq<int>, offset: int)
    requires
        n <= m,
    ensures
        crossings_upto(adj, n, fixed, rank, offset) <= crossings_upto(adj, m, fixed, rank, offset),
        crossings_upto(adj, m, fixed, rank, offset) <= degree_sum(adj, m) * degree_sum(adj, fixed),
    decreases m,
{
    if m > 0 {
        let k = (m - 1) as nat;
        if n < m {
            lemma_crossings_upto_bound(adj, n, k, fixed, rank, offset);
        } else {
            lemma_crossings_upto_bound(adj, k, k, fixed, rank, offset);
        }
        lemma_row_crossings_bound(adj, k, fixed, fixed, rank, offset);
        let a = degree_sum(adj, k);
        let b = adj[k as int].len();
        let t = degree_sum(adj, fixed);
        assert(a * t + b * t == (a + b) * t) by (nonlinear_arith);
    } else {
        assert(0 <= degree_sum(adj, m) * degree_sum(adj, fixed)) by (nonlinear_arith);
    }
}

/// Every partial count taken by the crossing loops stays below the square of
/// the total degree.
proof fn lemma_partial_count_bound(
    adj: Seq<Seq<usize>>,
    fixed: nat,
    x1: nat,
    x2: nat,
    i: nat,
    j: nat,
    rank: Seq<int>,
    offset: int,
)
    requires
        x1 < x2 < fixed,
        i < adj[x1 as int].len(),
        j < adj[x2 as int].len(),
    ensures
        crossings_upto(adj, x1, fixed, rank, offset) + row_crossings(adj, x1, x2, rank, offset)
            + pair_crossings(adj[x1 as int], i, adj[x2 as int], rank, offset) + ranked_below(
            adj[x2 as int],
            (j + 1) as nat,
            rank,
            offset,
            rank[adj[x1 as int][i as int] - offset],
        ) <= degree_sum(adj, fixed) * degree_sum(adj, fixed),
{
    let s1 = adj[x1 as int];
    let s2 = adj[x2 as int];
    let r = rank[s1[i as int] - offset];
    lemma_ranked_below_bound(s2, (j + 1) as nat, s2.len(), rank, offset, r);
    lemma_pair_crossings_bound(s1, (i + 1) as nat, s1.len(), s2, rank, offset);
    lemma_row_crossings_bound(adj, x1, (x2 + 1) as nat, fixed, rank, offset);
    lemma_crossings_upto_bound(adj, (x1 + 1) as nat, fixed, fixed, rank, offset);
}

} // verus!
