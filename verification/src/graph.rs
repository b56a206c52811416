//! Adjacency-list graphs built from edge lists.

use crate::paths::{has_edge, symmetric};
use crate::sorting::{sort_list, sorted_from};
use vstd::seq_lib::{lemma_multiset_commutative, to_multiset_contains};
use vstd::prelude::*;

verus! {

/// A graph on the nodes `0..n`, stored as one list of out-neighbours per node.
#[derive(Debug)]
pub struct Graph {
    pub n: usize,
    pub outedges: Vec<Vec<usize>>,
}

/// The neighbour lists of `lists`, each as a mathematical sequence.
pub open spec fn lists_view(lists: Seq<Vec<usize>>) -> Seq<Seq<usize>> {
    Seq::new(lists.len(), |u: int| lists[u]@)
}

impl View for Graph {
    type V = Seq<Seq<usize>>;

    /// The adjacency of the graph: `self@[u]` is the neighbour list of node `u`.
    open spec fn view(&self) -> Seq<Seq<usize>> {
        lists_view(self.outedges@)
    }
}

/// Every neighbour named in `adj` is itself a node of `adj`.
pub open spec fn closed_adjacency(adj: Seq<Seq<usize>>) -> bool {
    forall|u: int, i: int|
        0 <= u < adj.len() && 0 <= i < adj[u].len() ==> (#[trigger] adj[u][i]) < adj.len()
}

impl Graph {
    /// The graph has one neighbour list per node and names no node outside `0..n`.
    pub open spec fn wf(&self) -> bool {
        &&& self.outedges@.len() == self.n
        &&& closed_adjacency(self@)
    }
}

/// The edge list with every edge turned around: position `i` holds the
/// `i`-th edge of `edges` with its endpoints swapped.
pub open spec fn reversed(edges: Seq<(usize, usize)>) -> Seq<(usize, usize)> {
    Seq::new(edges.len(), |i: int| (edges[i].1, edges[i].0))
}

/// Reverses the direction of every edge, keeping the order of the list.
pub fn reverse_edges(list: &Vec<(usize, usize)>) -> (new_list: Vec<(usize, usize)>)
    ensures
        new_list@ == reversed(list@),
{
    let mut new_list: Vec<(usize, usize)> = Vec::new();
    for i in 0..list.len()
        invariant
            new_list@ == reversed(list@.take(i as int)),
    {
        let (u, v) = list[i];
        new_list.push((v, u));
    }
    new_list
}

/// The heads of the edges of `edges` that leave `u`, in the order of the list.
pub open spec fn targets_of(edges: Seq<(usize, usize)>, u: int) -> Seq<usize>
    decreases edges.len(),
{
    if edges.len() == 0 {
        Seq::empty()
    } else {
        let rest = targets_of(edges.drop_last(), u);
        if edges.last().0 == u {
            rest.push(edges.last().1)
        } else {
            rest
        }
    }
}

/// The list holds an edge from `u` to `v`.
pub open spec fn has_pair(edges: Seq<(usize, usize)>, u: int, v: int) -> bool {
    exists|i: int| 0 <= i < edges.len() && (#[trigger] edges[i]).0 == u && edges[i].1 == v
}

/// The heads of the edges that leave `u` are the nodes `v` with an edge from
/// `u` to `v` in the list.
pub proof fn lemma_targets_of_contains(edges: Seq<(usize, usize)>, u: int, v: usize)
    ensures
        targets_of(edges, u).contains(v) <==> has_pair(edges, u, v as int),
    decreases edges.len(),
{
    if edges.len() > 0 {
        let front = edges.drop_last();
        let rest = targets_of(front, u);
        lemma_targets_of_contains(front, u, v);
        if has_pair(edges, u, v as int) {
            let i = choose|i: int| 0 <= i < edges.len() && (#[trigger] edges[i]).0 == u && edges[i].1 == v;
            if i < edges.len() - 1 {
                assert(front[i] == edges[i]);
                let k = choose|k: int| 0 <= k < rest.len() && rest[k] == v;
                if edges.last().0 == u {
                    assert(rest.push(edges.last().1)[k] == v);
                }
            } else {
                assert(rest.push(v)[rest.len() as int] == v);
            }
        }
    }
}

/// The reversed list holds an edge from `u` to `v` where the list holds one
/// from `v` to `u`.
pub proof fn lemma_reversed_has_pair(edges: Seq<(usize, usize)>, u: int, v: int)
    ensures
        has_pair(reversed(edges), u, v) <==> has_pair(edges, v, u),
{
    let back = reversed(edges);
    if has_pair(edges, v, u) {
        let i = choose|i: int| 0 <= i < edges.len() && (#[trigger] edges[i]).0 == v && edges[i].1 == u;
        assert(back[i].0 == u && back[i].1 == v);
    }
}

/// A list sorted from another holds the same nodes.
pub proof fn lemma_sorted_from_contains(out: Seq<usize>, src: Seq<usize>, v: usize)
    requires
        sorted_from(out, src),
    ensures
        out.contains(v) <==> src.contains(v),
{
    to_multiset_contains(out, v);
    to_multiset_contains(src, v);
}

/// Both ends of every edge are below `n`.
pub open spec fn edges_within(edges: Seq<(usize, usize)>, n: int) -> bool {
    forall|i: int| 0 <= i < edges.len() ==> (#[trigger] edges[i]).0 < n && edges[i].1 < n
}

/// Tells whether both ends of every edge are below `n`, that is whether a
/// graph on `n` nodes can be built from the list.
pub fn edges_fit(edges: &Vec<(usize, usize)>, n: usize) -> (fit: bool)
    ensures
        fit == edges_within(edges@, n as int),
{
    for i in 0..edges.len()
        invariant
            forall|k: int| 0 <= k < i ==> (#[trigger] edges@[k]).0 < n && edges@[k].1 < n,
    {
        let (u, v) = edges[i];
        if u >= n || v >= n {
            return false;
        }
    }
    true
}

/// The number of neighbours of each node, in the order of the nodes.
pub open spec fn degrees(adj: Seq<Seq<usize>>) -> Seq<usize> {
    Seq::new(adj.len(), |u: int| adj[u].len() as usize)
}

/// Counts the neighbours of each node: position `u` of the result is the
/// length of the `u`-th list.
pub fn num_node_list(adj_list: &Vec<Vec<usize>>) -> (counts: Vec<usize>)
    ensures
        counts@ == degrees(lists_view(adj_list@)),
{
    let mut counts: Vec<usize> = Vec::new();
    for u in 0..adj_list.len()
        invariant
            counts@.len() == u,
            forall|w: int| 0 <= w < u ==> counts@[w] == adj_list@[w]@.len(),
    {
        counts.push(adj_list[u].len());
    }
    counts
}

impl Graph {
    /// Tells whether the graph is well formed: one neighbour list for each of
    /// its `n` nodes, and no neighbour outside `0..n`.
    pub fn is_well_formed(&self) -> (ok: bool)
        ensures
            ok == self.wf(),
    {
        if self.outedges.len() != self.n {
            return false;
        }
        for u in 0..self.outedges.len()
            invariant
                self.outedges@.len() == self.n,
                forall|a: int, i: int|
                    0 <= a < u && 0 <= i < self@[a].len() ==> (#[trigger] self@[a][i]) < self.n,
        {
            let list = &self.outedges[u];
            for i in 0..list.len()
                invariant
                    u < self.outedges@.len(),
                    self.outedges@.len() == self.n,
                    list@ == self@[u as int],
                    forall|a: int, k: int|
                        0 <= a < u && 0 <= k < self@[a].len() ==> (#[trigger] self@[a][k]) < self.n,
                    forall|k: int| 0 <= k < i ==> (#[trigger] self@[u as int][k]) < self.n,
            {
                if list[i] >= self.n {
                    return false;
                }
            }
        }
        true
    }

    /// Appends, for each edge `(u, v)` in the order of the list, `v` to the
    /// neighbour list of `u`.
    pub fn add_directed_edges(&mut self, edges: &Vec<(usize, usize)>)
        requires
            forall|i: int| 0 <= i < edges@.len() ==> (#[trigger] edges@[i]).0 < old(self).outedges@.len(),
        ensures
            final(self).n == old(self).n,
            final(self)@.len() == old(self)@.len(),
            forall|u: int|
                0 <= u < old(self)@.len() ==> #[trigger] final(self)@[u] == old(self)@[u] + targets_of(
                    edges@,
                    u,
                ),
    {
        let ghost start = self@;
        for i in 0..edges.len()
            invariant
                self.n == old(self).n,
                start == old(self)@,
                self@.len() == start.len(),
                self.outedges@.len() == start.len(),
                forall|k: int| 0 <= k < edges@.len() ==> (#[trigger] edges@[k]).0 < start.len(),
                forall|u: int|
                    0 <= u < start.len() ==> #[trigger] self@[u] == start[u] + targets_of(
                        edges@.take(i as int),
                        u,
                    ),
        {
            let (u, v) = edges[i];
            let ghost prev = self@;
            self.outedges[u].push(v);
            proof {
                let done = edges@.take(i as int);
                let next = edges@.take(i + 1);
                assert(next.drop_last() == done);
                assert forall|w: int| 0 <= w < start.len() implies #[trigger] self@[w] == start[w]
                    + targets_of(next, w) by {
                    assert(prev[w] == start[w] + targets_of(done, w));
                }
            }
        }
        assert(edges@.take(edges@.len() as int) == edges@);
    }

    /// Puts every neighbour list in ascending order.
    pub fn sort_graph_lists(&mut self)
        ensures
            final(self).n == old(self).n,
            final(self)@.len() == old(self)@.len(),
            forall|u: int| 0 <= u < old(self)@.len() ==> sorted_from(#[trigger] final(self)@[u], old(self)@[u]),
    {
        let ghost start = self@;
        let count = self.outedges.len();
        for i in 0..count
            invariant
                self.n == old(self).n,
                start == old(self)@,
                count == start.len(),
                self.outedges@.len() == count,
                forall|u: int| 0 <= u < i ==> sorted_from(#[trigger] self@[u], start[u]),
                forall|u: int| i <= u < count ==> #[trigger] self@[u] == start[u],
        {
            let ghost prev = self@;
            sort_list(&mut self.outedges[i]);
            proof {
                assert(prev[i as int] == start[i as int]);
                assert forall|u: int| 0 <= u < i + 1 implies sorted_from(#[trigger] self@[u], start[u]) by {
                    if u < i {
                        assert(self@[u] == prev[u]);
                    }
                }
                assert forall|u: int| i + 1 <= u < count implies #[trigger] self@[u] == start[u] by {
                    assert(self@[u] == prev[u]);
                }
            }
        }
    }

    /// Builds the directed graph on `n` nodes with the edges of the list:
    /// the neighbour list of `u` holds, in ascending order, the head of every
    /// edge that leaves `u`, as often as the list holds that edge.
    pub fn create_directed(n: usize, edges: &Vec<(usize, usize)>) -> (g: Graph)
        requires
            edges_within(edges@, n as int),
        ensures
            g.n == n,
            g@.len() == n,
            g.wf(),
            forall|u: int| 0 <= u < n ==> sorted_from(#[trigger] g@[u], targets_of(edges@, u)),
            forall|u: int, v: int| #[trigger] has_edge(g@, u, v) <==> has_pair(edges@, u, v),
    {
        let mut g = Graph { n, outedges: vec![vec![]; n] };
        g.add_directed_edges(edges);
        g.sort_graph_lists();
        proof {
            assert forall|u: int, v: int| #[trigger] has_edge(g@, u, v) <==> has_pair(edges@, u, v) by {
                if 0 <= u < n && 0 <= v <= usize::MAX {
                    lemma_sorted_from_contains(g@[u], targets_of(edges@, u), v as usize);
                    lemma_targets_of_contains(edges@, u, v as usize);
                }
            }
            assert forall|u: int, i: int| 0 <= u < g@.len() && 0 <= i < g@[u].len() implies (
            #[trigger] g@[u][i]) < g@.len() by {
                assert(has_edge(g@, u, g@[u][i] as int));
            }
        }
        g
    }

    /// Builds the undirected graph on `n` nodes with the edges of the list:
    /// each edge `(u, v)` puts `v` among the neighbours of `u` and `u` among
    /// those of `v`, once for each time the list holds it. Every neighbour
    /// list is in ascending order.
    pub fn create_undirected(n: usize, edges: &Vec<(usize, usize)>) -> (g: Graph)
        requires
            edges_within(edges@, n as int),
        ensures
            g.n == n,
            g@.len() == n,
            g.wf(),
            forall|u: int|
                0 <= u < n ==> sorted_from(
                    #[trigger] g@[u],
                    targets_of(edges@, u) + targets_of(reversed(edges@), u),
                ),
            forall|u: int, v: int|
                #[trigger] has_edge(g@, u, v) <==> has_pair(edges@, u, v) || has_pair(edges@, v, u),
            symmetric(g@),
    {
        let mut g = Self::create_directed(n, edges);
        let ghost directed = g@;
        let back = reverse_edges(edges);
        g.add_directed_edges(&back);
        g.sort_graph_lists();
        proof {
            assert forall|u: int| 0 <= u < n implies sorted_from(
                #[trigger] g@[u],
                targets_of(edges@, u) + targets_of(reversed(edges@), u),
            ) by {
                let there = targets_of(edges@, u);
                let here = targets_of(reversed(edges@), u);
                lemma_multiset_commutative(directed[u], here);
                lemma_multiset_commutative(there, here);
            }
            assert forall|u: int, v: int| #[trigger]
                has_edge(g@, u, v) <==> has_pair(edges@, u, v) || has_pair(edges@, v, u) by {
                if 0 <= u < n && 0 <= v <= usize::MAX {
                    let there = targets_of(edges@, u);
                    let here = targets_of(reversed(edges@), u);
                    let x = v as usize;
                    lemma_sorted_from_contains(g@[u], there + here, x);
                    lemma_targets_of_contains(edges@, u, x);
                    lemma_targets_of_contains(reversed(edges@), u, x);
                    lemma_reversed_has_pair(edges@, u, v);
                    if there.contains(x) {
                        let k = choose|k: int| 0 <= k < there.len() && there[k] == x;
                        assert((there + here)[k] == x);
                    }
                    if here.contains(x) {
                        let k = choose|k: int| 0 <= k < here.len() && here[k] == x;
                        assert((there + here)[there.len() + k] == x);
                    }
                }
            }
            assert forall|u: int, i: int| 0 <= u < g@.len() && 0 <= i < g@[u].len() implies (
            #[trigger] g@[u][i]) < g@.len() by {
                let v = g@[u][i] as int;
                assert(has_edge(g@, u, v));
            }
        }
        g
    }
}

} // verus!
