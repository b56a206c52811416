//! Walks, reachability and hop distance in an adjacency structure.
//!
//! Everything here is specification: an adjacency is a sequence of neighbour
//! lists, a node is an index into it, and a walk is a non-empty sequence of
//! nodes in which each node is followed by one of its out-neighbours.

use vstd::prelude::*;

verus! {

/// `v` occurs in the neighbour list of `u`.
pub open spec fn has_edge(adj: Seq<Seq<usize>>, u: int, v: int) -> bool {
    &&& 0 <= u < adj.len()
    &&& exists|i: int| 0 <= i < adj[u].len() && #[trigger] adj[u][i] == v
}

/// Every edge has its reverse: where `v` is a neighbour of `u`, `u` is one of `v`.
pub open spec fn symmetric(adj: Seq<Seq<usize>>) -> bool {
    forall|u: int, v: int| #[trigger] has_edge(adj, u, v) ==> has_edge(adj, v, u)
}

/// `p` is a walk: it is not empty, it stays inside the node range, and each
/// step follows an edge.
pub open spec fn is_walk(adj: Seq<Seq<usize>>, p: Seq<int>) -> bool {
    &&& p.len() > 0
    &&& forall|i: int| 0 <= i < p.len() ==> 0 <= #[trigger] p[i] < adj.len()
    &&& forall|i: int| 0 <= i < p.len() - 1 ==> has_edge(adj, #[trigger] p[i], p[i + 1])
}

/// `p` is a walk that starts at `s` and ends at `t`.
pub open spec fn walk_between(adj: Seq<Seq<usize>>, p: Seq<int>, s: int, t: int) -> bool {
    &&& is_walk(adj, p)
    &&& p[0] == s
    &&& p[p.len() - 1] == t
}

/// Some walk leads from `s` to `t`.
pub open spec fn reachable(adj: Seq<Seq<usize>>, s: int, t: int) -> bool {
    exists|p: Seq<int>| walk_between(adj, p, s, t)
}

/// Some walk with exactly `d` edges leads from `s` to `t`.
pub open spec fn reachable_in(adj: Seq<Seq<usize>>, s: int, t: int, d: nat) -> bool {
    exists|p: Seq<int>| #[trigger] walk_between(adj, p, s, t) && p.len() == d + 1
}

/// `d` is the hop distance from `s` to `t`: some walk from `s` to `t` has `d`
/// edges and none has fewer.
pub open spec fn is_distance(adj: Seq<Seq<usize>>, s: int, t: int, d: nat) -> bool {
    &&& reachable_in(adj, s, t, d)
    &&& forall|p: Seq<int>| #[trigger] walk_between(adj, p, s, t) ==> p.len() >= d + 1
}

/// `dist` holds, for every node, its hop distance from `s`, and nothing for
/// the nodes that no walk from `s` reaches.
pub open spec fn is_distance_vector(adj: Seq<Seq<usize>>, s: int, dist: Seq<Option<usize>>) -> bool {
    &&& dist.len() == adj.len()
    &&& forall|t: int|
        0 <= t < adj.len() ==> match #[trigger] dist[t] {
            Some(d) => is_distance(adj, s, t, d as nat),
            None => !reachable(adj, s, t),
        }
}

/// Two nodes have one hop distance at most.
pub proof fn lemma_distance_unique(adj: Seq<Seq<usize>>, s: int, t: int, d: nat, e: nat)
    requires
        is_distance(adj, s, t, d),
        is_distance(adj, s, t, e),
    ensures
        d == e,
{
}

/// There is one distance vector only for a source: two vectors that hold
/// the hop distances from `s` are equal.
pub proof fn lemma_distance_vector_unique(
    adj: Seq<Seq<usize>>,
    s: int,
    a: Seq<Option<usize>>,
    b: Seq<Option<usize>>,
)
    requires
        is_distance_vector(adj, s, a),
        is_distance_vector(adj, s, b),
    ensures
        a == b,
{
}

/// The one-node walk.
pub proof fn lemma_trivial_walk(adj: Seq<Seq<usize>>, s: int)
    requires
        0 <= s < adj.len(),
    ensures
        walk_between(adj, seq![s], s, s),
        reachable_in(adj, s, s, 0),
        reachable(adj, s, s),
{
}

/// A walk followed by one more edge is a walk.
pub proof fn lemma_walk_push(adj: Seq<Seq<usize>>, p: Seq<int>, s: int, u: int, v: int)
    requires
        walk_between(adj, p, s, u),
        has_edge(adj, u, v),
        0 <= v < adj.len(),
    ensures
        walk_between(adj, p.push(v), s, v),
{
}

/// `p` is a walk on which every node but the first has no label in `labels`.
pub open spec fn is_free_walk(adj: Seq<Seq<usize>>, labels: Seq<Option<usize>>, p: Seq<int>) -> bool {
    &&& is_walk(adj, p)
    &&& forall|i: int| 1 <= i < p.len() ==> labels[#[trigger] p[i]] is None
}

/// Some walk leads from `s` to `t` over nodes that have no label in `labels`;
/// `s` itself may have one.
pub open spec fn floods_to(adj: Seq<Seq<usize>>, labels: Seq<Option<usize>>, s: int, t: int) -> bool {
    exists|p: Seq<int>| #[trigger] is_free_walk(adj, labels, p) && p[0] == s && p[p.len() - 1] == t
}

/// The labels after a flood fill from `s` with the identifier `id`: `s` and
/// every node that a walk over unlabelled nodes reaches from `s` hold `id`,
/// all others keep what they held.
pub open spec fn flooded(adj: Seq<Seq<usize>>, labels: Seq<Option<usize>>, s: int, id: usize) -> Seq<
    Option<usize>,
> {
    Seq::new(
        labels.len(),
        |w: int|
            if floods_to(adj, labels, s, w) {
                Some(id)
            } else {
                labels[w]
            },
    )
}

/// A free walk followed by an edge to an unlabelled node is a free walk.
pub proof fn lemma_free_walk_push(adj: Seq<Seq<usize>>, labels: Seq<Option<usize>>, p: Seq<int>, v: int)
    requires
        is_free_walk(adj, labels, p),
        has_edge(adj, p[p.len() - 1], v),
        0 <= v < adj.len(),
        labels[v] is None,
    ensures
        is_free_walk(adj, labels, p.push(v)),
{
}

/// A flood fill reaches, besides its start, only nodes without a label.
pub proof fn lemma_floods_to_free(adj: Seq<Seq<usize>>, labels: Seq<Option<usize>>, s: int, t: int)
    requires
        floods_to(adj, labels, s, t),
    ensures
        t == s || labels[t] is None,
        0 <= s < adj.len(),
        0 <= t < adj.len(),
        reachable(adj, s, t),
{
    let p = choose|p: Seq<int>| #[trigger] is_free_walk(adj, labels, p) && p[0] == s && p[p.len() - 1] == t;
    assert(walk_between(adj, p, s, t));
}

/// A flood fill reaches its own start.
pub proof fn lemma_floods_to_start(adj: Seq<Seq<usize>>, labels: Seq<Option<usize>>, s: int)
    requires
        0 <= s < adj.len(),
    ensures
        floods_to(adj, labels, s, s),
{
    assert(is_free_walk(adj, labels, seq![s]));
}

/// A flood fill that reaches `u` also reaches each unlabelled neighbour of `u`.
pub proof fn lemma_floods_to_step(adj: Seq<Seq<usize>>, labels: Seq<Option<usize>>, s: int, u: int, v: int)
    requires
        floods_to(adj, labels, s, u),
        has_edge(adj, u, v),
        0 <= v < adj.len(),
        labels[v] is None,
    ensures
        floods_to(adj, labels, s, v),
{
    let p = choose|p: Seq<int>| #[trigger] is_free_walk(adj, labels, p) && p[0] == s && p[p.len() - 1] == u;
    lemma_free_walk_push(adj, labels, p, v);
}

/// Two walks, the second starting where the first ends, make one walk.
pub proof fn lemma_reachable_transitive(adj: Seq<Seq<usize>>, u: int, v: int, w: int)
    requires
        reachable(adj, u, v),
        reachable(adj, v, w),
    ensures
        reachable(adj, u, w),
{
    let p = choose|p: Seq<int>| walk_between(adj, p, u, v);
    let q = choose|q: Seq<int>| walk_between(adj, q, v, w);
    let r = p.drop_last() + q;
    assert(walk_between(adj, r, u, w));
}

/// In a symmetric adjacency a walk can be walked backwards.
pub proof fn lemma_reachable_symmetric(adj: Seq<Seq<usize>>, u: int, v: int)
    requires
        symmetric(adj),
        reachable(adj, u, v),
    ensures
        reachable(adj, v, u),
{
    let p = choose|p: Seq<int>| walk_between(adj, p, u, v);
    let r = Seq::new(p.len(), |i: int| p[p.len() - 1 - i]);
    assert(walk_between(adj, r, v, u));
}

} // verus!
