//! Breadth-first traversal: hop distances from one source.

use crate::graph::Graph;
use crate::labels::{lemma_unset_count_all, lemma_unset_count_update, unset_count};
use crate::paths::{
    has_edge, is_distance, is_distance_vector, is_walk, lemma_trivial_walk, lemma_walk_push, reachable,
    reachable_in, walk_between,
};
use std::collections::VecDeque;
use vstd::prelude::*;

verus! {

/// Along every edge that leaves a node with a distance, the distance grows by
/// at most one: the head of the edge has a distance too, and it is no more
/// than one above that of the tail.
pub open spec fn edges_relaxed(adj: Seq<Seq<usize>>, dist: Seq<Option<usize>>) -> bool {
    forall|u: int, v: int|
        #![trigger has_edge(adj, u, v)]
        has_edge(adj, u, v) && dist[u] is Some ==> dist[v] is Some && dist[v].unwrap()
            <= dist[u].unwrap() + 1
}

/// The first `upto` neighbours of `u` have a distance, no more than one above
/// that of `u`.
spec fn relaxed_prefix(adj: Seq<Seq<usize>>, dist: Seq<Option<usize>>, u: int, upto: int) -> bool {
    forall|i: int|
        0 <= i < upto ==> dist[(#[trigger] adj[u][i]) as int] is Some && dist[adj[u][i] as int].unwrap()
            <= dist[u].unwrap() + 1
}

/// Every node that has a distance and does not wait in `queue` has had all
/// its neighbours looked at.
spec fn settled_outside(adj: Seq<Seq<usize>>, dist: Seq<Option<usize>>, queue: Seq<usize>, skip: int) -> bool {
    forall|w: int|
        0 <= w < adj.len() && w != skip && (#[trigger] dist[w]) is Some && !queue.contains(w as usize)
            ==> relaxed_prefix(adj, dist, w, adj[w].len() as int)
}

/// Every distance written so far is the length of some walk from `s`.
spec fn distances_witnessed(adj: Seq<Seq<usize>>, dist: Seq<Option<usize>>, s: int) -> bool {
    forall|v: int|
        0 <= v < adj.len() && (#[trigger] dist[v]) is Some ==> reachable_in(
            adj,
            s,
            v,
            dist[v].unwrap() as nat,
        )
}

/// The nodes that wait in `queue` have a distance, and wait in the order of
/// their distances.
spec fn queue_ordered(dist: Seq<Option<usize>>, queue: Seq<usize>) -> bool {
    &&& forall|i: int| 0 <= i < queue.len() ==> (#[trigger] queue[i]) < dist.len() && dist[queue[i] as int] is Some
    &&& forall|i: int, j: int|
        0 <= i <= j < queue.len() ==> dist[(#[trigger] queue[i]) as int].unwrap() <= dist[(#[trigger] queue[j]) as int].unwrap()
}

/// No distance that `dist` holds is above `cap`.
pub open spec fn distances_capped(dist: Seq<Option<usize>>, cap: int) -> bool {
    forall|v: int| 0 <= v < dist.len() && (#[trigger] dist[v]) is Some ==> dist[v].unwrap() <= cap
}

/// Where the source has distance zero and every edge is relaxed, a walk from
/// the source ends at a node whose distance is at most the length of the walk.
proof fn lemma_relaxed_bounds_walk(adj: Seq<Seq<usize>>, dist: Seq<Option<usize>>, s: int, p: Seq<int>)
    requires
        dist.len() == adj.len(),
        dist[s] == Some(0usize),
        edges_relaxed(adj, dist),
        is_walk(adj, p),
        p[0] == s,
    ensures
        dist[p[p.len() - 1]] is Some,
        dist[p[p.len() - 1]].unwrap() <= p.len() - 1,
    decreases p.len(),
{
    if p.len() > 1 {
        lemma_relaxed_bounds_walk(adj, dist, s, p.drop_last());
    }
}

/// Distances that are witnessed by walks, start at zero and are relaxed along
/// every edge are the hop distances.
proof fn lemma_relaxed_is_distance_vector(adj: Seq<Seq<usize>>, dist: Seq<Option<usize>>, s: int)
    requires
        dist.len() == adj.len(),
        0 <= s < adj.len(),
        dist[s] == Some(0usize),
        edges_relaxed(adj, dist),
        distances_witnessed(adj, dist, s),
    ensures
        is_distance_vector(adj, s, dist),
{
    assert forall|t: int| 0 <= t < adj.len() implies match #[trigger] dist[t] {
        Some(d) => is_distance(adj, s, t, d as nat),
        None => !reachable(adj, s, t),
    } by {
        assert forall|p: Seq<int>| #[trigger] walk_between(adj, p, s, t) implies dist[t] is Some
            && p.len() >= dist[t].unwrap() + 1 by {
            lemma_relaxed_bounds_walk(adj, dist, s, p);
        }
    }
}

/// Computes the hop distance from `start` to every node by breadth-first
/// search along the out-edges; a node that no walk from `start` reaches gets
/// `None`.
pub fn compute_and_print_distance_bfs(start: usize, graph: &Graph) -> (distance: Vec<Option<usize>>)
    requires
        graph.wf(),
        start < graph.n,
    ensures
        is_distance_vector(graph@, start as int, distance@),
        distance@[start as int] == Some(0usize),
        edges_relaxed(graph@, distance@),
        distances_capped(distance@, graph.n - 1),
{
    let ghost adj = graph@;
    let ghost s = start as int;
    let mut distance: Vec<Option<usize>> = vec![None; graph.n];
    proof {
        lemma_unset_count_all(distance@);
        lemma_unset_count_update(distance@, s, 0);
    }
    distance[start] = Some(0);
    let mut queue: VecDeque<usize> = VecDeque::new();
    queue.push_back(start);
    proof {
        lemma_trivial_walk(adj, s);
    }
    loop
        invariant
            graph.wf(),
            adj == graph@,
            s == start as int,
            start < graph.n,
            distance@.len() == graph.n,
            distance@[s] == Some(0usize),
            distances_witnessed(adj, distance@, s),
            queue_ordered(distance@, queue@),
            queue@.len() > 0 ==> distances_capped(distance@, distance@[queue@[0] as int].unwrap() + 1),
            settled_outside(adj, distance@, queue@, -1),
            distances_capped(distance@, graph.n - unset_count(distance@) - 1),
        ensures
            queue@.len() == 0,
            distance@.len() == graph.n,
            distance@[s] == Some(0usize),
            distances_witnessed(adj, distance@, s),
            settled_outside(adj, distance@, queue@, -1),
            distances_capped(distance@, graph.n - unset_count(distance@) - 1),
        decreases unset_count(distance@) + queue@.len(),
    {
        let ghost before = queue@;
        let ghost measure = unset_count(distance@) + queue@.len();
        match queue.pop_front() {
            None => {
                break ;
            },
            Some(v) => {
                let dv: usize = distance[v].unwrap();
                assert(settled_outside(adj, distance@, queue@, v as int)) by {
                    assert forall|w: int|
                        0 <= w < adj.len() && w != v as int && (#[trigger] distance@[w]) is Some
                            && !queue@.contains(w as usize) implies relaxed_prefix(
                        adj,
                        distance@,
                        w,
                        adj[w].len() as int,
                    ) by {
                        if before.contains(w as usize) {
                            let k = choose|k: int| 0 <= k < before.len() && before[k] == w as usize;
                            assert(queue@[k - 1] == before[k]);
                        }
                    }
                }
                let neighbours = &graph.outedges[v];
                let mut i: usize = 0;
                while i < neighbours.len()
                    invariant
                        graph.wf(),
                        adj == graph@,
                        s == start as int,
                        start < graph.n,
                        v < graph.n,
                        neighbours@ == adj[v as int],
                        i <= neighbours@.len(),
                        distance@.len() == graph.n,
                        distance@[s] == Some(0usize),
                        distance@[v as int] == Some(dv),
                        distances_witnessed(adj, distance@, s),
                        queue_ordered(distance@, queue@),
                        forall|j: int|
                            0 <= j < queue@.len() ==> dv <= distance@[(#[trigger] queue@[j]) as int].unwrap(),
                        distances_capped(distance@, dv + 1),
                        settled_outside(adj, distance@, queue@, v as int),
                        relaxed_prefix(adj, distance@, v as int, i as int),
                        distances_capped(distance@, graph.n - unset_count(distance@) - 1),
                        unset_count(distance@) + queue@.len() + 1 == measure,
                    decreases neighbours@.len() - i,
                {
                    let u: usize = neighbours[i];
                    match distance[u] {
                        None => {
                            let ghost old_dist = distance@;
                            let ghost old_queue = queue@;
                            proof {
                                lemma_unset_count_update(old_dist, u as int, (dv + 1) as usize);
                            }
                            distance[u] = Some(dv + 1);
                            queue.push_back(u);
                            proof {
                                let new_dist = distance@;
                                assert(distances_witnessed(adj, new_dist, s)) by {
                                    assert forall|w: int|
                                        0 <= w < adj.len() && (#[trigger] new_dist[w]) is Some implies reachable_in(
                                        adj,
                                        s,
                                        w,
                                        new_dist[w].unwrap() as nat,
                                    ) by {
                                        if w == u as int {
                                            let p = choose|p: Seq<int>| #[trigger]
                                                walk_between(adj, p, s, v as int) && p.len() == dv
                                                    + 1;
                                            lemma_walk_push(adj, p, s, v as int, u as int);
                                        }
                                    }
                                }
                                assert(settled_outside(adj, new_dist, queue@, v as int)) by {
                                    assert forall|w: int|
                                        0 <= w < adj.len() && w != v as int && (
                                        #[trigger] new_dist[w]) is Some && !queue@.contains(
                                            w as usize,
                                        ) implies relaxed_prefix(adj, new_dist, w, adj[w].len() as int) by {
                                        assert(queue@[old_queue.len() as int] == u);
                                        if old_queue.contains(w as usize) {
                                            let k = choose|k: int|
                                                0 <= k < old_queue.len() && old_queue[k] == w as usize;
                                            assert(queue@[k] == w as usize);
                                        }
                                    }
                                }
                            }
                        },
                        Some(_) => {},
                    }
                    i += 1;
                }
            },
        }
    }
    proof {
        lemma_relaxed_is_distance_vector(adj, distance@, s);
    }
    distance
}

/// The distances that `row` holds, in their order, without the absent ones.
pub open spec fn present_values(row: Seq<Option<usize>>) -> Seq<usize>
    decreases row.len(),
{
    if row.len() == 0 {
        Seq::empty()
    } else {
        let front = present_values(row.drop_last());
        match row.last() {
            Some(d) => front.push(d),
            None => front,
        }
    }
}

/// The distances that the rows hold, row after row, without the absent ones.
pub open spec fn flattened_present(rows: Seq<Seq<Option<usize>>>) -> Seq<usize>
    decreases rows.len(),
{
    if rows.len() == 0 {
        Seq::empty()
    } else {
        flattened_present(rows.drop_last()) + present_values(rows.last())
    }
}

/// The rows of `matrix`, each as a mathematical sequence.
pub open spec fn rows_view(matrix: Seq<Vec<Option<usize>>>) -> Seq<Seq<Option<usize>>> {
    Seq::new(matrix.len(), |s: int| matrix[s]@)
}

/// Computes the hop distances between all pairs of nodes: row `s` of the
/// result holds the distances from `s`.
pub fn distance_matrix(graph: &Graph) -> (matrix: Vec<Vec<Option<usize>>>)
    requires
        graph.wf(),
    ensures
        matrix@.len() == graph.n,
        forall|s: int|
            0 <= s < graph.n ==> is_distance_vector(graph@, s, #[trigger] rows_view(matrix@)[s]),
        forall|s: int| 0 <= s < graph.n ==> (#[trigger] rows_view(matrix@)[s])[s] == Some(0usize),
        forall|s: int| 0 <= s < graph.n ==> distances_capped(#[trigger] rows_view(matrix@)[s], graph.n - 1),
{
    let mut matrix: Vec<Vec<Option<usize>>> = Vec::new();
    for source in 0..graph.n
        invariant
            graph.wf(),
            matrix@.len() == source,
            forall|s: int| 0 <= s < source ==> is_distance_vector(graph@, s, #[trigger] rows_view(matrix@)[s]),
            forall|s: int| 0 <= s < source ==> (#[trigger] rows_view(matrix@)[s])[s] == Some(0usize),
            forall|s: int|
                0 <= s < source ==> distances_capped(#[trigger] rows_view(matrix@)[s], graph.n - 1),
    {
        let ghost rows = rows_view(matrix@);
        let row = compute_and_print_distance_bfs(source, graph);
        matrix.push(row);
        proof {
            assert forall|s: int| 0 <= s < source + 1 implies is_distance_vector(
                graph@,
                s,
                #[trigger] rows_view(matrix@)[s],
            ) && rows_view(matrix@)[s][s] == Some(0usize) && distances_capped(
                rows_view(matrix@)[s],
                graph.n - 1,
            ) by {
                if s < source {
                    assert(rows_view(matrix@)[s] == rows[s]);
                }
            }
        }
    }
    matrix
}

/// Gathers the distances of all rows into one vector, row after row, and
/// leaves out the absent ones.
pub fn flatten_distances(matrix: &Vec<Vec<Option<usize>>>) -> (flat: Vec<usize>)
    ensures
        flat@ == flattened_present(rows_view(matrix@)),
{
    let ghost rows = rows_view(matrix@);
    let mut flat: Vec<usize> = Vec::new();
    for r in 0..matrix.len()
        invariant
            rows == rows_view(matrix@),
            flat@ == flattened_present(rows.take(r as int)),
    {
        let row = &matrix[r];
        let ghost head = flat@;
        for c in 0..row.len()
            invariant
                row@ == rows[r as int],
                flat@ == head + present_values(row@.take(c as int)),
        {
            match row[c] {
                Some(d) => {
                    flat.push(d);
                },
                None => {},
            }
            proof {
                let next = row@.take(c + 1);
                assert(next.drop_last() == row@.take(c as int));
            }
        }
        proof {
            assert(row@.take(row@.len() as int) == row@);
            let next = rows.take(r + 1);
            assert(next.drop_last() == rows.take(r as int));
        }
    }
    assert(rows.take(rows.len() as int) == rows);
    flat
}

} // verus!
