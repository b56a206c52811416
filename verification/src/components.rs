//! Component labelling by breadth-first flood fill.

use crate::graph::{closed_adjacency, Graph};
use crate::labels::{lemma_unset_count_update, unset_count};
use crate::paths::{
    flooded, floods_to, has_edge, is_free_walk, is_walk, lemma_floods_to_free, lemma_floods_to_start,
    lemma_floods_to_step, lemma_free_walk_push, lemma_reachable_symmetric, lemma_reachable_transitive,
    reachable, symmetric, walk_between,
};
use std::collections::VecDeque;
use vstd::prelude::*;

verus! {

/// `w` has been given its label by the flood fill that started at `root`:
/// it is the root, or it had no label in `before` and has one in `now`.
spec fn taken(before: Seq<Option<usize>>, now: Seq<Option<usize>>, root: int, w: int) -> bool {
    w == root || (before[w] is None && now[w] is Some)
}

/// The first `upto` neighbours of `u` have a label.
spec fn labelled_prefix(adj: Seq<Seq<usize>>, now: Seq<Option<usize>>, u: int, upto: int) -> bool {
    forall|i: int| 0 <= i < upto ==> now[(#[trigger] adj[u][i]) as int] is Some
}

/// Every taken node that does not wait in `queue` has all its neighbours
/// labelled.
spec fn taken_settled(
    adj: Seq<Seq<usize>>,
    before: Seq<Option<usize>>,
    now: Seq<Option<usize>>,
    root: int,
    queue: Seq<usize>,
    skip: int,
) -> bool {
    forall|w: int|
        #![trigger now[w]]
        0 <= w < adj.len() && w != skip && taken(before, now, root, w) && !queue.contains(w as usize)
            ==> labelled_prefix(adj, now, w, adj[w].len() as int)
}

/// Whatever differs from `before` holds `id` and is reached from `root` over
/// nodes that had no label.
spec fn changes_justified(
    adj: Seq<Seq<usize>>,
    before: Seq<Option<usize>>,
    now: Seq<Option<usize>>,
    root: int,
    id: usize,
) -> bool {
    forall|w: int|
        0 <= w < adj.len() && (#[trigger] now[w]) != before[w] ==> now[w] == Some(id) && floods_to(
            adj,
            before,
            root,
            w,
        )
}

/// The nodes that wait in `queue` are taken nodes.
spec fn queue_taken(before: Seq<Option<usize>>, now: Seq<Option<usize>>, root: int, queue: Seq<usize>) -> bool {
    forall|i: int|
        0 <= i < queue.len() ==> (#[trigger] queue[i]) < now.len() && taken(before, now, root, queue[i] as int)
}

/// Once every taken node is settled, the end of each free walk from the root
/// holds `id`.
proof fn lemma_flood_reaches(
    adj: Seq<Seq<usize>>,
    before: Seq<Option<usize>>,
    now: Seq<Option<usize>>,
    root: int,
    id: usize,
    p: Seq<int>,
)
    requires
        before.len() == adj.len(),
        now.len() == adj.len(),
        now[root] == Some(id),
        changes_justified(adj, before, now, root, id),
        taken_settled(adj, before, now, root, Seq::<usize>::empty(), -1),
        is_free_walk(adj, before, p),
        p[0] == root,
    ensures
        now[p[p.len() - 1]] == Some(id),
    decreases p.len(),
{
    if p.len() > 1 {
        lemma_flood_reaches(adj, before, now, root, id, p.drop_last());
    }
}

/// Gives `component_no` to `vertex` and to every node that a walk over so far
/// unlabelled nodes reaches from it, by breadth-first search along the
/// out-edges. All other labels stay as they are.
pub fn mark_component_bfs(
    vertex: usize,
    graph: &Graph,
    component: &mut Vec<Option<usize>>,
    component_no: usize,
)
    requires
        graph.wf(),
        vertex < graph.n,
        old(component)@.len() == graph.n,
    ensures
        final(component)@ == flooded(graph@, old(component)@, vertex as int, component_no),
{
    let ghost adj = graph@;
    let ghost root = vertex as int;
    let ghost before = component@;
    component[vertex] = Some(component_no);
    let mut queue: VecDeque<usize> = VecDeque::new();
    queue.push_back(vertex);
    proof {
        assert(is_free_walk(adj, before, seq![root]));
        assert(queue@[0] == vertex);
    }
    loop
        invariant
            graph.wf(),
            adj == graph@,
            root == vertex as int,
            vertex < graph.n,
            before.len() == graph.n,
            component@.len() == graph.n,
            component@[root] == Some(component_no),
            changes_justified(adj, before, component@, root, component_no),
            queue_taken(before, component@, root, queue@),
            taken_settled(adj, before, component@, root, queue@, -1),
        ensures
            queue@.len() == 0,
            component@.len() == graph.n,
            component@[root] == Some(component_no),
            changes_justified(adj, before, component@, root, component_no),
            taken_settled(adj, before, component@, root, queue@, -1),
        decreases unset_count(component@) + queue@.len(),
    {
        let ghost waiting = queue@;
        let ghost measure = unset_count(component@) + queue@.len();
        match queue.pop_front() {
            None => {
                break ;
            },
            Some(v) => {
                assert(taken_settled(adj, before, component@, root, queue@, v as int)) by {
                    assert forall|w: int|
                        #![trigger component@[w]]
                        0 <= w < adj.len() && w != v as int && taken(before, component@, root, w)
                            && !queue@.contains(w as usize) implies labelled_prefix(
                        adj,
                        component@,
                        w,
                        adj[w].len() as int,
                    ) by {
                        if waiting.contains(w as usize) {
                            let k = choose|k: int| 0 <= k < waiting.len() && waiting[k] == w as usize;
                            assert(queue@[k - 1] == waiting[k]);
                        }
                    }
                }
                assert(floods_to(adj, before, root, v as int)) by {
                    if v as int == root {
                        assert(is_free_walk(adj, before, seq![root]));
                    }
                }
                let neighbours = &graph.outedges[v];
                let mut i: usize = 0;
                while i < neighbours.len()
                    invariant
                        graph.wf(),
                        adj == graph@,
                        root == vertex as int,
                        vertex < graph.n,
                        v < graph.n,
                        neighbours@ == adj[v as int],
                        i <= neighbours@.len(),
                        before.len() == graph.n,
                        component@.len() == graph.n,
                        component@[root] == Some(component_no),
                        floods_to(adj, before, root, v as int),
                        changes_justified(adj, before, component@, root, component_no),
                        queue_taken(before, component@, root, queue@),
                        taken_settled(adj, before, component@, root, queue@, v as int),
                        labelled_prefix(adj, component@, v as int, i as int),
                        unset_count(component@) + queue@.len() + 1 == measure,
                    decreases neighbours@.len() - i,
                {
                    let w: usize = neighbours[i];
                    match component[w] {
                        None => {
                            let ghost old_labels = component@;
                            let ghost old_queue = queue@;
                            proof {
                                lemma_unset_count_update(old_labels, w as int, component_no);
                            }
                            component[w] = Some(component_no);
                            queue.push_back(w);
                            proof {
                                let now = component@;
                                assert(floods_to(adj, before, root, w as int)) by {
                                    let p = choose|p: Seq<int>| #[trigger]
                                        is_free_walk(adj, before, p) && p[0] == root && p[p.len() - 1]
                                            == v as int;
                                    lemma_free_walk_push(adj, before, p, w as int);
                                }
                                assert(taken_settled(adj, before, now, root, queue@, v as int)) by {
                                    assert forall|x: int|
                                        #![trigger now[x]]
                                        0 <= x < adj.len() && x != v as int && taken(before, now, root, x)
                                            && !queue@.contains(x as usize) implies labelled_prefix(
                                        adj,
                                        now,
                                        x,
                                        adj[x].len() as int,
                                    ) by {
                                        assert(queue@[old_queue.len() as int] == w);
                                        if old_queue.contains(x as usize) {
                                            let k = choose|k: int|
                                                0 <= k < old_queue.len() && old_queue[k] == x as usize;
                                            assert(queue@[k] == x as usize);
                                        }
                                    }
                                }
                            }
                        },
                        Some(_) => {},
                    }
                    i += 1;
                }
            },
        }
    }
    proof {
        let now = component@;
        let goal = flooded(adj, before, root, component_no);
        assert forall|w: int| 0 <= w < now.len() implies now[w] == goal[w] by {
            if floods_to(adj, before, root, w) {
                let p = choose|p: Seq<int>| #[trigger]
                    is_free_walk(adj, before, p) && p[0] == root && p[p.len() - 1] == w;
                lemma_flood_reaches(adj, before, now, root, component_no, p);
            }
        }
    }
}

/// The labels with which the scan starts: one entry for each node, none set.
pub open spec fn unlabelled(n: nat) -> Seq<Option<usize>> {
    Seq::new(n, |w: int| None::<usize>)
}

/// The labels and the number of identifiers handed out once the scan has
/// passed the nodes below `upto`: each node that is still unlabelled when the
/// scan comes to it starts a flood fill with the next identifier.
pub open spec fn scan_labels(adj: Seq<Seq<usize>>, upto: nat) -> (Seq<Option<usize>>, nat)
    decreases upto,
{
    if upto == 0 {
        (unlabelled(adj.len()), 0)
    } else {
        let before = scan_labels(adj, (upto - 1) as nat);
        if before.0[upto - 1] is None {
            (flooded(adj, before.0, upto - 1, (before.1 + 1) as usize), before.1 + 1)
        } else {
            before
        }
    }
}

/// Every label is an identifier between 1 and `count`.
pub open spec fn labels_in_range(labels: Seq<Option<usize>>, count: nat) -> bool {
    forall|w: int| 0 <= w < labels.len() && (#[trigger] labels[w]) is Some ==> 1 <= labels[w].unwrap() <= count
}

/// Every identifier between 1 and `count` is the label of some node.
pub open spec fn labels_all_used(labels: Seq<Option<usize>>, count: nat) -> bool {
    forall|id: usize| 1 <= id <= count ==> #[trigger] labels.contains(Some(id))
}

/// The nodes below `upto` have a label.
pub open spec fn labelled_below(labels: Seq<Option<usize>>, upto: int) -> bool {
    forall|w: int| 0 <= w < upto ==> (#[trigger] labels[w]) is Some
}

/// A labelled node hands its label on along each of its edges.
pub open spec fn labels_follow_edges(adj: Seq<Seq<usize>>, labels: Seq<Option<usize>>) -> bool {
    forall|u: int, v: int| #[trigger] has_edge(adj, u, v) && labels[u] is Some ==> labels[v] == labels[u]
}

/// Two nodes with the same label are joined by a walk.
pub open spec fn labels_within_reach(adj: Seq<Seq<usize>>, labels: Seq<Option<usize>>) -> bool {
    forall|u: int, w: int|
        0 <= u < adj.len() && 0 <= w < adj.len() && (#[trigger] labels[u]) is Some && labels[u]
            == #[trigger] labels[w] ==> reachable(adj, u, w)
}

/// Two nodes share a label exactly where a walk leads from one to the other.
pub open spec fn labels_are_components(adj: Seq<Seq<usize>>, labels: Seq<Option<usize>>) -> bool {
    forall|u: int, w: int|
        0 <= u < adj.len() && 0 <= w < adj.len() ==> (#[trigger] labels[u] == #[trigger] labels[w]
            <==> reachable(adj, u, w))
}

/// After the scan has passed the nodes below `upto`, each of them has a
/// label, the labels are the identifiers from 1 to the count, and each of
/// these identifiers is in use.
pub proof fn lemma_scan_labels_range(adj: Seq<Seq<usize>>, upto: nat)
    requires
        upto <= adj.len() <= usize::MAX,
    ensures
        scan_labels(adj, upto).0.len() == adj.len(),
        scan_labels(adj, upto).1 <= upto,
        labelled_below(scan_labels(adj, upto).0, upto as int),
        labels_in_range(scan_labels(adj, upto).0, scan_labels(adj, upto).1),
        labels_all_used(scan_labels(adj, upto).0, scan_labels(adj, upto).1),
    decreases upto,
{
    if upto > 0 {
        let v = upto - 1;
        let (before, count) = scan_labels(adj, v as nat);
        lemma_scan_labels_range(adj, v as nat);
        if before[v] is None {
            let id = (count + 1) as usize;
            let after = flooded(adj, before, v, id);
            lemma_floods_to_start(adj, before, v);
            assert(after[v] == Some(id));
            assert forall|x: usize| 1 <= x <= count + 1 implies #[trigger] after.contains(Some(x)) by {
                if x <= count {
                    assert(before.contains(Some(x)));
                    let w = choose|w: int| 0 <= w < before.len() && before[w] == Some(x);
                    assert(after[w] == Some(x));
                }
            }
        }
    }
}

/// In a symmetric graph the scan keeps each label closed under the edges,
/// and gives one label only to nodes that a walk joins.
pub proof fn lemma_scan_labels_symmetric(adj: Seq<Seq<usize>>, upto: nat)
    requires
        upto <= adj.len() <= usize::MAX,
        closed_adjacency(adj),
        symmetric(adj),
    ensures
        labels_follow_edges(adj, scan_labels(adj, upto).0),
        labels_within_reach(adj, scan_labels(adj, upto).0),
    decreases upto,
{
    if upto > 0 {
        let v = upto - 1;
        let (before, count) = scan_labels(adj, v as nat);
        lemma_scan_labels_range(adj, v as nat);
        lemma_scan_labels_symmetric(adj, v as nat);
        if before[v] is None {
            let id = (count + 1) as usize;
            let after = flooded(adj, before, v, id);
            assert forall|a: int, b: int| #[trigger] has_edge(adj, a, b) && after[a] is Some implies after[b]
                == after[a] by {
                if floods_to(adj, before, v, a) {
                    if before[b] is None {
                        lemma_floods_to_step(adj, before, v, a, b);
                    }
                }
            }
            assert forall|a: int, b: int|
                0 <= a < adj.len() && 0 <= b < adj.len() && (#[trigger] after[a]) is Some && after[a]
                    == #[trigger] after[b] implies reachable(adj, a, b) by {
                let fa = floods_to(adj, before, v, a);
                let fb = floods_to(adj, before, v, b);
                if fa && fb {
                    lemma_floods_to_free(adj, before, v, a);
                    lemma_floods_to_free(adj, before, v, b);
                    lemma_reachable_symmetric(adj, v, a);
                    lemma_reachable_transitive(adj, a, v, b);
                }
            }
        }
    }
}

/// Labels that follow the edges are the same at both ends of a walk that
/// starts at a labelled node.
pub proof fn lemma_labels_along_walk(adj: Seq<Seq<usize>>, labels: Seq<Option<usize>>, p: Seq<int>)
    requires
        labels_follow_edges(adj, labels),
        is_walk(adj, p),
        labels[p[0]] is Some,
    ensures
        labels[p[p.len() - 1]] == labels[p[0]],
    decreases p.len(),
{
    if p.len() > 1 {
        lemma_labels_along_walk(adj, labels, p.drop_last());
    }
}

/// The scan over all nodes of a symmetric graph labels its connected
/// components: every node has a label, and two nodes have the same label
/// exactly where a walk leads from one to the other.
pub proof fn lemma_scan_labels_components(adj: Seq<Seq<usize>>)
    requires
        adj.len() <= usize::MAX,
        closed_adjacency(adj),
        symmetric(adj),
    ensures
        labelled_below(scan_labels(adj, adj.len()).0, adj.len() as int),
        labels_are_components(adj, scan_labels(adj, adj.len()).0),
{
    let labels = scan_labels(adj, adj.len()).0;
    lemma_scan_labels_range(adj, adj.len());
    lemma_scan_labels_symmetric(adj, adj.len());
    assert forall|u: int, w: int| 0 <= u < adj.len() && 0 <= w < adj.len() implies (#[trigger] labels[u]
        == #[trigger] labels[w] <==> reachable(adj, u, w)) by {
        if reachable(adj, u, w) {
            let p = choose|p: Seq<int>| walk_between(adj, p, u, w);
            lemma_labels_along_walk(adj, labels, p);
        }
    }
}

/// Labels the nodes by components: the nodes are scanned in ascending order,
/// and each node that has no label yet starts a flood fill with the next
/// identifier, counted from 1. Returns the labels and the number of
/// identifiers handed out.
pub fn label_components(graph: &Graph) -> (result: (Vec<Option<usize>>, usize))
    requires
        graph.wf(),
    ensures
        (result.0@, result.1 as nat) == scan_labels(graph@, graph.n as nat),
        result.0@.len() == graph.n,
        result.1 <= graph.n,
        labelled_below(result.0@, graph.n as int),
        labels_in_range(result.0@, result.1 as nat),
        labels_all_used(result.0@, result.1 as nat),
        symmetric(graph@) ==> labels_are_components(graph@, result.0@),
{
    let ghost adj = graph@;
    let mut component: Vec<Option<usize>> = vec![None; graph.n];
    let mut component_count: usize = 0;
    for v in 0..graph.n
        invariant
            graph.wf(),
            adj == graph@,
            (component@, component_count as nat) == scan_labels(adj, v as nat),
    {
        proof {
            lemma_scan_labels_range(adj, v as nat);
        }
        if component[v].is_none() {
            component_count += 1;
            mark_component_bfs(v, graph, &mut component, component_count);
        }
    }
    proof {
        lemma_scan_labels_range(adj, graph.n as nat);
        if symmetric(adj) {
            lemma_scan_labels_components(adj);
        }
    }
    (component, component_count)
}

} // verus!
