//! Edge lists as text: one edge to a line, its two node identifiers in the
//! first two fields.

use crate::graph::edges_within;
use crate::text::{field_numbers, number_at};
use std::collections::HashSet;
use vstd::prelude::*;

verus! {

broadcast use vstd::std_specs::hash::group_hash_axioms;

/// The lines, each as its sequence of characters.
pub open spec fn strings_view(lines: Seq<String>) -> Seq<Seq<char>> {
    Seq::new(lines.len(), |i: int| lines[i]@)
}

/// The edge that a line spells: the numbers in its first two fields. Whatever
/// follows them is not looked at.
pub open spec fn edge_of(line: Seq<char>) -> Option<(usize, usize)> {
    match (number_at(line, 0), number_at(line, 1)) {
        (Some(u), Some(v)) => Some((u, v)),
        _ => None,
    }
}

/// The identifiers that occur as an end of some edge.
pub open spec fn endpoints(edges: Seq<(usize, usize)>) -> Set<usize> {
    Set::new(|x: usize| exists|i: int| 0 <= i < edges.len() && ((#[trigger] edges[i]).0 == x || edges[i].1 == x))
}

/// Reads the edge that the line spells; nothing where one of the first two
/// fields is missing or is no number.
pub fn parse_edge(line: &str) -> (edge: Option<(usize, usize)>)
    ensures
        edge == edge_of(line@),
{
    field_numbers(line, 0, 1)
}

/// Reads one edge from each line, in the order of the lines. Where a line
/// spells no edge, the position of the first such line is the error.
pub fn parse_edges(lines: &Vec<String>) -> (result: Result<Vec<(usize, usize)>, usize>)
    ensures
        match result {
            Ok(edges) => {
                &&& edges@.len() == lines@.len()
                &&& forall|i: int| 0 <= i < lines@.len() ==> edge_of(#[trigger] lines@[i]@) == Some(edges@[i])
            },
            Err(bad) => {
                &&& bad < lines@.len()
                &&& edge_of(lines@[bad as int]@) is None
                &&& forall|i: int| 0 <= i < bad ==> edge_of(#[trigger] lines@[i]@) is Some
            },
        },
{
    let mut edges: Vec<(usize, usize)> = Vec::new();
    for k in 0..lines.len()
        invariant
            edges@.len() == k,
            forall|i: int| 0 <= i < k ==> edge_of(#[trigger] lines@[i]@) == Some(edges@[i]),
    {
        match parse_edge(lines[k].as_str()) {
            Some(edge) => {
                edges.push(edge);
            },
            None => {
                return Err(k);
            },
        }
    }
    Ok(edges)
}

/// Collects the identifiers that occur as an end of some edge.
pub fn distinct_nodes(edges: &Vec<(usize, usize)>) -> (nodes: HashSet<usize>)
    ensures
        nodes@ == endpoints(edges@),
{
    let mut nodes: HashSet<usize> = HashSet::new();
    for k in 0..edges.len()
        invariant
            nodes@ == endpoints(edges@.take(k as int)),
    {
        let (u, v) = edges[k];
        nodes.insert(u);
        nodes.insert(v);
        proof {
            let next = edges@.take(k + 1);
            assert forall|x: usize| nodes@.contains(x) <==> endpoints(next).contains(x) by {
                if x == u || x == v {
                    assert(next[k as int] == (u, v));
                }
            }
        }
    }
    assert(edges@.take(edges@.len() as int) == edges@);
    nodes
}

/// The number of nodes that a graph needs to hold the edges: one more than
/// the greatest identifier that occurs in them. Gives nothing for an empty
/// list, and nothing where that number is more than a `usize` holds.
pub fn node_count(edges: &Vec<(usize, usize)>) -> (count: Option<usize>)
    ensures
        match count {
            Some(n) => {
                &&& n > 0
                &&& edges_within(edges@, n as int)
                &&& endpoints(edges@).contains((n - 1) as usize)
            },
            None => edges@.len() == 0 || endpoints(edges@).contains(usize::MAX),
        },
{
    if edges.len() == 0 {
        return None;
    }
    let (first_u, first_v) = edges[0];
    let mut greatest: usize = if first_u >= first_v {
        first_u
    } else {
        first_v
    };
    let ghost mut at: int = 0;
    for k in 1..edges.len()
        invariant
            0 <= at < k,
            edges@[at].0 == greatest || edges@[at].1 == greatest,
            forall|i: int| 0 <= i < k ==> (#[trigger] edges@[i]).0 <= greatest && edges@[i].1 <= greatest,
    {
        let (u, v) = edges[k];
        if u > greatest {
            greatest = u;
            proof {
                at = k as int;
            }
        }
        if v > greatest {
            greatest = v;
            proof {
                at = k as int;
            }
        }
    }
    if greatest == usize::MAX {
        None
    } else {
        Some(greatest + 1)
    }
}

} // verus!
