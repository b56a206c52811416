use social_graph::graph::{edges_fit, num_node_list, reverse_edges, Graph};

#[test]
fn test_empty_outer_vector() {
    let adj_list: Vec<Vec<usize>> = Vec::new();
    assert_eq!(num_node_list(&adj_list), vec![]);
}

#[test]
fn test_outer_vector_with_empty_inner_vectors() {
    let adj_list = vec![vec![], vec![], vec![]];
    assert_eq!(num_node_list(&adj_list), vec![0, 0, 0]);
}

#[test]
fn test_outer_vector_with_various_inner_vector_lengths() {
    let adj_list = vec![vec![1, 2], vec![1, 2, 3], vec![1]];
    assert_eq!(num_node_list(&adj_list), vec![2, 3, 1]);
}

#[test]
fn test_graph_0() {
    let vec: Vec<(usize, usize)> = vec![(0, 1), (1, 2), (0, 2)];
    let graph = Graph::create_directed(3, &vec);
    assert_eq!(graph.outedges[0], vec![1, 2]);
}

#[test]
fn test_graph_1() {
    let vec: Vec<(usize, usize)> = vec![(0, 1), (1, 2), (0, 2)];
    let graph = Graph::create_directed(3, &vec);
    assert_eq!(graph.outedges[1], vec![2]);
}

#[test]
fn test_graph_2() {
    let vec: Vec<(usize, usize)> = vec![(0, 1), (1, 2), (0, 2)];
    let graph = Graph::create_undirected(3, &vec);
    assert_eq!(graph.outedges[2], vec![0, 1]);
}

#[test]
fn directed_triangle_has_all_lists() {
    let edges: Vec<(usize, usize)> = vec![(0, 1), (1, 2), (0, 2)];
    let graph = Graph::create_directed(3, &edges);
    assert_eq!(graph.n, 3);
    assert_eq!(graph.outedges.len(), 3);
    assert_eq!(graph.outedges, vec![vec![1, 2], vec![2], vec![]]);
    assert!(graph.is_well_formed());
}

#[test]
fn undirected_triangle_has_all_lists() {
    let edges: Vec<(usize, usize)> = vec![(0, 1), (1, 2), (0, 2)];
    let graph = Graph::create_undirected(3, &edges);
    assert_eq!(graph.outedges, vec![vec![1, 2], vec![0, 2], vec![0, 1]]);
    assert_eq!(num_node_list(&graph.outedges), vec![2, 2, 2]);
}

#[test]
fn directed_lists_are_sorted_and_keep_repeats() {
    let edges: Vec<(usize, usize)> = vec![(0, 3), (0, 1), (0, 3), (2, 0), (0, 2), (2, 0)];
    let graph = Graph::create_directed(4, &edges);
    assert_eq!(graph.outedges[0], vec![1, 2, 3, 3]);
    assert_eq!(graph.outedges[1], Vec::<usize>::new());
    assert_eq!(graph.outedges[2], vec![0, 0]);
    assert_eq!(graph.outedges[3], Vec::<usize>::new());
    for list in &graph.outedges {
        for pair in list.windows(2) {
            assert!(pair[0] <= pair[1]);
        }
    }
}

#[test]
fn undirected_lists_are_symmetric() {
    let edges: Vec<(usize, usize)> = vec![(4, 0), (2, 3), (0, 2), (3, 4), (1, 4)];
    let graph = Graph::create_undirected(5, &edges);
    for (u, v) in &edges {
        assert!(graph.outedges[*u].contains(v));
        assert!(graph.outedges[*v].contains(u));
    }
    for u in 0..graph.n {
        for v in &graph.outedges[u] {
            assert!(graph.outedges[*v].contains(&u));
        }
    }
    assert_eq!(graph.outedges[4], vec![0, 1, 3]);
}

#[test]
fn undirected_self_loop_is_added_twice() {
    let edges: Vec<(usize, usize)> = vec![(1, 1), (0, 1)];
    let graph = Graph::create_undirected(2, &edges);
    assert_eq!(graph.outedges[1], vec![0, 1, 1]);
    assert_eq!(graph.outedges[0], vec![1]);
}

#[test]
fn graph_without_edges_has_empty_lists() {
    let edges: Vec<(usize, usize)> = Vec::new();
    let graph = Graph::create_directed(3, &edges);
    assert_eq!(graph.outedges, vec![Vec::<usize>::new(), Vec::new(), Vec::new()]);
    let empty = Graph::create_undirected(0, &edges);
    assert_eq!(empty.n, 0);
    assert!(empty.outedges.is_empty());
}

#[test]
fn reverse_edges_swaps_each_pair_in_order() {
    let edges: Vec<(usize, usize)> = vec![(0, 1), (5, 2), (3, 3)];
    assert_eq!(reverse_edges(&edges), vec![(1, 0), (2, 5), (3, 3)]);
    assert_eq!(reverse_edges(&Vec::new()), Vec::<(usize, usize)>::new());
}

#[test]
fn add_directed_edges_appends_in_list_order() {
    let mut graph = Graph { n: 3, outedges: vec![vec![2], vec![], vec![]] };
    graph.add_directed_edges(&vec![(0, 1), (2, 0), (0, 0)]);
    assert_eq!(graph.n, 3);
    assert_eq!(graph.outedges, vec![vec![2, 1, 0], vec![], vec![0]]);
}

#[test]
fn sort_graph_lists_orders_every_list() {
    let mut graph = Graph { n: 3, outedges: vec![vec![2, 1, 0, 1], vec![], vec![1, 0]] };
    graph.sort_graph_lists();
    assert_eq!(graph.n, 3);
    assert_eq!(graph.outedges, vec![vec![0, 1, 1, 2], vec![], vec![0, 1]]);
}

#[test]
fn edges_fit_tells_when_an_end_is_out_of_range() {
    let edges: Vec<(usize, usize)> = vec![(0, 1), (1, 2)];
    assert!(edges_fit(&edges, 3));
    assert!(!edges_fit(&edges, 2));
    assert!(!edges_fit(&vec![(2, 0)], 2));
    assert!(edges_fit(&Vec::new(), 0));
}

#[test]
fn is_well_formed_tells_a_broken_graph() {
    let good = Graph { n: 2, outedges: vec![vec![1], vec![0, 0]] };
    assert!(good.is_well_formed());
    let short = Graph { n: 3, outedges: vec![vec![1], vec![0]] };
    assert!(!short.is_well_formed());
    let stray = Graph { n: 2, outedges: vec![vec![2], vec![]] };
    assert!(!stray.is_well_formed());
}

#[test]
fn degrees_of_the_undirected_triangle() {
    let edges: Vec<(usize, usize)> = vec![(0, 1), (1, 2), (0, 2)];
    let graph = Graph::create_undirected(3, &edges);
    assert_eq!(num_node_list(&graph.outedges), vec![2, 2, 2]);
    let directed = Graph::create_directed(3, &edges);
    assert_eq!(num_node_list(&directed.outedges), vec![2, 1, 0]);
}
