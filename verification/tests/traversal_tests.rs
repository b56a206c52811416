use social_graph::components::{label_components, mark_component_bfs};
use social_graph::graph::Graph;
use social_graph::traversal::{compute_and_print_distance_bfs, distance_matrix, flatten_distances};

fn triangle() -> Graph {
    let edges: Vec<(usize, usize)> = vec![(0, 1), (1, 2), (0, 2)];
    Graph::create_undirected(3, &edges)
}

#[test]
fn bfs_on_undirected_triangle() {
    let graph = triangle();
    assert_eq!(compute_and_print_distance_bfs(0, &graph), vec![Some(0), Some(1), Some(1)]);
}

#[test]
fn bfs_on_directed_triangle_leaves_unreached_nodes_absent() {
    let edges: Vec<(usize, usize)> = vec![(0, 1), (1, 2), (0, 2)];
    let graph = Graph::create_directed(3, &edges);
    assert_eq!(compute_and_print_distance_bfs(0, &graph), vec![Some(0), Some(1), Some(1)]);
    assert_eq!(compute_and_print_distance_bfs(1, &graph), vec![None, Some(0), Some(1)]);
    assert_eq!(compute_and_print_distance_bfs(2, &graph), vec![None, None, Some(0)]);
}

#[test]
fn bfs_counts_hops_along_a_path() {
    let edges: Vec<(usize, usize)> = vec![(0, 1), (1, 2), (2, 3), (3, 4)];
    let graph = Graph::create_undirected(5, &edges);
    assert_eq!(
        compute_and_print_distance_bfs(0, &graph),
        vec![Some(0), Some(1), Some(2), Some(3), Some(4)]
    );
    assert_eq!(
        compute_and_print_distance_bfs(2, &graph),
        vec![Some(2), Some(1), Some(0), Some(1), Some(2)]
    );
}

#[test]
fn bfs_takes_the_shortest_of_several_ways() {
    let edges: Vec<(usize, usize)> = vec![(0, 1), (1, 2), (2, 3), (0, 4), (4, 3), (3, 5)];
    let graph = Graph::create_directed(6, &edges);
    assert_eq!(
        compute_and_print_distance_bfs(0, &graph),
        vec![Some(0), Some(1), Some(2), Some(2), Some(1), Some(3)]
    );
}

#[test]
fn bfs_source_is_at_distance_zero() {
    let edges: Vec<(usize, usize)> = vec![(0, 1), (1, 0), (2, 2)];
    let graph = Graph::create_directed(4, &edges);
    for source in 0..graph.n {
        let distance = compute_and_print_distance_bfs(source, &graph);
        assert_eq!(distance.len(), graph.n);
        assert_eq!(distance[source], Some(0));
    }
    assert_eq!(compute_and_print_distance_bfs(3, &graph), vec![None, None, None, Some(0)]);
}

#[test]
fn bfs_distances_grow_by_at_most_one_along_an_edge() {
    let edges: Vec<(usize, usize)> =
        vec![(0, 1), (0, 2), (1, 3), (2, 3), (3, 4), (4, 0), (5, 6), (6, 5), (4, 6)];
    let graph = Graph::create_directed(8, &edges);
    for source in 0..graph.n {
        let distance = compute_and_print_distance_bfs(source, &graph);
        for u in 0..graph.n {
            for v in &graph.outedges[u] {
                if let Some(du) = distance[u] {
                    let dv = distance[*v].unwrap();
                    assert!(dv <= du + 1);
                }
            }
        }
    }
}

#[test]
fn mark_component_labels_what_the_start_reaches() {
    let edges: Vec<(usize, usize)> = vec![(0, 1), (1, 2), (3, 4)];
    let graph = Graph::create_undirected(5, &edges);
    let mut component: Vec<Option<usize>> = vec![None; 5];
    mark_component_bfs(1, &graph, &mut component, 7);
    assert_eq!(component, vec![Some(7), Some(7), Some(7), None, None]);
    mark_component_bfs(4, &graph, &mut component, 9);
    assert_eq!(component, vec![Some(7), Some(7), Some(7), Some(9), Some(9)]);
}

#[test]
fn mark_component_stops_at_labelled_nodes() {
    let edges: Vec<(usize, usize)> = vec![(0, 1), (1, 2), (2, 3)];
    let graph = Graph::create_undirected(4, &edges);
    let mut component: Vec<Option<usize>> = vec![None, None, Some(5), None];
    mark_component_bfs(0, &graph, &mut component, 1);
    assert_eq!(component, vec![Some(1), Some(1), Some(5), None]);
    mark_component_bfs(2, &graph, &mut component, 2);
    assert_eq!(component, vec![Some(1), Some(1), Some(2), Some(2)]);
}

#[test]
fn components_of_four_nodes_with_one_edge() {
    let edges: Vec<(usize, usize)> = vec![(0, 1)];
    let graph = Graph::create_undirected(4, &edges);
    let (component, count) = label_components(&graph);
    assert_eq!(component, vec![Some(1), Some(1), Some(2), Some(3)]);
    assert_eq!(count, 3);
}

#[test]
fn components_follow_the_driving_loop() {
    let edges: Vec<(usize, usize)> = vec![(0, 1)];
    let graph = Graph::create_undirected(4, &edges);
    let mut component: Vec<Option<usize>> = vec![None; graph.n];
    let mut component_count = 0;
    for v in 0..graph.n {
        if component[v].is_none() {
            component_count += 1;
            mark_component_bfs(v, &graph, &mut component, component_count);
        }
    }
    assert_eq!(component_count, 3);
    assert_eq!(component, vec![Some(1), Some(1), Some(2), Some(3)]);
    assert_eq!(label_components(&graph), (component, component_count));
}

#[test]
fn components_share_a_label_exactly_when_connected() {
    let edges: Vec<(usize, usize)> = vec![(5, 1), (1, 3), (2, 4), (6, 6), (0, 7), (7, 2)];
    let graph = Graph::create_undirected(8, &edges);
    let (component, count) = label_components(&graph);
    assert_eq!(
        component,
        vec![Some(1), Some(2), Some(1), Some(2), Some(1), Some(2), Some(3), Some(1)]
    );
    assert_eq!(count, 3);
    for u in 0..graph.n {
        let distance = compute_and_print_distance_bfs(u, &graph);
        for v in 0..graph.n {
            assert_eq!(component[u] == component[v], distance[v].is_some());
        }
    }
}

#[test]
fn components_of_a_directed_graph_follow_the_scan() {
    let edges: Vec<(usize, usize)> = vec![(1, 0), (1, 2)];
    let graph = Graph::create_directed(3, &edges);
    let (component, count) = label_components(&graph);
    assert_eq!(component, vec![Some(1), Some(2), Some(2)]);
    assert_eq!(count, 2);
}

#[test]
fn components_of_the_empty_graph() {
    let graph = Graph::create_undirected(0, &Vec::new());
    let (component, count) = label_components(&graph);
    assert!(component.is_empty());
    assert_eq!(count, 0);
}

#[test]
fn distance_matrix_has_one_row_per_source() {
    let graph = triangle();
    assert_eq!(
        distance_matrix(&graph),
        vec![
            vec![Some(0), Some(1), Some(1)],
            vec![Some(1), Some(0), Some(1)],
            vec![Some(1), Some(1), Some(0)],
        ]
    );
}

#[test]
fn flatten_distances_keeps_order_and_drops_absent() {
    let edges: Vec<(usize, usize)> = vec![(0, 1), (1, 2), (0, 2)];
    let graph = Graph::create_directed(3, &edges);
    let matrix = distance_matrix(&graph);
    assert_eq!(flatten_distances(&matrix), vec![0, 1, 1, 0, 1, 0]);
    let connected = distance_matrix(&triangle());
    assert_eq!(flatten_distances(&connected), vec![0, 1, 1, 1, 0, 1, 1, 1, 0]);
    assert_eq!(flatten_distances(&Vec::new()), Vec::<usize>::new());
    assert_eq!(flatten_distances(&vec![vec![None, None], vec![]]), Vec::<usize>::new());
}
