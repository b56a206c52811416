use social_graph::features::{
    distances_with_feature, feature_column, feature_table, FeatureError, NO_COLUMN,
};
use social_graph::graph::Graph;
use social_graph::traversal::distance_matrix;
use std::collections::HashMap;

fn lines(text: &[&str]) -> Vec<String> {
    text.iter().map(|line| line.to_string()).collect()
}

#[test]
fn feature_column_is_one_after_the_line_number_field() {
    let names = lines(&[
        "0 birthday;anonymized feature 376",
        "1 birthday;anonymized feature 377",
        "2 education;classes;id;anonymized feature 380",
    ]);
    assert_eq!(feature_column(&names, 376), Ok(1));
    assert_eq!(feature_column(&names, 377), Ok(2));
    assert_eq!(feature_column(&names, 380), Ok(3));
}

#[test]
fn feature_column_takes_the_first_line_that_names_the_feature() {
    let names = lines(&["4 a b 9", "7 a b 9", "broken"]);
    assert_eq!(feature_column(&names, 9), Ok(5));
}

#[test]
fn feature_column_reports_a_feature_that_no_line_names() {
    let names = lines(&["0 a b 1", "1 a b 2"]);
    assert_eq!(feature_column(&names, 3), Err(FeatureError::NotFound));
    assert_eq!(feature_column(&Vec::new(), 3), Err(FeatureError::NotFound));
}

#[test]
fn feature_column_reports_the_malformed_line() {
    let short = lines(&["0 a b 1", "1 a b", "2 a b 3"]);
    assert_eq!(feature_column(&short, 3), Err(FeatureError::Malformed(1)));
    assert_eq!(feature_column(&short, 1), Ok(1));
    let no_number = lines(&["x a b 1"]);
    assert_eq!(feature_column(&no_number, 1), Err(FeatureError::Malformed(0)));
    assert_eq!(feature_column(&no_number, 2), Err(FeatureError::NotFound));
    let greatest = lines(&[&format!("{} a b 1", usize::MAX)]);
    assert_eq!(feature_column(&greatest, 1), Err(FeatureError::Malformed(0)));
}

#[test]
fn feature_column_takes_the_reserved_column_as_not_found() {
    assert_eq!(NO_COLUMN, 12345);
    let names = lines(&["12344 a b 1", "5 a b 1"]);
    assert_eq!(feature_column(&names, 1), Err(FeatureError::NotFound));
    let near = lines(&["12343 a b 1"]);
    assert_eq!(feature_column(&near, 1), Ok(12344));
}

#[test]
fn feature_table_maps_each_node_to_its_value() {
    let rows = lines(&["896 0 1 0", "897 1 0 0", "902 0 1 1"]);
    let table = feature_table(&rows, "1 0 1", 2, 107).unwrap();
    let expected: HashMap<usize, usize> =
        [(896, 1), (897, 0), (902, 1), (107, 1)].into_iter().collect();
    assert_eq!(table, expected);
}

#[test]
fn feature_table_lets_later_lines_and_the_ego_line_win() {
    let rows = lines(&["5 0", "6 1", "5 1", "7 0"]);
    let table = feature_table(&rows, "9 1", 1, 7).unwrap();
    let expected: HashMap<usize, usize> = [(5, 1), (6, 1), (7, 1)].into_iter().collect();
    assert_eq!(table, expected);
    let only_ego = feature_table(&Vec::new(), "0 4", 1, 3).unwrap();
    let expected_ego: HashMap<usize, usize> = [(3, 4)].into_iter().collect();
    assert_eq!(only_ego, expected_ego);
}

#[test]
fn feature_table_reports_the_malformed_line() {
    let rows = lines(&["5 0", "6", "x 1"]);
    assert_eq!(feature_table(&rows, "0 1", 1, 0), Err(FeatureError::Malformed(1)));
    let bad_node = lines(&["5 0", "x 1"]);
    assert_eq!(feature_table(&bad_node, "0 1", 1, 0), Err(FeatureError::Malformed(1)));
    let good = lines(&["5 0", "6 1"]);
    assert_eq!(feature_table(&good, "0", 1, 0), Err(FeatureError::Malformed(2)));
    assert_eq!(feature_table(&good, "0 y", 1, 0), Err(FeatureError::Malformed(2)));
}

#[test]
fn distances_with_feature_takes_rows_in_node_order() {
    let edges: Vec<(usize, usize)> = vec![(0, 1), (1, 2), (3, 4)];
    let graph = Graph::create_undirected(5, &edges);
    let matrix = distance_matrix(&graph);
    let features: HashMap<usize, usize> =
        [(4, 1), (0, 1), (1, 0), (2, 1), (9, 1)].into_iter().collect();
    assert_eq!(distances_with_feature(&matrix, &features, 1), vec![0, 1, 2, 2, 1, 0, 1, 0]);
    assert_eq!(distances_with_feature(&matrix, &features, 0), vec![1, 0, 1]);
    assert_eq!(distances_with_feature(&matrix, &features, 2), Vec::<usize>::new());
    assert_eq!(distances_with_feature(&matrix, &HashMap::new(), 0), Vec::<usize>::new());
}
