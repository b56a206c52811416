use social_graph::summary::{largest, nth_smallest, smallest, total, values_below};

#[test]
fn total_adds_the_values_up() {
    assert_eq!(total(&vec![1, 2, 3, 4, 5]), Some(15));
    assert_eq!(total(&Vec::new()), Some(0));
    assert_eq!(total(&vec![usize::MAX]), Some(usize::MAX));
    assert_eq!(total(&vec![usize::MAX - 1, 1, 0]), Some(usize::MAX));
}

#[test]
fn total_gives_nothing_on_overflow() {
    assert_eq!(total(&vec![usize::MAX, 1]), None);
    assert_eq!(total(&vec![1, usize::MAX, 0]), None);
}

#[test]
fn largest_and_smallest_find_the_extremes() {
    let values = vec![3, 1, 4, 1, 5];
    assert_eq!(largest(&values), Some(5));
    assert_eq!(smallest(&values), Some(1));
    assert_eq!(largest(&vec![7]), Some(7));
    assert_eq!(smallest(&vec![7]), Some(7));
    assert_eq!(largest(&vec![9, 2, 2]), Some(9));
    assert_eq!(smallest(&vec![9, 2, 2]), Some(2));
    assert_eq!(largest(&Vec::new()), None);
    assert_eq!(smallest(&Vec::new()), None);
}

#[test]
fn nth_smallest_sorts_and_picks() {
    let mut values = vec![3, 1, 4, 1, 5];
    assert_eq!(nth_smallest(&mut values, 2), Some(3));
    assert_eq!(values, vec![1, 1, 3, 4, 5]);
    assert_eq!(nth_smallest(&mut values, 0), Some(1));
    assert_eq!(nth_smallest(&mut values, 4), Some(5));
    assert_eq!(nth_smallest(&mut values, 5), None);
    let mut single = vec![10];
    assert_eq!(nth_smallest(&mut single, 0), Some(10));
    let mut empty: Vec<usize> = Vec::new();
    assert_eq!(nth_smallest(&mut empty, 0), None);
    let mut reversed = vec![6, 5, 4, 3, 2, 1];
    assert_eq!(nth_smallest(&mut reversed, 1), Some(2));
    assert_eq!(reversed, vec![1, 2, 3, 4, 5, 6]);
}

#[test]
fn values_below_keeps_order_and_drops_the_rest() {
    assert_eq!(values_below(&vec![5, 1, 9, 3, 3, 10], 5), vec![1, 3, 3]);
    assert_eq!(values_below(&vec![5, 1, 9], 0), Vec::<usize>::new());
    assert_eq!(values_below(&vec![5, 1, 9], 10), vec![5, 1, 9]);
    assert_eq!(values_below(&Vec::new(), 3), Vec::<usize>::new());
}
