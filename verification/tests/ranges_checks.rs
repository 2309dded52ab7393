use study_tracker::ranges::{invalid_range, range_contains, sort_ranges};

#[test]
fn no_ranges_are_valid() {
    assert!(!invalid_range(vec![]));
}

#[test]
fn a_single_point_is_a_valid_range() {
    assert!(!invalid_range(vec![(3, 3)]));
    assert!(invalid_range(vec![(3, 2)]));
}

#[test]
fn the_same_range_twice_is_invalid() {
    assert!(invalid_range(vec![(1, 2), (1, 2)]));
    assert!(invalid_range(vec![(7, 7), (7, 7)]));
}

#[test]
fn validity_does_not_depend_on_the_order_given() {
    let orders = [
        vec![(1, 1), (2, 3), (100, 10000)],
        vec![(1, 1), (100, 10000), (2, 3)],
        vec![(2, 3), (1, 1), (100, 10000)],
        vec![(2, 3), (100, 10000), (1, 1)],
        vec![(100, 10000), (1, 1), (2, 3)],
        vec![(100, 10000), (2, 3), (1, 1)],
    ];
    for order in orders {
        assert!(!invalid_range(order));
    }
    let orders = [
        vec![(1, 4), (5, 9), (9, 12)],
        vec![(9, 12), (5, 9), (1, 4)],
        vec![(5, 9), (1, 4), (9, 12)],
    ];
    for order in orders {
        assert!(invalid_range(order));
    }
}

#[test]
fn a_range_inside_another_is_invalid() {
    assert!(invalid_range(vec![(1, 10), (3, 4)]));
    assert!(invalid_range(vec![(3, 4), (1, 10)]));
}

#[test]
fn ranges_over_the_whole_width_of_the_ids() {
    assert!(!invalid_range(vec![(i32::MIN, -1), (0, i32::MAX)]));
    assert!(invalid_range(vec![(i32::MIN, 0), (0, i32::MAX)]));
    assert!(invalid_range(vec![(i32::MAX, i32::MIN)]));
}

#[test]
fn sorting_orders_by_start_then_stop() {
    let sorted = sort_ranges(&vec![(4, 5), (1, 9), (1, 1), (-3, 0), (4, 4)]);
    assert_eq!(sorted, vec![(-3, 0), (1, 1), (1, 9), (4, 4), (4, 5)]);
    assert_eq!(sort_ranges(&vec![]), vec![]);
}

#[test]
fn lookup_finds_the_ids_that_a_range_covers() {
    let sorted = sort_ranges(&vec![(9, 17), (1, 1), (4, 5)]);
    let inside: Vec<i32> = (-2..25).filter(|q| range_contains(&sorted, *q)).collect();
    assert_eq!(inside, vec![1, 4, 5, 9, 10, 11, 12, 13, 14, 15, 16, 17]);
    assert!(!range_contains(&vec![], 1));
    assert!(range_contains(&vec![(i32::MIN, i32::MAX)], 0));
}
