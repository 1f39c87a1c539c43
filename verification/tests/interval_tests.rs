use gdsverify::lvs::intervals::{closed_interval_sets_intersect, intersect_interval_sets, merge_closed_intervals};

#[test]
fn intersection_keeps_common_parts_in_order() {
    let a = [(0, 10), (20, 30)];
    let b = [(5, 25), (28, 40)];
    assert_eq!(intersect_interval_sets(&a, &b), vec![(5, 10), (20, 25), (28, 30)]);
}

#[test]
fn intersection_drops_touching_and_empty_parts() {
    assert_eq!(intersect_interval_sets(&[(0, 5)], &[(5, 9)]), Vec::<(i32, i32)>::new());
    assert_eq!(intersect_interval_sets(&[], &[(0, 9)]), Vec::<(i32, i32)>::new());
    assert_eq!(intersect_interval_sets(&[(-4, 4)], &[(-10, 10)]), vec![(-4, 4)]);
}

#[test]
fn merge_sorts_joins_touching_and_drops_empty() {
    let merged = merge_closed_intervals(vec![(5, 7), (0, 2), (2, 3), (9, 8), (10, 12), (6, 6)]);
    assert_eq!(merged, vec![(0, 3), (5, 7), (10, 12)]);
}

#[test]
fn merge_keeps_unit_gaps_apart() {
    assert_eq!(merge_closed_intervals(vec![(2, 3), (0, 1)]), vec![(0, 1), (2, 3)]);
    assert_eq!(merge_closed_intervals(vec![(0, 10), (3, 4)]), vec![(0, 10)]);
    assert_eq!(merge_closed_intervals(Vec::new()), Vec::<(i32, i32)>::new());
}

#[test]
fn closed_lists_meet_at_a_shared_endpoint() {
    assert!(closed_interval_sets_intersect(&[(0, 3), (5, 7)], &[(3, 4)]));
    assert!(closed_interval_sets_intersect(&[(0, 1), (6, 9)], &[(2, 4), (9, 12)]));
    assert!(!closed_interval_sets_intersect(&[(0, 2), (6, 8)], &[(3, 5), (9, 10)]));
    assert!(!closed_interval_sets_intersect(&[], &[(3, 5)]));
}
