use gdsverify::geometry::GeometryStore;
use gdsverify::lvs::channel::{split_channel, GateSpan};

const POLY: u32 = 1;
const DIFF: u32 = 2;

#[test]
fn one_vertical_gate_splits_a_wide_channel_in_two() {
    let mut s = GeometryStore::new();
    s.add_rect(DIFF, 0, 0, 100, 20);
    s.add_rect(POLY, 40, -10, 10, 40);
    let sp = split_channel(&s, &vec![POLY], 0);
    assert_eq!(sp.diff, 0);
    assert!(sp.axis_x);
    assert_eq!(sp.gates, vec![GateSpan { gate: 1, lo: 40, hi: 50 }]);
    assert_eq!(sp.seg_spans, vec![(0, 40), (50, 100)]);
}

#[test]
fn gates_are_sorted_and_overlapping_gates_merge() {
    let mut s = GeometryStore::new();
    s.add_rect(DIFF, 0, 0, 100, 20);
    s.add_rect(POLY, 70, -10, 10, 40);
    s.add_rect(POLY, 20, -10, 10, 40);
    s.add_rect(POLY, 25, -10, 10, 40);
    let sp = split_channel(&s, &vec![POLY], 0);
    let order: Vec<usize> = sp.gates.iter().map(|g| g.gate).collect();
    assert_eq!(order, vec![2, 3, 1]);
    assert_eq!(sp.seg_spans, vec![(0, 20), (35, 70), (80, 100)]);
}

#[test]
fn horizontal_gates_split_a_tall_channel_along_y() {
    let mut s = GeometryStore::new();
    s.add_rect(DIFF, 0, 0, 20, 100);
    s.add_rect(POLY, -10, 30, 40, 10);
    let sp = split_channel(&s, &vec![POLY], 0);
    assert!(!sp.axis_x);
    assert_eq!(sp.gates, vec![GateSpan { gate: 1, lo: 30, hi: 40 }]);
    assert_eq!(sp.seg_spans, vec![(0, 30), (40, 100)]);
}

#[test]
fn gate_at_the_end_leaves_one_segment_and_no_gate_leaves_the_whole_channel() {
    let mut s = GeometryStore::new();
    s.add_rect(DIFF, 0, 0, 100, 20);
    s.add_rect(POLY, 90, -10, 20, 40);
    let sp = split_channel(&s, &vec![POLY], 0);
    assert_eq!(sp.gates, vec![GateSpan { gate: 1, lo: 90, hi: 100 }]);
    assert_eq!(sp.seg_spans, vec![(0, 90)]);
    let none = split_channel(&s, &vec![7], 0);
    assert!(none.gates.is_empty());
    assert_eq!(none.seg_spans, vec![(0, 100)]);
}
