use gdsverify::geometry::Bbox;
use gdsverify::lvs::candidates::node_candidate_pairs;

fn b(xmin: i32, ymin: i32, xmax: i32, ymax: i32) -> Bbox {
    Bbox { xmin, ymin, xmax, ymax }
}

fn sorted(mut v: Vec<(u32, u32)>) -> Vec<(u32, u32)> {
    v.sort();
    v
}

#[test]
fn touching_and_overlapping_boxes_pair_up() {
    let boxes = [
        b(0, 0, 10, 10),
        b(10, 0, 20, 10),  // shares an edge with 0
        b(5, 5, 6, 6),     // inside 0
        b(30, 30, 40, 40), // far away
        b(20, 10, 25, 15), // touches 1 at a corner
    ];
    assert_eq!(sorted(node_candidate_pairs(&boxes)), vec![(0, 1), (0, 2), (1, 4)]);
}

#[test]
fn vertical_spread_sweeps_along_y() {
    let boxes = [b(0, 0, 4, 100), b(2, 100, 3, 200), b(0, 300, 1, 400), b(5, 0, 6, 50)];
    assert_eq!(sorted(node_candidate_pairs(&boxes)), vec![(0, 1)]);
}

#[test]
fn no_boxes_no_pairs() {
    assert!(node_candidate_pairs(&[]).is_empty());
    assert!(node_candidate_pairs(&[b(0, 0, 1, 1)]).is_empty());
}
