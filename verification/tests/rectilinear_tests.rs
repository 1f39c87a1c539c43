use gdsverify::geometry::{Bbox, Point};
use gdsverify::lvs::rectilinear::{
    closed_intervals_at_x, interior_intervals_at_x2, is_rectilinear, poly_poly_overlap, rectilinear_intersection_area,
    rectilinear_regions_touch, PolyRegion,
};

fn rect(x0: i32, y0: i32, x1: i32, y1: i32) -> Vec<Point> {
    vec![Point { x: x0, y: y0 }, Point { x: x1, y: y0 }, Point { x: x1, y: y1 }, Point { x: x0, y: y1 }]
}

fn bbox(x0: i32, y0: i32, x1: i32, y1: i32) -> Bbox {
    Bbox { xmin: x0, ymin: y0, xmax: x1, ymax: y1 }
}

fn region(x0: i32, y0: i32, x1: i32, y1: i32) -> PolyRegion {
    PolyRegion { ring: rect(x0, y0, x1, y1), clip: bbox(x0, y0, x1, y1) }
}

fn l_shape() -> Vec<Point> {
    vec![
        Point { x: 0, y: 0 },
        Point { x: 20, y: 0 },
        Point { x: 20, y: 10 },
        Point { x: 10, y: 10 },
        Point { x: 10, y: 20 },
        Point { x: 0, y: 20 },
    ]
}

#[test]
fn rectilinear_rings_have_axis_parallel_edges() {
    assert!(is_rectilinear(&rect(0, 0, 10, 10)));
    assert!(is_rectilinear(&l_shape()));
    assert!(!is_rectilinear(&vec![Point { x: 0, y: 0 }, Point { x: 10, y: 0 }, Point { x: 0, y: 10 }]));
}

#[test]
fn interior_slices_follow_the_even_odd_rule() {
    let clip = bbox(0, 0, 20, 20);
    assert_eq!(interior_intervals_at_x2(&l_shape(), clip, 9), vec![(0, 20)]);
    assert_eq!(interior_intervals_at_x2(&l_shape(), clip, 31), vec![(0, 10)]);
    assert_eq!(interior_intervals_at_x2(&l_shape(), bbox(0, 5, 20, 15), 31), vec![(5, 10)]);
    assert_eq!(interior_intervals_at_x2(&l_shape(), clip, 41), Vec::<(i32, i32)>::new());
}

#[test]
fn closed_slices_include_vertical_boundaries() {
    let clip = bbox(0, 0, 20, 20);
    assert_eq!(closed_intervals_at_x(&l_shape(), clip, 10), vec![(0, 20)]);
    assert_eq!(closed_intervals_at_x(&l_shape(), clip, 20), vec![(0, 10)]);
    assert_eq!(closed_intervals_at_x(&l_shape(), clip, 21), Vec::<(i32, i32)>::new());
}

#[test]
fn shared_area_is_exact() {
    assert_eq!(rectilinear_intersection_area(&vec![region(0, 0, 10, 10), region(5, 5, 15, 15)]), 25);
    assert_eq!(rectilinear_intersection_area(&vec![region(0, 0, 10, 10)]), 100);
    let l = PolyRegion { ring: l_shape(), clip: bbox(0, 0, 20, 20) };
    assert_eq!(rectilinear_intersection_area(&vec![l]), 300);
    let l = PolyRegion { ring: l_shape(), clip: bbox(0, 0, 20, 20) };
    assert_eq!(rectilinear_intersection_area(&vec![l, region(12, 12, 18, 18)]), 0);
    assert_eq!(rectilinear_intersection_area(&vec![]), 0);
    assert_eq!(
        rectilinear_intersection_area(&vec![region(i32::MIN, i32::MIN, i32::MAX, i32::MAX)]),
        (u32::MAX as i128) * (u32::MAX as i128)
    );
}

#[test]
fn contact_is_told_apart_from_separation() {
    assert!(rectilinear_regions_touch(&region(0, 0, 10, 10), &region(5, 5, 15, 15)));
    assert!(rectilinear_regions_touch(&region(0, 0, 10, 10), &region(10, 0, 20, 10)));
    assert!(rectilinear_regions_touch(&region(0, 0, 10, 10), &region(10, 10, 20, 20)));
    assert!(!rectilinear_regions_touch(&region(0, 0, 10, 10), &region(11, 0, 20, 10)));
    let l = PolyRegion { ring: l_shape(), clip: bbox(0, 0, 20, 20) };
    assert!(!rectilinear_regions_touch(&l, &region(12, 12, 18, 18)));
}

#[test]
fn overlap_needs_positive_shared_area() {
    assert!(poly_poly_overlap(&rect(0, 0, 10, 10), bbox(0, 0, 10, 10), &rect(5, 5, 15, 15), bbox(5, 5, 15, 15)));
    assert!(!poly_poly_overlap(&rect(0, 0, 10, 10), bbox(0, 0, 10, 10), &rect(10, 0, 20, 10), bbox(10, 0, 20, 10)));
}
