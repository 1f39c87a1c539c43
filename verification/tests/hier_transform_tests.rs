use gdsverify::lvs::hier_transform::{HierArray, HierTransform};

fn t(xx: i8, xy: i8, yx: i8, yy: i8) -> HierTransform {
    HierTransform { xx, xy, yx, yy, dx: 5, dy: -5 }
}

#[test]
fn defaults_are_identity_and_single_copy() {
    assert_eq!(HierTransform::default(), HierTransform { xx: 1, xy: 0, yx: 0, yy: 1, dx: 0, dy: 0 });
    assert_eq!(HierArray::default(), HierArray { columns: 1, rows: 1, column_step: (0, 0), row_step: (0, 0) });
}

#[test]
fn manhattan_orientations_are_valid() {
    assert!(t(1, 0, 0, 1).valid());
    assert!(t(-1, 0, 0, 1).valid());
    assert!(t(0, -1, 1, 0).valid());
    assert!(t(0, 1, 1, 0).valid());
    assert!(t(-1, 0, 0, -1).valid());
}

#[test]
fn scaling_and_degenerate_transforms_are_not() {
    assert!(!t(2, 0, 0, 1).valid());
    assert!(!t(1, 1, 1, 1).valid());
    assert!(!t(0, 0, 0, 0).valid());
    assert!(!t(1, -1, 1, 1).valid());
}

#[test]
fn a_unit_shear_passes_the_determinant_test() {
    assert!(t(1, 0, 1, 1).valid());
}
