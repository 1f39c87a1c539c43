use std::collections::BTreeSet;

use gdsverify::geometry::Point;
use gdsverify::io::read::gds::{GdsArrayReference, GdsElementMeta, GdsTransform};
use gdsverify::lvs::gds_adapter::{
    array_for, cell_path, element_path, evidence_rule, source_id, source_path, GdsHierarchyAdapterError,
    GdsHierarchyAdapterErrorKind, GdsTextEvidenceRule,
};
use gdsverify::lvs::types::HierarchyPath;

fn path(steps: &[&str]) -> HierarchyPath {
    HierarchyPath(steps.iter().map(|s| s.to_string()).collect())
}

#[test]
fn paths_and_ids_name_structure_element_and_part() {
    assert_eq!(cell_path("top"), path(&["gds:top"]));
    assert_eq!(element_path("top", 12), path(&["gds:top", "E12"]));
    assert_eq!(source_path("top", 12, 0), path(&["gds:top", "E12"]));
    assert_eq!(source_path("top", 12, 3), path(&["gds:top", "E12", "P3"]));
    assert_eq!(source_id("top", 12, 0), "gds:top:E12");
    assert_eq!(source_id("top", 12, 3), "gds:top:E12:P3");
}

#[test]
fn element_errors_carry_their_location() {
    let e = GdsHierarchyAdapterError::element(GdsHierarchyAdapterErrorKind::Unsupported, "inv", 4, "bad".to_string());
    assert_eq!(e.structure, "inv");
    assert_eq!(e.element_index, Some(4));
    assert_eq!(e.hierarchy_path, path(&["gds:inv", "E4"]));
    let c = GdsHierarchyAdapterError::cell(GdsHierarchyAdapterErrorKind::UndefinedCell, "inv", "gone".to_string());
    assert_eq!(c.element_index, None);
    assert_eq!(c.hierarchy_path, path(&["gds:inv"]));
    assert_eq!(c.message, "gone");
}

fn rule(layer: i16, datatype: i16, use_string: bool) -> GdsTextEvidenceRule {
    GdsTextEvidenceRule { layer, datatype, use_string, label_property_attributes: BTreeSet::new() }
}

#[test]
fn evidence_rule_is_the_first_for_the_layer_pair() {
    let rules = vec![rule(1, 0, false), rule(2, 5, true), rule(2, 5, false)];
    assert_eq!(evidence_rule(&rules, 2, 5), Some(&rules[1]));
    assert_eq!(evidence_rule(&rules, 2, 6), None);
}

fn aref(columns: u16, rows: u16, column_end: (i32, i32), row_end: (i32, i32)) -> GdsArrayReference {
    GdsArrayReference {
        structure: "cell".to_string(),
        columns,
        rows,
        origin: Point { x: 10, y: 20 },
        column_endpoint: Point { x: column_end.0, y: column_end.1 },
        row_endpoint: Point { x: row_end.0, y: row_end.1 },
        transform: GdsTransform::identity(),
        meta: GdsElementMeta::new(),
    }
}

#[test]
fn array_steps_divide_the_endpoint_spans() {
    let a = array_for("top", 2, &aref(4, 3, (50, 20), (10, -10))).unwrap();
    assert_eq!((a.columns, a.rows), (4, 3));
    assert_eq!(a.column_step, (10, 0));
    assert_eq!(a.row_step, (0, -10));
}

#[test]
fn empty_array_is_conflicting_evidence() {
    let e = array_for("top", 2, &aref(0, 3, (50, 20), (10, -10))).unwrap_err();
    assert_eq!(e.kind, GdsHierarchyAdapterErrorKind::ConflictingEvidence);
    assert_eq!(e.message, "AREF dimensions must be positive, got 0 columns x 3 rows");
    assert_eq!(e.hierarchy_path, path(&["gds:top", "E2"]));
}

#[test]
fn uneven_array_pitch_is_unsupported() {
    let e = array_for("top", 2, &aref(4, 3, (51, 20), (10, -10))).unwrap_err();
    assert_eq!(e.kind, GdsHierarchyAdapterErrorKind::Unsupported);
    assert_eq!(e.message, "GDS: AREF column x pitch 41/4 is non-integral");
}
