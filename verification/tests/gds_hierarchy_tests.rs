use gdsverify::geometry::Point;
use gdsverify::io::read::flatten::{checked_array_coordinate, ensure_meta_supported, exact_pitch};
use gdsverify::io::read::gds::{
    GdsArrayReference, GdsBoundary, GdsElement, GdsElementMeta, GdsEnvelope, GdsLibrary, GdsRawRecord, GdsReference,
    GdsStructure, GdsTransform, GdsUnits, GdsUnsupportedElement, LayoutErrorKind, DT_NONE,
};
use gdsverify::io::read::hierarchy::validate_hierarchy;

fn library(structures: Vec<GdsStructure>) -> GdsLibrary {
    GdsLibrary {
        version: 600,
        timestamps: [0; 12],
        name: "lib".to_string(),
        units: GdsUnits { user_units_per_database_unit: 0x3e41_8937_4bc6_a7f0, meters_per_database_unit: 0x3944_b82f_a09b_5a54 },
        structures,
        unhandled_records: Vec::new(),
        envelope: GdsEnvelope::complete(),
    }
}

fn structure(name: &str, elements: Vec<GdsElement>) -> GdsStructure {
    GdsStructure { timestamps: [0; 12], name: name.to_string(), elements, unhandled_records: Vec::new() }
}

fn sref(target: &str) -> GdsElement {
    GdsElement::Sref(GdsReference {
        structure: target.to_string(),
        origin: Point { x: 0, y: 0 },
        transform: GdsTransform::identity(),
        meta: GdsElementMeta::new(),
    })
}

fn aref(target: &str) -> GdsElement {
    GdsElement::Aref(GdsArrayReference {
        structure: target.to_string(),
        columns: 2,
        rows: 1,
        origin: Point { x: 0, y: 0 },
        column_endpoint: Point { x: 20, y: 0 },
        row_endpoint: Point { x: 0, y: 10 },
        transform: GdsTransform::identity(),
        meta: GdsElementMeta::new(),
    })
}

fn boundary() -> GdsElement {
    GdsElement::Boundary(GdsBoundary {
        layer: 1,
        datatype: 0,
        ring: vec![Point { x: 0, y: 0 }, Point { x: 10, y: 0 }, Point { x: 10, y: 10 }, Point { x: 0, y: 10 }],
        meta: GdsElementMeta::new(),
    })
}

fn raw() -> GdsRawRecord {
    GdsRawRecord { record_type: 0x7f, data_type: DT_NONE, payload: vec![], source_offset: 0 }
}

#[test]
fn nested_references_to_defined_structures_pass() {
    let lib = library(vec![
        structure("leaf", vec![boundary()]),
        structure("mid", vec![sref("leaf"), aref("leaf")]),
        structure("top", vec![sref("mid"), aref("leaf")]),
    ]);
    assert!(validate_hierarchy(&lib).is_ok());
}

#[test]
fn dangling_reference_names_both_structures() {
    let lib = library(vec![structure("top", vec![boundary(), sref("missing")])]);
    let e = validate_hierarchy(&lib).unwrap_err();
    assert_eq!(e.kind, LayoutErrorKind::UndefinedReference);
    assert_eq!(e.offset, None);
    assert_eq!(e.message, "`top` references undefined `missing`");
}

#[test]
fn unhandled_structure_records_come_before_later_faults() {
    let mut odd = structure("odd", vec![]);
    odd.unhandled_records.push(raw());
    let lib = library(vec![odd, structure("top", vec![aref("nowhere")])]);
    let e = validate_hierarchy(&lib).unwrap_err();
    assert_eq!(e.kind, LayoutErrorKind::Unsupported);
    assert_eq!(e.message, "structure `odd` contains unhandled records");
}

#[test]
fn reference_cycle_is_reported_through_its_first_name() {
    let lib = library(vec![structure("a", vec![sref("b")]), structure("b", vec![sref("a")])]);
    let e = validate_hierarchy(&lib).unwrap_err();
    assert_eq!(e.kind, LayoutErrorKind::HierarchyCycle);
    assert_eq!(e.message, "cycle through `a`");
}

#[test]
fn self_reference_is_a_cycle() {
    let lib = library(vec![structure("leaf", vec![boundary()]), structure("loop", vec![aref("loop")])]);
    let e = validate_hierarchy(&lib).unwrap_err();
    assert_eq!(e.kind, LayoutErrorKind::HierarchyCycle);
    assert_eq!(e.message, "cycle through `loop`");
}

#[test]
fn exact_pitch_divides_the_span() {
    assert_eq!(exact_pitch(30, 0, 3, "column").unwrap(), 10);
    assert_eq!(exact_pitch(-30, 0, 3, "row").unwrap(), -10);
    assert_eq!(exact_pitch(5, 5, 4, "row").unwrap(), 0);
}

#[test]
fn exact_pitch_rejects_a_remainder() {
    let e = exact_pitch(10, 0, 3, "column").unwrap_err();
    assert_eq!(e.kind, LayoutErrorKind::NonIntegralTransform);
    assert_eq!(e.message, "AREF column pitch 10/3 is non-integral");
    let e = exact_pitch(-7, 0, 2, "row").unwrap_err();
    assert_eq!(e.message, "AREF row pitch -7/2 is non-integral");
}

#[test]
fn exact_pitch_rejects_a_pitch_outside_i32() {
    let e = exact_pitch(i32::MAX, -1, 1, "column").unwrap_err();
    assert_eq!(e.kind, LayoutErrorKind::ArithmeticOverflow);
    assert_eq!(e.message, "AREF pitch outside i32");
    assert_eq!(exact_pitch(i32::MIN, 0, 1, "row").unwrap(), i32::MIN);
}

#[test]
fn array_coordinate_adds_both_steps() {
    assert_eq!(checked_array_coordinate(100, 20, 3, -5, 2).unwrap(), 150);
    assert_eq!(checked_array_coordinate(0, i32::MAX, 1, 0, 7).unwrap(), i32::MAX);
    let e = checked_array_coordinate(i32::MAX, 1, 1, 0, 0).unwrap_err();
    assert_eq!(e.kind, LayoutErrorKind::ArithmeticOverflow);
    assert_eq!(e.message, "AREF origin outside i32");
    assert!(checked_array_coordinate(0, i32::MIN, 65535, i32::MIN, 65535).is_err());
}

#[test]
fn meta_with_unhandled_records_is_refused() {
    let mut meta = GdsElementMeta::new();
    assert!(ensure_meta_supported(&meta, "SREF").is_ok());
    meta.unhandled_records.push(raw());
    let e = ensure_meta_supported(&meta, "SREF").unwrap_err();
    assert_eq!(e.kind, LayoutErrorKind::Unsupported);
    assert_eq!(e.message, "SREF contains unhandled records");
}

#[test]
fn element_meta_is_absent_only_for_unsupported_elements() {
    let mut m = GdsElementMeta::new();
    m.plex = Some(7);
    let e = GdsElement::Sref(GdsReference {
        structure: "leaf".to_string(),
        origin: Point { x: 0, y: 0 },
        transform: GdsTransform::identity(),
        meta: m,
    });
    assert_eq!(e.meta().unwrap().plex, Some(7));
    assert!(boundary().meta().is_some());
    let u = GdsElement::Unsupported(GdsUnsupportedElement { start_record: raw(), records: vec![raw()] });
    assert!(u.meta().is_none());
}
