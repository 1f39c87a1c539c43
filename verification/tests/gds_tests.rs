use gdsverify::geometry::Point;
use gdsverify::io::read::gds::{
    decode_records, GdsArrayReference, GdsBoundary, GdsBoxElement, GdsElement, GdsElementMeta, GdsEnvelope,
    GdsLibrary, GdsNode, GdsPath, GdsProperty, GdsReadMode, GdsReference, GdsStructure, GdsText, GdsTransform,
    GdsUnits, LayoutErrorKind, BGNSTR, BOUNDARY, DATATYPE, DT_ASCII, DT_I16, DT_I32, DT_NONE, ENDEL, ENDLIB, ENDSTR,
    HEADER, LAYER, STRNAME, XY,
};
use gdsverify::io::read::library::read_gds_library;
use gdsverify::io::read::stroke::stroke_path;
use gdsverify::io::read::writer::write_gds_library;
use gdsverify::io::read::{detect_format, LayoutFormat};

// REAL8 encodings of the values the fixtures use.
const REAL8_1E_3: u64 = 0x3e41_8937_4bc6_a7f0;
const REAL8_1E_9: u64 = 0x3944_b82f_a09b_5a54;
const REAL8_2: u64 = 0x4120_0000_0000_0000;
const REAL8_90: u64 = 0x425a_0000_0000_0000;
const REAL8_HALF: u64 = 0x4080_0000_0000_0000;
const REAL8_270: u64 = 0x4310_e000_0000_0000;

fn p(x: i32, y: i32) -> Point {
    Point { x, y }
}

fn meta(attribute: i16, value: &str) -> GdsElementMeta {
    let mut m = GdsElementMeta::new();
    m.properties.push(GdsProperty { attribute, value: value.to_string() });
    m
}

fn rectangle(x0: i32, y0: i32, x1: i32, y1: i32) -> Vec<Point> {
    vec![p(x0, y0), p(x1, y0), p(x1, y1), p(x0, y1)]
}

fn transform(reflected: bool, magnification: Option<u64>, angle_degrees: Option<u64>) -> GdsTransform {
    let mut t = GdsTransform::identity();
    t.reflected = reflected;
    t.magnification = magnification;
    t.angle_degrees = angle_degrees;
    t
}

fn complete_library(structures: Vec<GdsStructure>) -> GdsLibrary {
    GdsLibrary {
        version: 600,
        timestamps: [1, 2, 3, 4, 5, 6, 7, 8, 9, 10, 11, 12],
        name: "lossless library ".to_string(),
        units: GdsUnits { user_units_per_database_unit: REAL8_1E_3, meters_per_database_unit: REAL8_1E_9 },
        structures,
        unhandled_records: Vec::new(),
        envelope: GdsEnvelope::complete(),
    }
}

fn structure(name: &str, elements: Vec<GdsElement>) -> GdsStructure {
    GdsStructure { timestamps: [0; 12], name: name.to_string(), elements, unhandled_records: Vec::new() }
}

fn boundary() -> GdsElement {
    GdsElement::Boundary(GdsBoundary { layer: 7, datatype: 0, ring: rectangle(0, 0, 10, 20), meta: meta(17, "device property ") })
}

#[test]
fn strict_envelope_and_explicit_compatibility() {
    let library = complete_library(vec![structure("top", vec![boundary()])]);
    let full = write_gds_library(&library).expect("write complete library");
    let parsed = read_gds_library(&full, GdsReadMode::Strict).expect("strict complete library");
    assert_eq!(parsed.name, "lossless library ");
    assert_eq!(parsed.structures[0].name, "top");

    let records = decode_records(&full).unwrap();
    let structure_start = records.iter().find(|r| r.ty == BGNSTR).unwrap().offset;
    let endlib_start = records.iter().find(|r| r.ty == ENDLIB).unwrap().offset;
    let structure_only = &full[structure_start..endlib_start];
    let error = read_gds_library(structure_only, GdsReadMode::Strict).unwrap_err();
    assert_eq!(error.kind, LayoutErrorKind::InvalidOrder);
    let compatible = read_gds_library(structure_only, GdsReadMode::Compatibility).expect("explicit legacy compatibility");
    assert!(!compatible.envelope.units);
    assert!(!compatible.envelope.endlib);
    assert_eq!(compatible.structures.len(), 1);
}

#[test]
fn strict_rejects_zero_area_while_legacy_drc_preserves_and_flags_it() {
    let mut library = complete_library(vec![structure("top", vec![boundary()])]);
    if let GdsElement::Boundary(shape) = &mut library.structures[0].elements[0] {
        shape.ring = rectangle(0, 0, 0, 500);
    }
    let bytes = write_gds_library(&library).expect("lossless writer retains malformed fixture");
    let strict_error = read_gds_library(&bytes, GdsReadMode::Strict).unwrap_err();
    assert_eq!(strict_error.kind, LayoutErrorKind::Malformed);
    assert!(strict_error.message.contains("duplicate consecutive vertex"));
    assert_eq!(strict_error.message, "invalid BOUNDARY ring: duplicate consecutive vertex");
    let compatible = read_gds_library(&bytes, GdsReadMode::Compatibility)
        .expect("compatibility parser retains the closed invalid boundary");
    assert_eq!(compatible.structures[0].elements.len(), 1);
}

#[test]
fn deterministic_supported_record_round_trip() {
    let leaf = structure(
        "leaf",
        vec![
            boundary(),
            GdsElement::Path(GdsPath {
                layer: 7,
                datatype: 0,
                centerline: vec![p(0, 30), p(20, 30), p(20, 50)],
                width: Some(4),
                path_type: Some(4),
                begin_extension: Some(3),
                end_extension: Some(5),
                meta: meta(18, "path"),
            }),
            GdsElement::Box(GdsBoxElement { layer: 7, box_type: 0, ring: rectangle(30, 0, 50, 20), meta: GdsElementMeta::new() }),
            GdsElement::Text(GdsText {
                layer: 7,
                text_type: 9,
                origin: p(5, 5),
                string: "pin name ".to_string(),
                presentation: Some(0x0005),
                path_type: Some(0),
                width: Some(2),
                transform: transform(true, Some(REAL8_2), Some(REAL8_90)),
                meta: meta(19, "text"),
            }),
            GdsElement::Node(GdsNode { layer: 7, node_type: 3, points: vec![p(1, 1), p(2, 2)], meta: meta(20, "node") }),
        ],
    );
    let top = structure(
        "top",
        vec![
            GdsElement::Sref(GdsReference {
                structure: "leaf".to_string(),
                origin: p(100, 200),
                transform: transform(true, Some(REAL8_HALF), Some(REAL8_270)),
                meta: meta(21, "instance"),
            }),
            GdsElement::Aref(GdsArrayReference {
                structure: "leaf".to_string(),
                columns: 3,
                rows: 2,
                origin: p(0, 0),
                column_endpoint: p(300, 0),
                row_endpoint: p(0, 100),
                transform: GdsTransform::identity(),
                meta: meta(22, "array"),
            }),
        ],
    );
    let original = complete_library(vec![leaf, top]);
    let bytes1 = write_gds_library(&original).unwrap();
    let parsed1 = read_gds_library(&bytes1, GdsReadMode::Strict).unwrap();
    let bytes2 = write_gds_library(&parsed1).unwrap();
    let parsed2 = read_gds_library(&bytes2, GdsReadMode::Strict).unwrap();
    assert_eq!(bytes1, bytes2);
    assert_eq!(parsed1, parsed2);
    assert_eq!(parsed1, original);
    let GdsElement::Text(text) = &parsed2.structures[0].elements[3] else {
        panic!("TEXT retained")
    };
    assert_eq!(text.string, "pin name ");
    assert_eq!(text.meta.properties[0].value, "text");
}

#[test]
fn exact_path_semantics_and_unsupported_caps() {
    let base = GdsPath {
        layer: 7,
        datatype: 0,
        centerline: vec![p(0, 0), p(20, 0), p(20, 20)],
        width: Some(4),
        path_type: Some(0),
        begin_extension: None,
        end_extension: None,
        meta: GdsElementMeta::new(),
    };
    let rings = stroke_path(&base).expect("rectilinear flush path");
    assert_eq!(rings.len(), 2);
    assert_eq!(rings[0], rectangle(0, -2, 22, 2));
    assert_eq!(rings[1], rectangle(18, -2, 22, 20));

    let square = GdsPath { path_type: Some(2), ..base.clone() };
    let rings = stroke_path(&square).expect("square cap");
    assert_eq!(rings[0][0].x, -2);
    assert_eq!(rings[1][2].y, 22);

    let custom = GdsPath { path_type: Some(4), begin_extension: Some(3), end_extension: Some(7), ..base.clone() };
    let rings = stroke_path(&custom).expect("custom cap");
    assert_eq!(rings[0][0].x, -3);
    assert_eq!(rings[1][2].y, 27);

    let round = GdsPath { path_type: Some(1), ..base.clone() };
    assert_eq!(stroke_path(&round).unwrap_err().kind, LayoutErrorKind::Unsupported);
    let diagonal = GdsPath { centerline: vec![p(0, 0), p(10, 10)], ..base.clone() };
    assert_eq!(stroke_path(&diagonal).unwrap_err().kind, LayoutErrorKind::Unsupported);
    let half_grid = GdsPath { width: Some(3), ..base };
    assert_eq!(stroke_path(&half_grid).unwrap_err().kind, LayoutErrorKind::NonIntegralTransform);
}

#[test]
fn stroke_rejects_degenerate_and_overflowing_segments() {
    let base = GdsPath {
        layer: 7,
        datatype: 0,
        centerline: vec![p(0, 0), p(10, 0)],
        width: Some(4),
        path_type: Some(4),
        begin_extension: Some(-10),
        end_extension: Some(0),
        meta: GdsElementMeta::new(),
    };
    assert_eq!(stroke_path(&base).unwrap_err().kind, LayoutErrorKind::Malformed);
    let far = GdsPath { centerline: vec![p(i32::MAX - 1, 0), p(i32::MAX, 0)], begin_extension: Some(0), end_extension: Some(5), ..base.clone() };
    assert_eq!(stroke_path(&far).unwrap_err().kind, LayoutErrorKind::ArithmeticOverflow);
    let missing_ext = GdsPath { end_extension: None, ..base.clone() };
    assert_eq!(stroke_path(&missing_ext).unwrap_err().kind, LayoutErrorKind::Malformed);
    let repeated = GdsPath { centerline: vec![p(0, 0), p(0, 0)], begin_extension: Some(0), ..base };
    assert_eq!(stroke_path(&repeated).unwrap_err().kind, LayoutErrorKind::Malformed);
}

fn record(out: &mut Vec<u8>, record: u8, data_type: u8, payload: &[u8]) {
    let len = u16::try_from(payload.len() + 4).unwrap();
    out.extend_from_slice(&len.to_be_bytes());
    out.push(record);
    out.push(data_type);
    out.extend_from_slice(payload);
}

fn no_data(out: &mut Vec<u8>, record_type: u8) {
    record(out, record_type, DT_NONE, &[]);
}

fn i16_record(out: &mut Vec<u8>, record_type: u8, values: &[i16]) {
    let payload: Vec<u8> = values.iter().flat_map(|value| value.to_be_bytes()).collect();
    record(out, record_type, DT_I16, &payload);
}

fn i32_record(out: &mut Vec<u8>, record_type: u8, values: &[i32]) {
    let payload: Vec<u8> = values.iter().flat_map(|value| value.to_be_bytes()).collect();
    record(out, record_type, DT_I32, &payload);
}

fn string_record(out: &mut Vec<u8>, record_type: u8, value: &str) {
    let mut payload = value.as_bytes().to_vec();
    if payload.len() % 2 != 0 {
        payload.push(0);
    }
    record(out, record_type, DT_ASCII, &payload);
}

fn begin_structure(out: &mut Vec<u8>, name: &str) {
    i16_record(out, BGNSTR, &[0; 12]);
    string_record(out, STRNAME, name);
}

fn read_error(bytes: &[u8]) -> String {
    read_gds_library(bytes, GdsReadMode::Compatibility).unwrap_err().to_text()
}

#[test]
fn rejects_truncated_and_invalid_records() {
    let truncated = [0, 8, HEADER, DT_I16, 0, 6];
    let error = read_error(&truncated);
    assert!(error.contains("truncated record"), "{error}");

    let invalid_length = [0, 2, HEADER, DT_I16];
    let error = read_error(&invalid_length);
    assert!(error.contains("invalid record length"), "{error}");

    let mut wrong_type = Vec::new();
    record(&mut wrong_type, HEADER, DT_I32, &[0, 6]);
    let error = read_error(&wrong_type);
    assert!(error.contains("data type"), "{error}");

    let trailing_header = [0u8; 3];
    let error = read_error(&trailing_header);
    assert!(error.contains("truncated record header"), "{error}");
}

#[test]
fn rejects_duplicate_structures_and_missing_endstr() {
    let mut duplicate = Vec::new();
    begin_structure(&mut duplicate, "top");
    no_data(&mut duplicate, ENDSTR);
    begin_structure(&mut duplicate, "top");
    no_data(&mut duplicate, ENDSTR);
    let error = read_error(&duplicate);
    assert!(error.contains("duplicate structure name `top`"), "{error}");

    let mut missing = Vec::new();
    begin_structure(&mut missing, "unfinished");
    let error = read_error(&missing);
    assert!(error.contains("missing ENDSTR"), "{error}");
}

#[test]
fn malformed_record_corpus_never_panics() {
    let corpus = [
        vec![],
        vec![0],
        vec![0, 4, HEADER],
        vec![0, 3, HEADER, DT_NONE],
        vec![0, 8, XY, DT_I32, 0, 0],
        vec![0, 4, ENDLIB, DT_NONE, 0, 4, HEADER, DT_I16],
        vec![0xff; 31],
    ];
    for bytes in corpus {
        assert!(read_gds_library(&bytes, GdsReadMode::Strict).is_err(), "malformed corpus entry was accepted");
    }
}

#[test]
fn record_offsets_and_kinds_are_reported() {
    let mut bytes = Vec::new();
    begin_structure(&mut bytes, "top");
    no_data(&mut bytes, BOUNDARY);
    i16_record(&mut bytes, LAYER, &[7]);
    i16_record(&mut bytes, LAYER, &[8]);
    let error = read_gds_library(&bytes, GdsReadMode::Compatibility).unwrap_err();
    assert_eq!(error.kind, LayoutErrorKind::Duplicate);
    // BGNSTR (28) + STRNAME (8) + BOUNDARY (4) + LAYER (6)
    assert_eq!(error.offset, Some(46));

    let mut unclosed = Vec::new();
    begin_structure(&mut unclosed, "top");
    no_data(&mut unclosed, BOUNDARY);
    i16_record(&mut unclosed, LAYER, &[7]);
    i16_record(&mut unclosed, DATATYPE, &[0]);
    i32_record(&mut unclosed, XY, &[0, 0, 10, 0, 10, 10, 0, 10]);
    no_data(&mut unclosed, ENDEL);
    no_data(&mut unclosed, ENDSTR);
    let error = read_gds_library(&unclosed, GdsReadMode::Compatibility).unwrap_err();
    assert_eq!(error.kind, LayoutErrorKind::Malformed);
}

#[test]
fn compatibility_defaults_for_missing_envelope() {
    let mut bytes = Vec::new();
    begin_structure(&mut bytes, "top");
    no_data(&mut bytes, ENDSTR);
    let lib = read_gds_library(&bytes, GdsReadMode::Compatibility).unwrap();
    assert_eq!(lib.version, 600);
    assert_eq!(lib.timestamps, [0; 12]);
    assert_eq!(lib.name, "");
    assert_eq!(lib.units, GdsUnits { user_units_per_database_unit: REAL8_1E_3, meters_per_database_unit: REAL8_1E_9 });
    assert!(!lib.envelope.header);
}

#[test]
fn detects_oasis_magic() {
    assert_eq!(detect_format(b"%SEMI-OASIS\r\n\x01"), LayoutFormat::Oasis);
    assert_eq!(detect_format(b"%SEMI-OASIS\r"), LayoutFormat::Gds);
    assert_eq!(detect_format(&[0, 6, 0, 2, 2, 88]), LayoutFormat::Gds);
}

#[test]
fn envelope_complete_sets_every_record() {
    let e = GdsEnvelope::complete();
    assert!(e.header && e.bgnlib && e.libname && e.units && e.endlib);
}
