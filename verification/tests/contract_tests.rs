use gdsverify::geometry::{GeometryStore, Point};
use gdsverify::io::params::LayerTable;
use gdsverify::io::read::gds::{GdsElementMeta, GdsPath, LayoutErrorKind};
use gdsverify::io::read::stroke::stroke_path;
use gdsverify::lvs::derived::{evaluate_derived_layers, DerivedLayerOp, DerivedLayerSchema};
use gdsverify::lvs::detailed_extract::DetailedExtractionOptions;
use gdsverify::lvs::gds_adapter::{export_w3_drc_hierarchy_context, GdsHierarchyAdapterErrorKind, GdsHierarchyProvenance};

fn p(x: i32, y: i32) -> Point {
    Point { x, y }
}

fn path(centerline: Vec<Point>, width: i32, path_type: i16) -> GdsPath {
    GdsPath {
        layer: 1,
        datatype: 0,
        centerline,
        width: Some(width),
        path_type: Some(path_type),
        begin_extension: None,
        end_extension: None,
        meta: GdsElementMeta::new(),
    }
}

#[test]
fn stroke_messages_name_the_offending_value() {
    let odd = stroke_path(&path(vec![p(0, 0), p(10, 0)], 3, 0)).unwrap_err();
    assert_eq!(odd.kind, LayoutErrorKind::NonIntegralTransform);
    assert_eq!(odd.message, "PATH width 3 requires half-grid edges");

    let other_type = stroke_path(&path(vec![p(0, 0), p(10, 0)], 4, 3)).unwrap_err();
    assert_eq!(other_type.kind, LayoutErrorKind::Unsupported);
    assert_eq!(other_type.message, "PATHTYPE 3");

    let repeated = stroke_path(&path(vec![p(0, 0), p(10, 0), p(10, 0)], 4, 0)).unwrap_err();
    assert_eq!(repeated.kind, LayoutErrorKind::Malformed);
    assert_eq!(repeated.message, "PATH has zero-length segment 1");

    let diagonal = stroke_path(&path(vec![p(0, 0), p(10, 0), p(20, 12)], 4, 0)).unwrap_err();
    assert_eq!(diagonal.kind, LayoutErrorKind::Unsupported);
    assert_eq!(diagonal.message, "diagonal PATH segment 1 is retained but exact stroking is not implemented");

    let round = stroke_path(&path(vec![p(0, 0), p(10, 0)], 4, 1)).unwrap_err();
    assert_eq!(round.message, "round-cap PATHTYPE 1 cannot be represented by exact integer polygons");
}

#[test]
fn derived_polygons_are_rectangles_and_existing_rings_stay() {
    let mut lt = LayerTable::empty();
    lt.id_to_name.push("a".to_string());
    lt.id_to_gds.push((0, 0));
    let mut store = GeometryStore::new();
    store.add_rect(0, 0, 0, 30, 20);
    let before = store.poly_ring[0].clone();
    let derived = vec![DerivedLayerSchema { name: "copy".into(), op: DerivedLayerOp::Or(vec!["a".into()]) }];
    let ids = evaluate_derived_layers(&mut store, &lt, &derived);
    assert_eq!(ids[0].1, 1);
    assert_eq!(store.poly_ring.len(), 2);
    assert_eq!(store.poly_ring[0], before);
    assert_eq!(store.poly_ring[1], vec![p(0, 0), p(30, 0), p(30, 20), p(0, 20)]);
    assert_eq!(store.poly_layer[1], 1);
}

#[test]
fn detailed_extraction_defaults() {
    let o = DetailedExtractionOptions::new();
    assert_eq!(o.cell_name, "TOP");
    assert!(o.ports.is_empty() && o.globals.is_empty() && o.soft_connections.is_empty());
    assert!(o.require_all_text_attached);
    assert!(!o.allow_multiple_labels_per_net);
    assert_eq!(o.default_substrate_net, None);
    assert!(!o.extract.cut_required);
}

#[test]
fn drc_context_export_is_unsupported() {
    let provenance = GdsHierarchyProvenance::new();
    let e = export_w3_drc_hierarchy_context("TOP", &provenance).unwrap_err();
    assert_eq!(e.kind, GdsHierarchyAdapterErrorKind::Unsupported);
    assert_eq!(e.structure, "TOP");
    assert_eq!(
        e.message,
        "W3 DRC hierarchy/context consumer is absent in this integration base; 0 stable GDS paths remain available in provenance"
    );
}

#[test]
fn and_meets_every_overlapping_box_of_each_layer() {
    let mut lt = LayerTable::empty();
    lt.id_to_name.push("a".to_string());
    lt.id_to_gds.push((0, 0));
    lt.id_to_name.push("b".to_string());
    lt.id_to_gds.push((1, 0));
    let mut store = GeometryStore::new();
    store.add_rect(0, 0, 0, 100, 10);
    store.add_rect(1, 10, 0, 10, 10);
    store.add_rect(1, 60, 0, 20, 10);
    let derived = vec![DerivedLayerSchema { name: "ab".into(), op: DerivedLayerOp::And(vec!["a".into(), "b".into()]) }];
    let ids = evaluate_derived_layers(&mut store, &lt, &derived);
    let ab = store.polys_on_layer(ids[0].1);
    assert_eq!(ab.len(), 2);
    let b0 = store.poly_bbox[ab[0]];
    let b1 = store.poly_bbox[ab[1]];
    assert_eq!((b0.xmin, b0.ymin, b0.xmax, b0.ymax), (10, 0, 20, 10));
    assert_eq!((b1.xmin, b1.ymin, b1.xmax, b1.ymax), (60, 0, 80, 10));
}
