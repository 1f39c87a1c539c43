use gdsverify::geometry::{Bbox, GeometryStore};
use gdsverify::io::params::LayerTable;
use gdsverify::lvs::derived::{evaluate_derived_layers, subtract_bbox, DerivedLayerOp, DerivedLayerSchema};

fn table(names: &[&str]) -> LayerTable {
    let mut lt = LayerTable::empty();
    for (i, n) in names.iter().enumerate() {
        lt.id_to_name.push((*n).to_string());
        lt.id_to_gds.push((i as i32, 0));
    }
    lt
}

fn id_of(ids: &[(String, u32)], name: &str) -> u32 {
    ids.iter().rev().find(|(n, _)| n == name).unwrap().1
}

#[test]
fn and_intersection() {
    let mut store = GeometryStore::new();
    let la: u32 = 0;
    let lb: u32 = 1;
    store.add_rect(la, 0, 0, 100, 100);
    store.add_rect(lb, 50, 50, 100, 100);

    let lt = table(&["a", "b"]);

    let derived = vec![DerivedLayerSchema {
        name: "ab".into(),
        op: DerivedLayerOp::And(vec!["a".into(), "b".into()]),
    }];
    let ids = evaluate_derived_layers(&mut store, &lt, &derived);
    let ab_id = id_of(&ids, "ab");
    let ab_polys: Vec<_> = store.polys_on_layer(ab_id);
    assert_eq!(ab_polys.len(), 1);
    let bb = store.poly_bbox[ab_polys[0]];
    assert_eq!((bb.xmin, bb.ymin, bb.xmax, bb.ymax), (50, 50, 100, 100));
}

#[test]
fn subtract_removes_overlap() {
    let base = Bbox { xmin: 0, ymin: 0, xmax: 100, ymax: 100 };
    let minus = vec![Bbox { xmin: 25, ymin: 25, xmax: 75, ymax: 75 }];
    let r = subtract_bbox(base, &minus);
    assert_eq!(r.len(), 4); // top, bottom, left, right strips
    let total_area: i64 = r.iter().map(|b| b.width() as i64 * b.height() as i64).sum();
    assert_eq!(total_area, 100 * 100 - 50 * 50);
}

#[test]
fn subtract_without_overlap_keeps_base() {
    let base = Bbox { xmin: 0, ymin: 0, xmax: 10, ymax: 10 };
    let minus = vec![Bbox { xmin: 10, ymin: 0, xmax: 20, ymax: 10 }];
    let r = subtract_bbox(base, &minus);
    assert_eq!(r, vec![base]);
}

#[test]
fn subtract_points_are_exact() {
    let base = Bbox { xmin: 0, ymin: 0, xmax: 100, ymax: 100 };
    let minus = vec![
        Bbox { xmin: 25, ymin: 25, xmax: 75, ymax: 75 },
        Bbox { xmin: -10, ymin: 90, xmax: 40, ymax: 200 },
    ];
    let r = subtract_bbox(base, &minus);
    for x in -5..105 {
        for y in -5..105 {
            let inside = |b: &Bbox| b.xmin <= x && x < b.xmax && b.ymin <= y && y < b.ymax;
            let expected = inside(&base) && !minus.iter().any(|m| inside(m));
            let got = r.iter().filter(|b| inside(b)).count();
            assert_eq!(got, usize::from(expected), "point ({x}, {y})");
        }
    }
}

#[test]
fn subtract_and_or_derived_layers() {
    let mut store = GeometryStore::new();
    store.add_rect(0, 0, 0, 100, 100);
    store.add_rect(1, 25, 25, 50, 50);
    let lt = table(&["a", "b"]);
    let derived = vec![
        DerivedLayerSchema {
            name: "a_minus_b".into(),
            op: DerivedLayerOp::Subtract { base: "a".into(), minus: "b".into() },
        },
        DerivedLayerSchema {
            name: "any".into(),
            op: DerivedLayerOp::Or(vec!["b".into(), "missing".into(), "a_minus_b".into()]),
        },
    ];
    let ids = evaluate_derived_layers(&mut store, &lt, &derived);
    assert_eq!(ids, vec![("a_minus_b".to_string(), 2), ("any".to_string(), 3)]);
    assert_eq!(store.polys_on_layer(2).len(), 4);
    // one box from b and the four strips
    assert_eq!(store.polys_on_layer(3).len(), 5);
    let first = store.poly_bbox[store.polys_on_layer(3)[0]];
    assert_eq!(first, Bbox { xmin: 25, ymin: 25, xmax: 75, ymax: 75 });
}

#[test]
fn and_with_no_overlap_adds_nothing() {
    let mut store = GeometryStore::new();
    store.add_rect(0, 0, 0, 10, 10);
    store.add_rect(1, 20, 20, 10, 10);
    let lt = table(&["a", "b"]);
    let derived = vec![DerivedLayerSchema {
        name: "ab".into(),
        op: DerivedLayerOp::And(vec!["a".into(), "b".into()]),
    }];
    let ids = evaluate_derived_layers(&mut store, &lt, &derived);
    assert!(store.polys_on_layer(id_of(&ids, "ab")).is_empty());
    assert_eq!(store.poly_count(), 2);
}
