use gdsverify::geometry::{Bbox, GeometryStore};
use gdsverify::lvs::hierarchical::{append_translated, topo_sort, CellInstance, HierCell};
use gdsverify::lvs::types::RefNetlist;
use gdsverify::lvs::LvsCheck;

fn cell(name: &str, children: &[&str]) -> HierCell {
    HierCell {
        name: name.to_string(),
        geometry: GeometryStore::new(),
        instances: children
            .iter()
            .map(|c| CellInstance { cell_name: c.to_string(), dx: 0, dy: 0 })
            .collect(),
        ports: Vec::new(),
    }
}

fn position(order: &[String], name: &str) -> usize {
    order.iter().position(|n| n == name).expect("name listed")
}

#[test]
fn topo_sort_lists_leaves_before_parents() {
    let cells = vec![
        cell("top", &["mid", "mid", "pad"]),
        cell("mid", &["leaf"]),
        cell("leaf", &[]),
    ];
    let order = topo_sort(&cells).expect("acyclic hierarchy");
    assert_eq!(order.len(), 4);
    assert!(position(&order, "leaf") < position(&order, "mid"));
    assert!(position(&order, "mid") < position(&order, "top"));
    assert!(position(&order, "pad") < position(&order, "top"));
    let mut sorted = order.clone();
    sorted.sort();
    sorted.dedup();
    assert_eq!(sorted.len(), 4);
}

#[test]
fn topo_sort_of_flat_cells_lists_each_once() {
    let cells = vec![cell("a", &[]), cell("b", &[])];
    let order = topo_sort(&cells).expect("no instances");
    assert_eq!(order, vec!["a".to_string(), "b".to_string()]);
}

#[test]
fn topo_sort_reports_a_cell_on_a_cycle() {
    let cells = vec![cell("a", &["b"]), cell("b", &["c"]), cell("c", &["a"]), cell("d", &[])];
    let err = topo_sort(&cells).expect_err("cycle a -> b -> c -> a");
    assert!(err == "a" || err == "b" || err == "c", "unexpected {err}");
}

#[test]
fn topo_sort_reports_self_placement() {
    let cells = vec![cell("leaf", &[]), cell("loop", &["leaf", "loop"])];
    assert_eq!(topo_sort(&cells), Err("loop".to_string()));
}

#[test]
fn append_translated_moves_every_box() {
    let mut src = GeometryStore::new();
    src.add_rect(3, 0, 0, 10, 20);
    src.add_rect(5, -5, 2, 1, 1);
    let mut dst = GeometryStore::new();
    dst.add_rect(1, 100, 100, 1, 1);
    append_translated(&mut dst, &src, 7, -3);
    assert_eq!(dst.poly_layer, vec![1, 3, 5]);
    assert_eq!(
        dst.poly_bbox,
        vec![
            Bbox { xmin: 100, ymin: 100, xmax: 101, ymax: 101 },
            Bbox { xmin: 7, ymin: -3, xmax: 17, ymax: 17 },
            Bbox { xmin: 2, ymin: -1, xmax: 3, ymax: 0 },
        ]
    );
}

#[test]
fn lvs_check_is_named_lvs() {
    let check = LvsCheck {
        reference: RefNetlist {
            devices: Vec::new(),
            net_seeds: Vec::new(),
            ref_two_terminal: Vec::new(),
            ref_bjt: Vec::new(),
        },
    };
    assert_eq!(check.id(), "lvs");
}
