use gdsverify::geometry::{Bbox, GeometryStore, Point};
use gdsverify::io::params::{ConnectivityConfig, Deck, DeviceConfig, LayerDef, LayerTable, MosRule};
use gdsverify::lvs::extract::{extract_netlist, extract_netlist_opts};
use gdsverify::lvs::types::{DeviceFlavor, DeviceKind, ExtractOpts, PropertyTolerance};

const POLY: u32 = 0;
const DIFF: u32 = 1;
const NIMP: u32 = 2;
const METAL: u32 = 3;

fn nmos_rule(device_type: &str) -> MosRule {
    MosRule {
        name: "n".to_string(),
        gate_layer: POLY,
        channel_layer: DIFF,
        type_implant: NIMP,
        device_type: device_type.to_string(),
        flavor_markers: vec![],
        well_layer: None,
        device_class: None,
    }
}

/// Layers `poly`, `diff`, `nimp` and `metal` with ids 0 to 3.
fn table() -> LayerTable {
    let defs: Vec<(String, LayerDef)> = ["poly", "diff", "nimp", "metal"]
        .iter()
        .enumerate()
        .map(|(i, n)| (n.to_string(), LayerDef { layer: i as i32 + 1, datatype: 0 }))
        .collect();
    LayerTable::from_defs(&defs)
}

fn deck(conductors: Vec<u32>, mos: Vec<MosRule>, global_nets: Vec<String>) -> Deck {
    let mut devices = DeviceConfig::new();
    devices.mos_rules = mos;
    Deck {
        layers: table(),
        lvs_cut_required: false,
        strict: false,
        connectivity: ConnectivityConfig { conductors, vias: vec![] },
        devices,
        w_tolerance: PropertyTolerance::new(),
        l_tolerance: PropertyTolerance::new(),
        fail_on_floating: false,
        intra_layer_touch: false,
        global_nets,
    }
}

/// A diffusion strip crossed by one vertical poly gate, under an n implant.
fn single_nmos() -> GeometryStore {
    let mut s = GeometryStore::new();
    s.add_rect(DIFF, 0, 0, 100, 40);
    s.add_rect(POLY, 40, -10, 20, 60);
    s.add_rect(NIMP, -10, -20, 130, 100);
    s
}

#[test]
fn one_gate_over_diffusion_gives_one_transistor() {
    let store = single_nmos();
    let d = deck(vec![POLY, DIFF], vec![nmos_rule("nmos")], vec![]);
    let (ext, passives) = extract_netlist_opts(&store, &vec![], &d, &ExtractOpts::new()).unwrap();
    assert!(passives.is_empty());
    assert_eq!(ext.net_count, 3);
    assert_eq!(ext.devices.len(), 1);
    let m = &ext.devices[0];
    assert_eq!(m.kind, DeviceKind::Nmos);
    assert_eq!(m.flavor, DeviceFlavor::Standard);
    assert_eq!((m.gate, m.source, m.drain, m.body), (0, 1, 2, 0));
    assert_eq!((m.w, m.l), (40, 20));
    assert_eq!(ext.used_nets, 3);
    assert_eq!(ext.net_of_poly, vec![1, 0, u32::MAX]);
    assert!(ext.device_sources.is_empty());
    assert!(ext.floating_nets.is_empty());
    assert!(ext.label_conflicts.is_empty());
}

#[test]
fn extraction_without_conductors_is_refused() {
    let store = single_nmos();
    let d = deck(vec![], vec![nmos_rule("nmos")], vec![]);
    let err = extract_netlist(&store, &vec![], &d).unwrap_err();
    assert_eq!(err, "no conductors configured in connectivity schema");
}

#[test]
fn unknown_device_type_stops_extraction() {
    let store = single_nmos();
    let d = deck(vec![POLY, DIFF], vec![nmos_rule("bogus")], vec![]);
    let err = extract_netlist(&store, &vec![], &d).unwrap_err();
    assert_eq!(err, "MOS rule 'n' has unsupported device type 'bogus' during extraction");
}

#[test]
fn global_labels_merge_and_conflicting_labels_are_reported() {
    let mut store = GeometryStore::new();
    store.add_rect(METAL, 0, 0, 10, 10);
    store.add_rect(METAL, 100, 0, 10, 10);
    store.add_rect(METAL, 200, 0, 10, 10);
    store.add_rect(METAL, 205, 0, 10, 10);
    let labels = vec![(0, "VDD".to_string()), (1, "VDD".to_string()), (2, "A".to_string()), (3, "B".to_string())];
    let d = deck(vec![METAL], vec![], vec!["VDD".to_string()]);
    let (ext, _) = extract_netlist(&store, &labels, &d).unwrap();
    assert_eq!(ext.net_count, 3);
    assert_eq!(ext.net_of_poly, vec![0, 0, 2, 2]);
    assert_eq!(ext.label_conflicts, vec!["net 2 has conflicting labels: 'A' vs 'B'".to_string()]);
    let floating: Vec<(u32, Option<String>, usize)> =
        ext.floating_nets.iter().map(|f| (f.net_id, f.label.clone(), f.polygon_count)).collect();
    assert_eq!(floating, vec![(0, Some("VDD".to_string()), 2), (2, Some("A".to_string()), 2)]);
}

#[test]
fn a_slanted_polygon_on_a_conductor_layer_stops_extraction() {
    let mut store = GeometryStore::new();
    store.add_rect(METAL, 0, 0, 10, 10);
    store.poly_layer.push(METAL);
    store.poly_bbox.push(Bbox { xmin: 20, ymin: 0, xmax: 32, ymax: 10 });
    store.poly_ring.push(vec![
        Point { x: 20, y: 0 },
        Point { x: 30, y: 0 },
        Point { x: 32, y: 10 },
        Point { x: 20, y: 10 },
    ]);
    let d = deck(vec![METAL], vec![], vec![]);
    let err = extract_netlist(&store, &vec![], &d).unwrap_err();
    assert_eq!(err, "polygon 1 on 'metal' is non-rectilinear; exact all-angle LVS geometry is not implemented");
}

#[test]
fn a_three_vertex_polygon_is_refused_before_its_angles() {
    let mut store = GeometryStore::new();
    store.poly_layer.push(METAL);
    store.poly_bbox.push(Bbox { xmin: 0, ymin: 0, xmax: 10, ymax: 10 });
    store.poly_ring.push(vec![Point { x: 0, y: 0 }, Point { x: 10, y: 0 }, Point { x: 0, y: 10 }]);
    let d = deck(vec![METAL], vec![], vec![]);
    let err = extract_netlist(&store, &vec![], &d).unwrap_err();
    assert_eq!(err, "polygon 0 on 'metal' has fewer than four vertices; exact rectilinear LVS cannot process it");
}
