use gdsverify::geometry::GeometryStore;
use gdsverify::io::params::{BjtRule, CapRule, ConnectivityConfig, DeviceConfig, DiodeRule, MosRule, ResistorRule};
use gdsverify::lvs::recognize::{extract_bjt_devices, extract_two_terminal_devices, resolve_connectivity};
use gdsverify::lvs::types::{DeviceKind, TwoTerminalKind};

fn bjt_rule(device_type: &str) -> BjtRule {
    BjtRule {
        name: "q1".to_string(),
        collector_layer: 12,
        base_layer: 11,
        emitter_layer: 10,
        type_marker: 13,
        device_type: device_type.to_string(),
    }
}

/// Emitter (0) inside base (1) inside collector (2), with a type marker (3).
fn bjt_store(marker: bool) -> GeometryStore {
    let mut s = GeometryStore::new();
    s.add_rect(10, 40, 40, 20, 20);
    s.add_rect(11, 20, 20, 60, 60);
    s.add_rect(12, 0, 0, 100, 100);
    if marker {
        s.add_rect(13, 30, 30, 40, 40);
    }
    s
}

fn with_bjt(rules: Vec<BjtRule>) -> DeviceConfig {
    let mut d = DeviceConfig::new();
    d.bjt_rules = rules;
    d
}

#[test]
fn stacked_emitter_base_collector_is_one_transistor() {
    let s = bjt_store(true);
    let out = extract_bjt_devices(&s, &with_bjt(vec![bjt_rule("npn")]), &vec![7, 8, 9, 5]);
    assert_eq!(out.len(), 1);
    assert_eq!(out[0].kind, DeviceKind::Npn);
    assert_eq!((out[0].emitter, out[0].base, out[0].collector), (7, 8, 9));
    assert_eq!(out[0].name, "q1");
}

#[test]
fn pnp_rule_gives_pnp_and_other_names_give_npn() {
    let s = bjt_store(true);
    let out = extract_bjt_devices(&s, &with_bjt(vec![bjt_rule("pnp"), bjt_rule("vertical")]), &vec![7, 8, 9, 5]);
    assert_eq!(out.len(), 2);
    assert_eq!(out[0].kind, DeviceKind::Pnp);
    assert_eq!(out[1].kind, DeviceKind::Npn);
}

#[test]
fn transistor_needs_its_type_marker() {
    let s = bjt_store(false);
    assert!(extract_bjt_devices(&s, &with_bjt(vec![bjt_rule("npn")]), &vec![7, 8, 9]).is_empty());
}

#[test]
fn transistor_terminal_without_a_net_is_skipped() {
    let s = bjt_store(true);
    assert!(extract_bjt_devices(&s, &with_bjt(vec![bjt_rule("npn")]), &vec![7, u32::MAX, 9, 5]).is_empty());
}

fn resistor_rule() -> ResistorRule {
    ResistorRule { name: "rpoly".to_string(), body_layer: 20, marker_layer: 21, terminal_layer: 22 }
}

/// A wide body (0) under a marker (1), with terminals at x 0..10 (2),
/// 40..50 (3) and 90..100 (4).
fn resistor_store() -> GeometryStore {
    let mut s = GeometryStore::new();
    s.add_rect(20, 0, 0, 100, 10);
    s.add_rect(21, -5, -5, 110, 20);
    s.add_rect(22, 0, 0, 10, 10);
    s.add_rect(22, 40, 0, 10, 10);
    s.add_rect(22, 90, 0, 10, 10);
    s
}

#[test]
fn resistor_runs_between_its_outermost_terminals() {
    let s = resistor_store();
    let mut d = DeviceConfig::new();
    d.resistor_rules = vec![resistor_rule()];
    let out = extract_two_terminal_devices(&s, &d, &vec![0, 0, 3, 4, 5]);
    assert_eq!(out.len(), 1);
    let r = &out[0];
    assert_eq!(r.kind, TwoTerminalKind::Resistor);
    assert_eq!((r.terminal_a, r.terminal_b), (3, 5));
    assert_eq!((r.layer, r.length, r.width, r.area), (20, 100, 10, 0));
    assert_eq!(r.name, "rpoly");
}

#[test]
fn tall_resistor_orders_terminals_by_y() {
    let mut s = GeometryStore::new();
    s.add_rect(20, 0, 0, 10, 100);
    s.add_rect(21, 0, 0, 10, 100);
    s.add_rect(22, 0, 90, 10, 10);
    s.add_rect(22, 0, 0, 10, 10);
    let mut d = DeviceConfig::new();
    d.resistor_rules = vec![resistor_rule()];
    let out = extract_two_terminal_devices(&s, &d, &vec![0, 0, 6, 2]);
    assert_eq!(out.len(), 1);
    assert_eq!((out[0].terminal_a, out[0].terminal_b), (2, 6));
    assert_eq!((out[0].length, out[0].width), (100, 10));
}

#[test]
fn resistor_over_a_gate_is_a_transistor_not_a_resistor() {
    let mut s = resistor_store();
    s.add_rect(1, 45, -10, 5, 30);
    let mut d = DeviceConfig::new();
    d.resistor_rules = vec![resistor_rule()];
    d.mos_rules = vec![MosRule {
        name: "n".to_string(),
        gate_layer: 1,
        channel_layer: 2,
        type_implant: 3,
        device_type: "nmos".to_string(),
        flavor_markers: vec![],
        well_layer: None,
        device_class: None,
    }];
    assert!(extract_two_terminal_devices(&s, &d, &vec![0, 0, 3, 4, 5, 0]).is_empty());
}

#[test]
fn resistor_needs_a_marker_and_two_terminals() {
    let mut s = GeometryStore::new();
    s.add_rect(20, 0, 0, 100, 10);
    s.add_rect(22, 0, 0, 10, 10);
    s.add_rect(22, 90, 0, 10, 10);
    let mut d = DeviceConfig::new();
    d.resistor_rules = vec![resistor_rule()];
    assert!(extract_two_terminal_devices(&s, &d, &vec![0, 1, 2]).is_empty());
    s.add_rect(21, 0, 0, 100, 10);
    assert_eq!(extract_two_terminal_devices(&s, &d, &vec![0, 1, 2, 0]).len(), 1);
    assert!(extract_two_terminal_devices(&s, &d, &vec![0, 1, u32::MAX, 0]).is_empty());
}

#[test]
fn diode_needs_overlap_and_implant() {
    let mut s = GeometryStore::new();
    s.add_rect(30, 0, 0, 10, 10);
    s.add_rect(31, 5, 5, 10, 10);
    let mut d = DeviceConfig::new();
    d.diode_rules = vec![DiodeRule { name: "d1".to_string(), anode_layer: 30, cathode_layer: 31, implant_layer: 32 }];
    assert!(extract_two_terminal_devices(&s, &d, &vec![1, 2]).is_empty());
    s.add_rect(32, 0, 0, 20, 20);
    let out = extract_two_terminal_devices(&s, &d, &vec![1, 2, 0]);
    assert_eq!(out.len(), 1);
    assert_eq!(out[0].kind, TwoTerminalKind::Diode);
    assert_eq!((out[0].terminal_a, out[0].terminal_b), (1, 2));
}

#[test]
fn capacitor_carries_the_plates_shared_area() {
    let mut s = GeometryStore::new();
    s.add_rect(40, 0, 0, 10, 10);
    s.add_rect(41, 5, 0, 20, 4);
    let mut d = DeviceConfig::new();
    d.cap_rules = vec![CapRule { name: "c1".to_string(), top_layer: 40, bottom_layer: 41, marker_layer: None }];
    let out = extract_two_terminal_devices(&s, &d, &vec![4, 9]);
    assert_eq!(out.len(), 1);
    assert_eq!(out[0].kind, TwoTerminalKind::Capacitor);
    assert_eq!((out[0].terminal_a, out[0].terminal_b, out[0].layer, out[0].area), (4, 9, 40, 20));
}

#[test]
fn marked_capacitor_needs_its_marker() {
    let mut s = GeometryStore::new();
    s.add_rect(40, 0, 0, 10, 10);
    s.add_rect(41, 0, 0, 10, 10);
    let mut d = DeviceConfig::new();
    d.cap_rules = vec![CapRule { name: "c1".to_string(), top_layer: 40, bottom_layer: 41, marker_layer: Some(42) }];
    assert!(extract_two_terminal_devices(&s, &d, &vec![4, 9]).is_empty());
    s.add_rect(42, 2, 2, 2, 2);
    assert_eq!(extract_two_terminal_devices(&s, &d, &vec![4, 9, 0]).len(), 1);
}

#[test]
fn passives_come_out_resistors_then_diodes_then_capacitors() {
    let mut s = GeometryStore::new();
    s.add_rect(40, 0, 0, 10, 10);
    s.add_rect(41, 0, 0, 10, 10);
    s.add_rect(30, 20, 0, 10, 10);
    s.add_rect(31, 20, 0, 10, 10);
    s.add_rect(32, 20, 0, 10, 10);
    s.add_rect(20, 40, 0, 100, 10);
    s.add_rect(21, 40, 0, 100, 10);
    s.add_rect(22, 40, 0, 10, 10);
    s.add_rect(22, 130, 0, 10, 10);
    let mut d = DeviceConfig::new();
    d.cap_rules = vec![CapRule { name: "c".to_string(), top_layer: 40, bottom_layer: 41, marker_layer: None }];
    d.diode_rules = vec![DiodeRule { name: "d".to_string(), anode_layer: 30, cathode_layer: 31, implant_layer: 32 }];
    d.resistor_rules = vec![resistor_rule()];
    let out = extract_two_terminal_devices(&s, &d, &vec![1, 2, 3, 4, 0, 0, 0, 5, 6]);
    let kinds: Vec<TwoTerminalKind> = out.iter().map(|p| p.kind).collect();
    assert_eq!(kinds, vec![TwoTerminalKind::Resistor, TwoTerminalKind::Diode, TwoTerminalKind::Capacitor]);
}

#[test]
fn connectivity_needs_conductors() {
    let empty = ConnectivityConfig { conductors: vec![], vias: vec![(5, vec![1, 2])] };
    assert_eq!(resolve_connectivity(&empty).unwrap_err(), "no conductors configured in connectivity schema");
    let c = ConnectivityConfig { conductors: vec![1, 2], vias: vec![(5, vec![1, 2]), (6, vec![2])] };
    assert_eq!(resolve_connectivity(&c).unwrap(), (vec![1, 2], vec![5, 6]));
}
