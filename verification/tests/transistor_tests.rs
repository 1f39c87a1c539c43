use gdsverify::geometry::GeometryStore;
use gdsverify::io::params::MosRule;
use gdsverify::lvs::channel::split_channel;
use gdsverify::lvs::transistors::mos_devices_of_split;
use gdsverify::lvs::types::{DeviceFlavor, DeviceKind};

const POLY: u32 = 1;
const DIFF: u32 = 2;
const NIMP: u32 = 3;
const WELL: u32 = 4;

fn rule(well: Option<u32>, class: Option<&str>) -> MosRule {
    MosRule {
        name: "nfet".to_string(),
        gate_layer: POLY,
        channel_layer: DIFF,
        type_implant: NIMP,
        device_type: "nmos".to_string(),
        flavor_markers: vec![],
        well_layer: well,
        device_class: class.map(|c| c.to_string()),
    }
}

/// Channel 0 (x 0..100, y 0..20) with gate 1 at x 40..50 reaching past it,
/// under an implant (2).
fn store() -> GeometryStore {
    let mut s = GeometryStore::new();
    s.add_rect(DIFF, 0, 0, 100, 20);
    s.add_rect(POLY, 40, -10, 10, 40);
    s.add_rect(NIMP, -5, -5, 110, 30);
    s
}

#[test]
fn gate_between_two_segments_is_a_transistor() {
    let s = store();
    let split = split_channel(&s, &vec![POLY], 0);
    let (devices, sources) = mos_devices_of_split(&s, &vec![rule(None, Some("io"))], &split, &vec![11, 12], &vec![0, 7, 0]).unwrap();
    assert_eq!(devices.len(), 1);
    let d = &devices[0];
    assert_eq!(d.kind, DeviceKind::Nmos);
    assert_eq!(d.flavor, DeviceFlavor::Standard);
    assert_eq!((d.gate, d.source, d.drain, d.body), (7, 11, 12, u32::MAX));
    assert_eq!((d.w, d.l), (20, 10));
    assert_eq!(d.device_class.as_deref(), Some("io"));
    assert_eq!((sources[0].gate_polygon, sources[0].channel_polygon, sources[0].well_polygon), (1, 0, None));
    assert_eq!(sources[0].rule_id, "nfet");
}

#[test]
fn body_comes_from_the_first_overlapping_well() {
    let mut s = store();
    s.add_rect(WELL, 200, 200, 10, 10);
    s.add_rect(WELL, -20, -20, 200, 100);
    let split = split_channel(&s, &vec![POLY], 0);
    let (devices, sources) = mos_devices_of_split(&s, &vec![rule(Some(WELL), None)], &split, &vec![11, 12], &vec![0, 7, 0, 3, 9]).unwrap();
    assert_eq!(devices[0].body, 9);
    assert_eq!(sources[0].well_polygon, Some(4));
}

#[test]
fn gate_without_a_net_or_at_the_edge_gives_nothing() {
    let s = store();
    let split = split_channel(&s, &vec![POLY], 0);
    let (devices, _) = mos_devices_of_split(&s, &vec![rule(None, None)], &split, &vec![11, 12], &vec![0, u32::MAX, 0]).unwrap();
    assert!(devices.is_empty());
    let mut edge = GeometryStore::new();
    edge.add_rect(DIFF, 0, 0, 100, 20);
    edge.add_rect(POLY, 90, -10, 20, 40);
    edge.add_rect(NIMP, -5, -5, 120, 30);
    let split = split_channel(&edge, &vec![POLY], 0);
    let (devices, _) = mos_devices_of_split(&edge, &vec![rule(None, None)], &split, &vec![11], &vec![0, 7, 0]).unwrap();
    assert!(devices.is_empty());
}

#[test]
fn classification_errors_stop_recognition() {
    let s = store();
    let split = split_channel(&s, &vec![POLY], 0);
    let e = mos_devices_of_split(&s, &vec![], &split, &vec![11, 12], &vec![0, 7, 0]).unwrap_err();
    assert_eq!(e, "found gate crossing but no MOS rules to classify device");
}
