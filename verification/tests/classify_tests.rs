use gdsverify::geometry::GeometryStore;
use gdsverify::io::params::MosRule;
use gdsverify::lvs::classify::{pick_type_and_flavor, MosMatch};
use gdsverify::lvs::types::{DeviceFlavor, DeviceKind};

const POLY: u32 = 1;
const DIFF: u32 = 2;
const NIMP: u32 = 3;
const PIMP: u32 = 4;
const HVT_MARK: u32 = 5;
const LVT_MARK: u32 = 6;

fn rule(name: &str, implant: u32, device_type: &str, markers: Vec<(u32, &str)>) -> MosRule {
    MosRule {
        name: name.to_string(),
        gate_layer: POLY,
        channel_layer: DIFF,
        type_implant: implant,
        device_type: device_type.to_string(),
        flavor_markers: markers.into_iter().map(|(l, n)| (l, n.to_string())).collect(),
        well_layer: None,
        device_class: None,
    }
}

/// A vertical poly stripe (polygon 0) over a horizontal diffusion stripe
/// (polygon 1), crossing in the square [10,20]x[10,20].
fn crossing() -> GeometryStore {
    let mut s = GeometryStore::new();
    s.add_rect(POLY, 10, 0, 10, 30);
    s.add_rect(DIFF, 0, 10, 30, 10);
    s
}

#[test]
fn nmos_rule_with_overlapping_implant_classifies_the_crossing() {
    let mut s = crossing();
    s.add_rect(NIMP, 5, 5, 20, 20);
    let rules = vec![rule("n", NIMP, "nmos", vec![]), rule("p", PIMP, "pmos", vec![])];
    let m = pick_type_and_flavor(&s, &rules, 0, 1).unwrap();
    assert_eq!(m, MosMatch { kind: DeviceKind::Nmos, flavor: DeviceFlavor::Standard, rule_idx: 0 });
}

#[test]
fn pmos_rule_is_found_after_a_non_matching_rule() {
    let mut s = crossing();
    s.add_rect(PIMP, 0, 0, 30, 30);
    let rules = vec![rule("n", NIMP, "nmos", vec![]), rule("p", PIMP, "pmos", vec![])];
    let m = pick_type_and_flavor(&s, &rules, 0, 1).unwrap();
    assert_eq!(m, MosMatch { kind: DeviceKind::Pmos, flavor: DeviceFlavor::Standard, rule_idx: 1 });
}

#[test]
fn overlapping_marker_gives_the_flavor() {
    let mut s = crossing();
    s.add_rect(NIMP, 5, 5, 20, 20);
    s.add_rect(HVT_MARK, 12, 12, 4, 4);
    s.add_rect(LVT_MARK, 100, 100, 4, 4);
    let rules = vec![rule("n", NIMP, "nmos", vec![(HVT_MARK, "HVT"), (LVT_MARK, "lvt")])];
    let m = pick_type_and_flavor(&s, &rules, 0, 1).unwrap();
    assert_eq!(m.flavor, DeviceFlavor::Hvt);
}

#[test]
fn implant_touching_only_an_edge_does_not_count() {
    let mut s = crossing();
    s.add_rect(NIMP, 20, 10, 5, 10);
    let rules = vec![rule("n", NIMP, "nmos", vec![])];
    assert_eq!(
        pick_type_and_flavor(&s, &rules, 0, 1).unwrap_err(),
        "gate polygon 0 crossing channel polygon 1 has no matching MOS type implant"
    );
}

#[test]
fn no_rules_is_an_error() {
    let s = crossing();
    assert_eq!(
        pick_type_and_flavor(&s, &vec![], 0, 1).unwrap_err(),
        "found gate crossing but no MOS rules to classify device"
    );
}

#[test]
fn unsupported_device_type_is_reported() {
    let mut s = crossing();
    s.add_rect(NIMP, 5, 5, 20, 20);
    let rules = vec![rule("weird", NIMP, "jfet", vec![])];
    assert_eq!(
        pick_type_and_flavor(&s, &rules, 0, 1).unwrap_err(),
        "MOS rule 'weird' has unsupported device type 'jfet' during extraction"
    );
}

#[test]
fn unsupported_flavor_of_an_overlapping_marker_is_reported() {
    let mut s = crossing();
    s.add_rect(NIMP, 5, 5, 20, 20);
    s.add_rect(HVT_MARK, 5, 5, 20, 20);
    let rules = vec![rule("n", NIMP, "nmos", vec![(HVT_MARK, "ulvt")])];
    assert_eq!(
        pick_type_and_flavor(&s, &rules, 0, 1).unwrap_err(),
        "MOS rule 'n' has unsupported flavor 'ulvt' during extraction"
    );
}

#[test]
fn two_flavors_at_one_crossing_are_an_error() {
    let mut s = crossing();
    s.add_rect(NIMP, 5, 5, 20, 20);
    s.add_rect(HVT_MARK, 10, 10, 5, 5);
    s.add_rect(LVT_MARK, 15, 15, 5, 5);
    let rules = vec![rule("n", NIMP, "nmos", vec![(HVT_MARK, "hvt"), (LVT_MARK, "Lvt")])];
    assert_eq!(
        pick_type_and_flavor(&s, &rules, 0, 1).unwrap_err(),
        "gate polygon 0 crossing channel polygon 1 matches multiple flavor markers for MOS rule 'n'"
    );
}

#[test]
fn two_applicable_rules_are_ambiguous() {
    let mut s = crossing();
    s.add_rect(NIMP, 5, 5, 20, 20);
    let rules = vec![rule("a", NIMP, "nmos", vec![]), rule("b", PIMP, "pmos", vec![]), rule("c", NIMP, "nmos", vec![])];
    assert_eq!(
        pick_type_and_flavor(&s, &rules, 0, 1).unwrap_err(),
        "gate polygon 0 crossing channel polygon 1 ambiguously matches MOS rules [\"a\", \"c\"]"
    );
}

#[test]
fn rule_for_other_layers_is_skipped() {
    let mut s = crossing();
    s.add_rect(NIMP, 5, 5, 20, 20);
    let mut other = rule("other", NIMP, "nmos", vec![]);
    other.gate_layer = DIFF;
    other.channel_layer = POLY;
    let rules = vec![other];
    assert_eq!(
        pick_type_and_flavor(&s, &rules, 0, 1).unwrap_err(),
        "gate polygon 0 crossing channel polygon 1 has no matching MOS type implant"
    );
}
