use gdsverify::io::params::{LayerTable, MosRule};
use gdsverify::lvs::detailed_extract::{
    match_mos_rule, mos_kind_name, text_candidate_layers, DetailedExtractionError, DetailedExtractionErrorKind,
};
use gdsverify::lvs::types::{DeviceFlavor, DeviceKind, HierarchyPath};

fn table() -> LayerTable {
    LayerTable {
        id_to_name: vec!["met1".to_string(), "met1_pin".to_string(), "met1_label".to_string(), "met2".to_string()],
        id_to_gds: vec![(68, 20), (68, 16), (68, 5), (69, 20)],
    }
}

#[test]
fn text_on_an_exact_pair_labels_that_layer_only() {
    assert_eq!(text_candidate_layers(&table(), 68, 5), vec![2]);
}

#[test]
fn text_on_an_unmapped_datatype_labels_every_layer_of_its_number() {
    assert_eq!(text_candidate_layers(&table(), 68, 99), vec![0, 1, 2]);
    assert_eq!(text_candidate_layers(&table(), 70, 0), Vec::<u32>::new());
}

#[test]
fn kind_names_are_lower_case() {
    assert_eq!(mos_kind_name(&DeviceKind::Nmos), "nmos");
    assert_eq!(mos_kind_name(&DeviceKind::Pnp), "pnp");
}

fn rule(name: &str, device_type: &str, markers: &[&str], class: Option<&str>) -> MosRule {
    MosRule {
        name: name.to_string(),
        gate_layer: 1,
        channel_layer: 2,
        type_implant: 3,
        device_type: device_type.to_string(),
        flavor_markers: markers.iter().map(|m| (9, m.to_string())).collect(),
        well_layer: None,
        device_class: class.map(|c| c.to_string()),
    }
}

fn refused<T>(r: Result<T, DetailedExtractionError>) -> DetailedExtractionError {
    match r {
        Ok(_) => panic!("expected a recognition error"),
        Err(e) => e,
    }
}

fn here() -> HierarchyPath {
    HierarchyPath(vec!["gds:top".to_string()])
}

#[test]
fn device_matches_its_rule_ignoring_case() {
    let rules = vec![rule("p", "pmos", &[], None), rule("n", "NMOS", &[], None)];
    let r = match_mos_rule(&rules, &DeviceKind::Nmos, DeviceFlavor::Standard, None, 0, &here()).unwrap();
    assert_eq!(r.name, "n");
}

#[test]
fn flavor_and_class_select_the_rule() {
    let rules = vec![
        rule("n_std", "nmos", &[], None),
        rule("n_hvt", "nmos", &["HVT"], None),
        rule("n_io", "nmos", &["hvt"], Some("io")),
    ];
    let r = match_mos_rule(&rules, &DeviceKind::Nmos, DeviceFlavor::Hvt, None, 0, &here()).unwrap();
    assert_eq!(r.name, "n_hvt");
    let r = match_mos_rule(&rules, &DeviceKind::Nmos, DeviceFlavor::Hvt, Some("io"), 0, &here()).unwrap();
    assert_eq!(r.name, "n_io");
}

#[test]
fn device_without_a_rule_is_a_recognition_error() {
    let rules = vec![rule("p", "pmos", &[], None)];
    let e = refused(match_mos_rule(&rules, &DeviceKind::Nmos, DeviceFlavor::Standard, None, 7, &here()));
    assert_eq!(e.kind, DetailedExtractionErrorKind::DeviceRecognition);
    assert_eq!(e.object, "MOS 7");
    assert_eq!(e.hierarchy_path, here());
    assert_eq!(e.message, "extracted MOS cannot be associated with a configured recognition rule");
}

#[test]
fn device_fitting_two_rules_is_ambiguous() {
    let rules = vec![rule("a", "nmos", &[], None), rule("b", "pmos", &[], None), rule("c", "Nmos", &["lvt"], None)];
    let e = refused(match_mos_rule(&rules, &DeviceKind::Nmos, DeviceFlavor::Standard, None, 3, &here()));
    assert_eq!(e.message, "extracted MOS identity is ambiguous across rules [\"a\", \"c\"]");
}

#[test]
fn duplicated_path_has_the_same_steps() {
    let p = HierarchyPath(vec!["gds:top".to_string(), "E3".to_string()]);
    assert_eq!(p.duplicate(), p);
}
