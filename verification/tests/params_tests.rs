use gdsverify::lvs::types::PropertyTolerance;
use gdsverify::io::params::{
    check_layer_defs, deck_from_schema, resolve_connectivity_schema, resolve_mos_rules, CapRuleSchema, ConnectivitySchema, DeckSchema,
    MosRuleSchema, ResistorRuleSchema, ViaSchema, drc_rule_error, required_positive_i32, required_positive_i32_from_i64, required_positive_i64, LayerDef, LayerTable,
};

fn defs(items: &[(&str, i32, i32)]) -> Vec<(String, LayerDef)> {
    items.iter().map(|(n, l, d)| (n.to_string(), LayerDef { layer: *l, datatype: *d })).collect()
}

#[test]
fn layer_ids_follow_gds_pairs() {
    let t = LayerTable::from_defs(&defs(&[("met2", 20, 0), ("met1", 10, 0), ("met1_pin", 10, 2)]));
    assert_eq!(t.id_to_name, vec!["met1".to_string(), "met1_pin".to_string(), "met2".to_string()]);
    assert_eq!(t.id_to_gds, vec![(10, 0), (10, 2), (20, 0)]);
    assert_eq!(t.id(&"met2".to_string()), Some(2));
    assert_eq!(t.id(&"poly".to_string()), None);
    assert_eq!(t.name(1), "met1_pin");
    assert_eq!(t.from_gds(10, 2), Some(1));
    assert_eq!(t.from_gds(10, 1), None);
}

#[test]
fn shared_gds_pair_keeps_input_order_and_maps_to_last() {
    let t = LayerTable::from_defs(&defs(&[("b", 5, 0), ("a", 5, 0), ("c", 1, 0)]));
    assert_eq!(t.id_to_name, vec!["c".to_string(), "b".to_string(), "a".to_string()]);
    assert_eq!(t.from_gds(5, 0), Some(2));
}

#[test]
fn rule_parameters_must_be_present_and_positive() {
    assert_eq!(drc_rule_error("m1.w", "width", "too thin"), "DRC rule `m1.w` (width): too thin");
    assert_eq!(required_positive_i32("r", "spacing", "max", Some(7)), Ok(7));
    assert_eq!(
        required_positive_i32("r", "spacing", "max", None),
        Err("DRC rule `r` (spacing): missing required `max` parameter".to_string())
    );
    assert_eq!(
        required_positive_i32("r", "grid", "grid", Some(0)),
        Err("DRC rule `r` (grid): `grid` must be positive, got 0".to_string())
    );
    assert_eq!(required_positive_i64("a", "area", "min", Some(5_000_000_000)), Ok(5_000_000_000));
    assert_eq!(
        required_positive_i64("a", "area", "min", Some(-3)),
        Err("DRC rule `a` (area): `min` must be positive, got -3".to_string())
    );
    assert_eq!(required_positive_i32_from_i64("w", "width", "min", Some(140)), Ok(140));
    assert_eq!(
        required_positive_i32_from_i64("w", "width", "min", Some(3_000_000_000)),
        Err("DRC rule `w` (width): `min` value 3000000000 is outside the i32 range".to_string())
    );
    assert_eq!(
        required_positive_i32_from_i64("w", "width", "min", None),
        Err("DRC rule `w` (width): missing required `min` parameter".to_string())
    );
}

#[test]
fn layer_definitions_are_checked_in_order() {
    assert!(check_layer_defs(&defs(&[("met1", 10, 0), ("met2", 20, 0)])).is_ok());
    assert_eq!(check_layer_defs(&defs(&[("met1", 10, 0), ("  ", 20, 0)])).unwrap_err(), "layer name must not be empty");
    assert_eq!(
        check_layer_defs(&defs(&[("met1", 10, 0), ("big", 40000, 0)])).unwrap_err(),
        "layer `big` has GDS pair (40000, 0) outside the supported non-negative i16 range"
    );
    assert_eq!(
        check_layer_defs(&defs(&[("met1", 10, 0), ("neg", 1, -1)])).unwrap_err(),
        "layer `neg` has GDS pair (1, -1) outside the supported non-negative i16 range"
    );
    assert_eq!(
        check_layer_defs(&defs(&[("met1", 10, 0), ("met2", 20, 0), ("pin", 10, 0)])).unwrap_err(),
        "layers `met1` and `pin` share duplicate GDS pair (10, 0)"
    );
}

fn via(layer: &str, connects: &[&str]) -> ViaSchema {
    ViaSchema { layer: layer.to_string(), connects: connects.iter().map(|c| c.to_string()).collect() }
}

fn connectivity(conductors: &[&str], vias: Vec<ViaSchema>) -> ConnectivitySchema {
    ConnectivitySchema { conductors: conductors.iter().map(|c| c.to_string()).collect(), vias }
}

#[test]
fn declared_connectivity_resolves_to_layer_ids() {
    let t = LayerTable::from_defs(&defs(&[("met1", 10, 0), ("via1", 15, 0), ("met2", 20, 0)]));
    let c = resolve_connectivity_schema(&t, &connectivity(&["met1", "met2"], vec![via("via1", &["met1", "met2"])])).unwrap();
    assert_eq!(c.conductors, vec![0, 2]);
    assert_eq!(c.vias.len(), 1);
    assert_eq!(c.vias[0].0, 1);
    assert_eq!(c.vias[0].1, vec![0, 2]);
    let empty = resolve_connectivity_schema(&t, &connectivity(&[], vec![])).unwrap();
    assert!(empty.conductors.is_empty() && empty.vias.is_empty());
}

#[test]
fn declared_connectivity_faults_are_named() {
    let t = LayerTable::from_defs(&defs(&[("met1", 10, 0), ("via1", 15, 0), ("met2", 20, 0)]));
    let err = |c: ConnectivitySchema| resolve_connectivity_schema(&t, &c).err().unwrap();
    assert_eq!(err(connectivity(&[], vec![via("via1", &["met1"])])), "connectivity schema declares vias but contains no conductors");
    assert_eq!(err(connectivity(&["met1", "met1"], vec![])), "connectivity conductor layer `met1` is duplicated");
    assert_eq!(err(connectivity(&["met9"], vec![])), "connectivity conductor references unknown layer `met9`");
    assert_eq!(
        err(connectivity(&["met1", "met2"], vec![via("via1", &["met1"]), via("via1", &["met2"])])),
        "connectivity cut layer `via1` has duplicate via declarations"
    );
    assert_eq!(err(connectivity(&["met1"], vec![via("cut", &["met1"])])), "connectivity via references unknown cut layer `cut`");
    assert_eq!(err(connectivity(&["met1"], vec![via("via1", &[])])), "connectivity via `via1` must connect at least one conductor layer");
    assert_eq!(
        err(connectivity(&["met1"], vec![via("via1", &["met1", "met1"])])),
        "connectivity via `via1` repeats conductor layer `met1`"
    );
    assert_eq!(
        err(connectivity(&["met1"], vec![via("via1", &["met2"])])),
        "connectivity via `via1` references layer `met2` that is not declared as a conductor"
    );
}

fn mos_schema(name: &str, device_type: &str, markers: &[(&str, &str)], well: Option<&str>) -> MosRuleSchema {
    MosRuleSchema {
        name: name.to_string(),
        gate_layer: "poly".to_string(),
        channel_layer: "diff".to_string(),
        type_implant: "nimp".to_string(),
        device_type: device_type.to_string(),
        flavor_markers: markers.iter().map(|(l, f)| (l.to_string(), f.to_string())).collect(),
        well_layer: well.map(|w| w.to_string()),
        device_class: None,
    }
}

#[test]
fn declared_mos_rules_resolve_to_layer_ids() {
    let t = LayerTable::from_defs(&defs(&[("poly", 1, 0), ("diff", 2, 0), ("nimp", 3, 0), ("hvtm", 4, 0), ("pwell", 5, 0)]));
    let rules = resolve_mos_rules(&t, &vec![mos_schema("n", "nmos", &[("hvtm", "hvt")], Some("pwell"))]).unwrap();
    assert_eq!(rules.len(), 1);
    let r = &rules[0];
    assert_eq!((r.gate_layer, r.channel_layer, r.type_implant, r.well_layer), (0, 1, 2, Some(4)));
    assert_eq!(r.flavor_markers, vec![(3, "hvt".to_string())]);
    assert_eq!(r.device_type, "nmos");
}

#[test]
fn declared_mos_rule_faults_are_named() {
    let t = LayerTable::from_defs(&defs(&[("poly", 1, 0), ("diff", 2, 0), ("nimp", 3, 0)]));
    let err = |rules: Vec<MosRuleSchema>| resolve_mos_rules(&t, &rules).err().unwrap();
    assert_eq!(
        err(vec![mos_schema("n", "nmos", &[], None), mos_schema("n", "pmos", &[], None)]),
        "device-recognition MOS rule has an empty or duplicate name `n`"
    );
    assert_eq!(err(vec![mos_schema("n", "bjt", &[], None)]), "device-recognition MOS rule `n` has unsupported device type `bjt`");
    assert_eq!(
        err(vec![mos_schema("n", "nmos", &[("nimp", "ulvt")], None)]),
        "device-recognition MOS rule `n` has unsupported flavor `ulvt`"
    );
    assert_eq!(
        err(vec![mos_schema("n", "nmos", &[("nimp", "lvt"), ("nimp", "hvt")], None)]),
        "device-recognition MOS rule `n` repeats flavor-marker layer `nimp`"
    );
    assert_eq!(
        err(vec![mos_schema("n", "nmos", &[], Some("nwell"))]),
        "device-recognition MOS rule `n` references unknown well layer `nwell`"
    );
}

fn deck_schema(conductors: &[&str]) -> DeckSchema {
    DeckSchema {
        layers: defs(&[("poly", 1, 0), ("diff", 2, 0), ("nimp", 3, 0), ("met1", 4, 0), ("via1", 5, 0), ("met2", 6, 0)]),
        connectivity: connectivity(conductors, vec![via("via1", &["met1", "met2"])]),
        intra_layer_touch: true,
        global_nets: vec!["VDD".to_string()],
        mos_rules: vec![mos_schema("n", "nmos", &[], None)],
        bjt_rules: vec![],
        resistor_rules: vec![ResistorRuleSchema {
            name: "r".to_string(),
            body_layer: "poly".to_string(),
            marker_layer: "nimp".to_string(),
            terminal_layer: "met1".to_string(),
        }],
        diode_rules: vec![],
        cap_rules: vec![CapRuleSchema {
            name: "c".to_string(),
            top_layer: "met2".to_string(),
            bottom_layer: "met1".to_string(),
            marker_layer: Some("capm".to_string()),
        }],
        lvs_cut_required: true,
        fail_on_floating: false,
        w_tolerance: PropertyTolerance::new(),
        l_tolerance: PropertyTolerance::new(),
    }
}

#[test]
fn a_declared_deck_resolves_in_order() {
    let mut schema = deck_schema(&["met1", "met2"]);
    assert_eq!(
        deck_from_schema(&schema).err().unwrap(),
        "device-recognition capacitor rule `c` references unknown marker layer `capm`"
    );
    schema.cap_rules[0].marker_layer = None;
    let deck = deck_from_schema(&schema).unwrap();
    assert_eq!(deck.connectivity.conductors, vec![3, 5]);
    assert_eq!(deck.devices.mos_rules[0].gate_layer, 0);
    assert_eq!(deck.devices.resistor_rules[0].terminal_layer, 3);
    assert_eq!((deck.devices.cap_rules[0].top_layer, deck.devices.cap_rules[0].bottom_layer), (5, 3));
    assert_eq!(deck.global_nets, vec!["VDD".to_string()]);
    assert!(deck.lvs_cut_required && deck.intra_layer_touch && !deck.strict);
    let bad = deck_schema(&["met1", "met3"]);
    assert_eq!(deck_from_schema(&bad).err().unwrap(), "connectivity conductor references unknown layer `met3`");
}
