use gdsverify::lvs::compare::{compare, refine, CompareOpts, MAGIC_SEED};
use gdsverify::lvs::types::{
    Device, DeviceFlavor, DeviceKind, ExtractedNetlist, RefDevice, RefNetlist, RefTwoTerminal,
    TwoTerminalDevice, TwoTerminalKind,
};

fn mos(kind: DeviceKind, gate: u32, source: u32, drain: u32, w: i32, l: i32) -> Device {
    Device {
        kind,
        gate,
        source,
        drain,
        body: 0,
        flavor: DeviceFlavor::Standard,
        w,
        l,
        device_class: None,
    }
}

fn rmos(kind: DeviceKind, gate: &str, source: &str, drain: &str, w: i32, l: i32) -> RefDevice {
    RefDevice {
        kind,
        gate: gate.into(),
        source: source.into(),
        drain: drain.into(),
        w,
        l,
        flavor: DeviceFlavor::Standard,
    }
}

fn netlist(devices: Vec<Device>, net_count: usize) -> ExtractedNetlist {
    ExtractedNetlist {
        devices,
        device_sources: Vec::new(),
        net_count,
        used_nets: net_count,
        net_of_poly: Vec::new(),
        label_conflicts: Vec::new(),
        two_terminal: Vec::new(),
        bjt_devices: Vec::new(),
        floating_nets: Vec::new(),
    }
}

fn reference(devices: Vec<RefDevice>) -> RefNetlist {
    RefNetlist {
        devices,
        net_seeds: Vec::new(),
        ref_two_terminal: Vec::new(),
        ref_bjt: Vec::new(),
    }
}

fn two_diode_ext(anti_parallel: bool) -> ExtractedNetlist {
    let d1 = TwoTerminalDevice {
        kind: TwoTerminalKind::Diode,
        name: "d1".into(),
        terminal_a: 0,
        terminal_b: 1,
        value_bits: 0.0f64.to_bits(),
    };
    let d2 = TwoTerminalDevice {
        kind: TwoTerminalKind::Diode,
        name: "d2".into(),
        terminal_a: if anti_parallel { 1 } else { 0 },
        terminal_b: if anti_parallel { 0 } else { 1 },
        value_bits: 0.0f64.to_bits(),
    };
    let mut e = netlist(Vec::new(), 2);
    e.two_terminal = vec![d1, d2];
    e
}

fn two_diode_ref() -> RefNetlist {
    let d = |a: &str, b: &str| RefTwoTerminal {
        kind: TwoTerminalKind::Diode,
        name: String::new(),
        terminal_a: a.into(),
        terminal_b: b.into(),
    };
    let mut r = reference(Vec::new());
    r.ref_two_terminal = vec![d("X", "Y"), d("X", "Y")];
    r
}

#[test]
fn diode_polarity_not_permutable() {
    let opts = CompareOpts::new();
    assert!(
        compare(&two_diode_ext(false), &two_diode_ref(), &opts).matched,
        "parallel diode pair should match"
    );
    assert!(
        !compare(&two_diode_ext(true), &two_diode_ref(), &opts).matched,
        "anti-parallel diode pair must mismatch a parallel reference"
    );
}

fn two_device_reference() -> RefNetlist {
    reference(vec![
        rmos(DeviceKind::Pmos, "A", "VDD", "Y", 0, 0),
        rmos(DeviceKind::Nmos, "A", "VSS", "Y", 0, 0),
    ])
}

#[test]
fn compare_detects_swapped_gate() {
    let reference = two_device_reference();
    let cmp_opts = CompareOpts::new();
    let good = netlist(
        vec![mos(DeviceKind::Pmos, 0, 1, 2, 0, 0), mos(DeviceKind::Nmos, 0, 3, 2, 0, 0)],
        4,
    );
    let r = compare(&good, &reference, &cmp_opts);
    assert!(r.matched, "good wiring should match: {}", r.reason);

    let bad = netlist(
        vec![mos(DeviceKind::Pmos, 0, 1, 2, 0, 0), mos(DeviceKind::Nmos, 4, 3, 2, 0, 0)],
        5,
    );
    let r = compare(&bad, &reference, &cmp_opts);
    assert!(!r.matched);
    assert!(r.reason.starts_with("topology mismatch"), "reason: {}", r.reason);
}

fn inverter_extracted(nmos_w: i32) -> ExtractedNetlist {
    netlist(
        vec![
            mos(DeviceKind::Pmos, 0, 1, 2, 5000, 1000),
            mos(DeviceKind::Nmos, 0, 3, 2, nmos_w, 1000),
        ],
        4,
    )
}

fn inverter_reference(w: (i32, i32), l: (i32, i32)) -> RefNetlist {
    reference(vec![
        rmos(DeviceKind::Pmos, "A", "VDD", "Y", w.0, l.0),
        rmos(DeviceKind::Nmos, "A", "VSS", "Y", w.1, l.1),
    ])
}

#[test]
fn parametric_wrong_width_mismatch() {
    let reference = inverter_reference((5000, 2000), (1000, 1000));
    let cmp_opts = CompareOpts::new();

    let r = compare(&inverter_extracted(1500), &reference, &cmp_opts);
    assert!(!r.matched);
    assert!(r.reason.starts_with("parametric mismatch"), "reason: {}", r.reason);

    let r = compare(&inverter_extracted(2000), &reference, &cmp_opts);
    assert!(r.matched, "exact W/L should match: {}", r.reason);

    let r = compare(&inverter_extracted(2030), &reference, &cmp_opts);
    assert!(r.matched, "within-tolerance W should match: {}", r.reason);
}

#[test]
fn parametric_legacy_mode_skips() {
    let cmp_opts = CompareOpts::new();
    let reference = inverter_reference((0, 2000), (1000, 1000));
    let r = compare(&inverter_extracted(999), &reference, &cmp_opts);
    assert!(r.matched, "legacy mode must skip parametric: {}", r.reason);

    let reference = inverter_reference((5000, 2000), (1000, 0));
    let r = compare(&inverter_extracted(999), &reference, &cmp_opts);
    assert!(r.matched, "l == 0 must also skip parametric: {}", r.reason);
}

#[test]
fn automorphism_diff_pair() {
    let reference = reference(vec![
        rmos(DeviceKind::Nmos, "INP", "TAIL", "OUTN", 0, 0),
        rmos(DeviceKind::Nmos, "INN", "TAIL", "OUTP", 0, 0),
    ]);
    let good = netlist(
        vec![mos(DeviceKind::Nmos, 10, 20, 30, 0, 0), mos(DeviceKind::Nmos, 11, 20, 31, 0, 0)],
        5,
    );
    let r = compare(&good, &reference, &CompareOpts::new());
    assert!(r.matched, "symmetric diff pair should match: {}", r.reason);
    assert_eq!(r.ambiguous_classes, 0, "automorphisms should be fully resolved");
}

#[test]
fn two_terminal_wrong_net() {
    let mut reference = reference(vec![rmos(DeviceKind::Nmos, "A", "S", "D", 0, 0)]);
    reference.ref_two_terminal = vec![RefTwoTerminal {
        kind: TwoTerminalKind::Resistor,
        name: "r1".into(),
        terminal_a: "D".into(),
        terminal_b: "VDD".into(),
    }];

    let mut good = netlist(vec![mos(DeviceKind::Nmos, 0, 1, 2, 0, 0)], 4);
    good.two_terminal = vec![TwoTerminalDevice {
        kind: TwoTerminalKind::Resistor,
        name: "r1".into(),
        terminal_a: 2,
        terminal_b: 3,
        value_bits: 100.0f64.to_bits(),
    }];
    let r = compare(&good, &reference, &CompareOpts::new());
    assert!(r.matched, "correct resistor placement should match: {}", r.reason);

    let mut bad = netlist(vec![mos(DeviceKind::Nmos, 0, 1, 2, 0, 0)], 4);
    bad.two_terminal = vec![TwoTerminalDevice {
        kind: TwoTerminalKind::Resistor,
        name: "r1".into(),
        terminal_a: 0,
        terminal_b: 3,
        value_bits: 100.0f64.to_bits(),
    }];
    let r = compare(&bad, &reference, &CompareOpts::new());
    assert!(!r.matched, "resistor on gate (not S/D) should mismatch");
}

fn xorshift(s: u64) -> u64 {
    let a = s ^ (s << 13);
    let b = a ^ (a >> 7);
    b ^ (b << 17)
}

#[test]
fn refinement_draws_magic_in_turn_and_settles_symmetric_pairs() {
    let reference = reference(vec![
        rmos(DeviceKind::Nmos, "INP", "TAIL", "OUTN", 0, 0),
        rmos(DeviceKind::Nmos, "INN", "TAIL", "OUTP", 0, 0),
    ]);
    let ext = netlist(vec![mos(DeviceKind::Nmos, 10, 20, 30, 0, 0), mos(DeviceKind::Nmos, 11, 20, 31, 0, 0)], 5);
    let r = refine(&ext, &reference, &CompareOpts::new());
    assert_eq!(r.role_magic.len(), 10);
    let mut s = MAGIC_SEED;
    for k in 0..10 {
        s = xorshift(s);
        assert_eq!(r.role_magic[k], s);
    }
    for k in 0..r.class_magic.len() {
        s = xorshift(s);
        assert_eq!(r.class_magic[k], s);
    }
    assert_eq!(r.ambiguous, 0);
}

#[test]
fn renumbering_nets_keeps_the_verdict() {
    let reference = inverter_reference((5000, 2000), (1000, 1000));
    let a = netlist(vec![mos(DeviceKind::Pmos, 0, 1, 2, 5000, 1000), mos(DeviceKind::Nmos, 0, 3, 2, 2000, 1000)], 4);
    let b = netlist(vec![mos(DeviceKind::Pmos, 70, 11, 42, 5000, 1000), mos(DeviceKind::Nmos, 70, 5, 42, 2000, 1000)], 4);
    let ra = compare(&a, &reference, &CompareOpts::new());
    let rb = compare(&b, &reference, &CompareOpts::new());
    assert!(ra.matched);
    assert_eq!(ra.matched, rb.matched);
    assert_eq!(ra.ambiguous_classes, rb.ambiguous_classes);
}
