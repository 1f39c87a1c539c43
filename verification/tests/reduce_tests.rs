use gdsverify::lvs::reduce::{reduce_netlist, reduce_netlist_with_protected};
use gdsverify::lvs::types::{
    Device, DeviceFlavor, DeviceKind, ExtractedNetlist, TwoTerminalDevice, TwoTerminalKind,
};

fn mos(source: u32, drain: u32, w: i32, l: i32) -> Device {
    Device {
        kind: DeviceKind::Nmos,
        gate: 10,
        source,
        drain,
        body: 20,
        flavor: DeviceFlavor::Standard,
        w,
        l,
        device_class: Some("core".into()),
    }
}

fn netlist(devices: Vec<Device>) -> ExtractedNetlist {
    ExtractedNetlist {
        devices,
        device_sources: Vec::new(),
        bjt_devices: Vec::new(),
        net_count: 32,
        used_nets: 0,
        net_of_poly: Vec::new(),
        label_conflicts: Vec::new(),
        two_terminal: Vec::new(),
        floating_nets: Vec::new(),
    }
}

#[test]
fn series_reduction_repeats_to_fixpoint() {
    let mut ext = netlist(vec![
        mos(1, 2, 100, 40),
        mos(2, 3, 100, 50),
        mos(3, 4, 100, 60),
    ]);
    reduce_netlist(&mut ext);
    assert_eq!(ext.devices.len(), 1);
    let d = &ext.devices[0];
    assert_eq!((d.source, d.drain), (1, 4));
    assert_eq!((d.w, d.l), (100, 150));
}

#[test]
fn series_reduction_rejects_incompatible_or_branched_devices() {
    let mut unequal_width = netlist(vec![mos(1, 2, 100, 40), mos(2, 3, 120, 50)]);
    reduce_netlist(&mut unequal_width);
    assert_eq!(unequal_width.devices.len(), 2);

    let mut unlike_body = mos(2, 3, 100, 50);
    unlike_body.body = 21;
    let mut body = netlist(vec![mos(1, 2, 100, 40), unlike_body]);
    reduce_netlist(&mut body);
    assert_eq!(body.devices.len(), 2);

    let mut unlike_class = mos(2, 3, 100, 50);
    unlike_class.device_class = Some("io".into());
    let mut class = netlist(vec![mos(1, 2, 100, 40), unlike_class]);
    reduce_netlist(&mut class);
    assert_eq!(class.devices.len(), 2);

    let mut branch = netlist(vec![
        mos(1, 2, 100, 40),
        mos(2, 3, 100, 50),
        mos(2, 4, 100, 60),
    ]);
    reduce_netlist(&mut branch);
    assert_eq!(
        branch.devices.len(),
        3,
        "degree-three net must not disappear"
    );
}

#[test]
fn series_reduction_protects_observable_nets() {
    let mut gate_tied = netlist(vec![mos(1, 10, 100, 40), mos(10, 3, 100, 50)]);
    reduce_netlist(&mut gate_tied);
    assert_eq!(
        gate_tied.devices.len(),
        2,
        "gate-connected net is observable"
    );

    let mut labeled = netlist(vec![mos(1, 2, 100, 40), mos(2, 3, 100, 50)]);
    reduce_netlist_with_protected(&mut labeled, &vec![2]);
    assert_eq!(
        labeled.devices.len(),
        2,
        "labeled/global net must be protected"
    );

    let mut passive = netlist(vec![mos(1, 2, 100, 40), mos(2, 3, 100, 50)]);
    passive.two_terminal.push(TwoTerminalDevice {
        kind: TwoTerminalKind::Resistor,
        name: "tap".into(),
        terminal_a: 2,
        terminal_b: 5,
        value_bits: 1.0f64.to_bits(),
    });
    reduce_netlist(&mut passive);
    assert_eq!(
        passive.devices.len(),
        2,
        "passive-connected net is external"
    );
}

#[test]
fn parallel_reduction_requires_same_body_and_length() {
    let mut same = netlist(vec![mos(1, 2, 100, 40), mos(2, 1, 120, 40)]);
    reduce_netlist(&mut same);
    assert_eq!(same.devices.len(), 1);
    assert_eq!(same.devices[0].w, 220);

    let mut other_l = netlist(vec![mos(1, 2, 100, 40), mos(1, 2, 120, 50)]);
    reduce_netlist(&mut other_l);
    assert_eq!(other_l.devices.len(), 2);

    let mut body_device = mos(1, 2, 120, 40);
    body_device.body = 21;
    let mut other_body = netlist(vec![mos(1, 2, 100, 40), body_device]);
    reduce_netlist(&mut other_body);
    assert_eq!(other_body.devices.len(), 2);
}

#[test]
fn reduction_counts_used_nets_and_clears_sources() {
    let mut ext = netlist(vec![mos(1, 2, 100, 40), mos(2, 3, 100, 50)]);
    reduce_netlist(&mut ext);
    assert_eq!(ext.devices.len(), 1);
    // gate 10, source 1, drain 3
    assert_eq!(ext.used_nets, 3);
    assert!(ext.device_sources.is_empty());
}

#[test]
fn reducing_a_reduced_netlist_changes_nothing() {
    let mut ext = netlist(vec![mos(1, 2, 100, 40), mos(2, 3, 100, 50), mos(5, 6, 10, 10)]);
    reduce_netlist(&mut ext);
    let once: Vec<(u32, u32, i32, i32)> = ext.devices.iter().map(|d| (d.source, d.drain, d.w, d.l)).collect();
    reduce_netlist(&mut ext);
    let twice: Vec<(u32, u32, i32, i32)> = ext.devices.iter().map(|d| (d.source, d.drain, d.w, d.l)).collect();
    assert_eq!(once, twice);
    assert_eq!(once, vec![(5, 6, 10, 10), (1, 3, 100, 90)]);
}

#[test]
fn reduced_devices_list_source_before_drain() {
    let mut ext = netlist(vec![mos(7, 2, 100, 40), mos(9, 4, 100, 40)]);
    reduce_netlist(&mut ext);
    assert_eq!(ext.devices.len(), 2);
    for d in &ext.devices {
        assert!(d.source <= d.drain);
    }
    assert_eq!((ext.devices[0].source, ext.devices[0].drain), (2, 7));
}
