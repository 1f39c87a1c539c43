use gdsverify::lvs::labels::{find_floating_nets, find_label_conflicts, merge_global_nets};
use gdsverify::lvs::types::{Device, DeviceFlavor, DeviceKind, TwoTerminalDevice, TwoTerminalKind};

fn device(gate: u32, source: u32, drain: u32, body: u32) -> Device {
    Device {
        kind: DeviceKind::Nmos,
        gate,
        source,
        drain,
        body,
        flavor: DeviceFlavor::Standard,
        w: 10,
        l: 2,
        device_class: Some("core".to_string()),
    }
}

fn labels(entries: &[(u32, &str)]) -> Vec<(u32, String)> {
    entries.iter().map(|(p, l)| (*p, l.to_string())).collect()
}

#[test]
fn polygons_labelled_with_a_global_share_the_smallest_net() {
    let mut nets = vec![4, 2, 7, 9, u32::MAX];
    let mut devices = vec![device(7, 4, 9, u32::MAX)];
    merge_global_nets(&mut nets, &mut devices, &labels(&[(0, "VDD"), (2, "VDD"), (3, "out"), (4, "VDD")]), &vec!["VDD".to_string()]);
    assert_eq!(nets, vec![4, 2, 4, 9, u32::MAX]);
    assert_eq!((devices[0].gate, devices[0].source, devices[0].drain, devices[0].body), (4, 4, 9, u32::MAX));
    assert_eq!((devices[0].w, devices[0].l), (10, 2));
    assert_eq!(devices[0].device_class.as_deref(), Some("core"));
}

#[test]
fn globals_merge_one_after_the_other() {
    let mut nets = vec![5, 3, 1, 0];
    let mut devices = vec![];
    let l = labels(&[(0, "a"), (1, "a"), (1, "b"), (2, "b"), (3, "c")]);
    merge_global_nets(&mut nets, &mut devices, &l, &vec!["a".to_string(), "b".to_string(), "c".to_string()]);
    assert_eq!(nets, vec![1, 1, 1, 0]);
}

#[test]
fn unlabelled_or_other_names_change_nothing() {
    let mut nets = vec![5, 3];
    let mut devices = vec![device(5, 3, 3, 5)];
    merge_global_nets(&mut nets, &mut devices, &labels(&[(0, "vdd"), (1, "VSS")]), &vec!["VDD".to_string()]);
    assert_eq!(nets, vec![5, 3]);
    assert_eq!(devices[0].gate, 5);
}

#[test]
fn a_second_text_on_a_net_is_a_conflict() {
    let nets = vec![3, 3, 4, u32::MAX];
    let l = labels(&[(0, "a"), (2, "x"), (1, "b"), (1, "a"), (3, "z"), (0, "c")]);
    assert_eq!(
        find_label_conflicts(&nets, &l),
        vec!["net 3 has conflicting labels: 'a' vs 'b'".to_string(), "net 3 has conflicting labels: 'a' vs 'c'".to_string()]
    );
}

#[test]
fn floating_nets_are_nets_no_terminal_touches() {
    let nets = vec![0, 1, 1, 2, u32::MAX, 3];
    let devs = vec![device(0, 0, 0, u32::MAX)];
    let passives = vec![TwoTerminalDevice {
        kind: TwoTerminalKind::Resistor,
        name: "r".to_string(),
        terminal_a: 3,
        terminal_b: 3,
        value_bits: 0,
    }];
    let l = labels(&[(2, "mid"), (1, "first")]);
    let f = find_floating_nets(&nets, 4, &l, &devs, &passives, &vec![]);
    let seen: Vec<(u32, Option<String>, usize)> = f.into_iter().map(|n| (n.net_id, n.label, n.polygon_count)).collect();
    assert_eq!(seen, vec![(1, Some("first".to_string()), 2), (2, None, 1)]);
}
