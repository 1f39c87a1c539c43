use gdsverify::lvs::compare::{flavor_name, flavor_tag, kind_name, kind_tag, two_term_kind_label};
use gdsverify::lvs::types::{DeviceFlavor, DeviceKind};

#[test]
fn tags_and_names_round_trip() {
    assert_eq!(kind_name(kind_tag(&DeviceKind::Nmos)), "Nmos");
    assert_eq!(kind_name(kind_tag(&DeviceKind::Pmos)), "Pmos");
    assert_eq!(flavor_name(flavor_tag(&DeviceFlavor::Standard)), "Std");
    assert_eq!(flavor_name(flavor_tag(&DeviceFlavor::Lvt)), "Lvt");
    assert_eq!(flavor_name(flavor_tag(&DeviceFlavor::Hvt)), "Hvt");
    assert_eq!(two_term_kind_label(0), "Resistor");
    assert_eq!(two_term_kind_label(1), "Diode");
    assert_eq!(two_term_kind_label(2), "Capacitor");
}
