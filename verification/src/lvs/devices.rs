//! Records of extracted passive devices.
use vstd::prelude::*;

verus! {

/// Extracted capacitor with geometry-derived properties.
#[derive(Debug, Clone)]
pub struct CapacitorDevice {
    pub terminal_top: u32,
    pub terminal_bot: u32,
    pub area: i64,
    pub perimeter: i64,
}

/// Extracted diode.
#[derive(Debug, Clone)]
pub struct DiodeDevice {
    pub anode: u32,
    pub cathode: u32,
    pub area: i64,
    pub perimeter: i64,
}

} // verus!
