//! Layout verification: GDSII stream reading and writing, layer tables,
//! derived layers and LVS netlist comparison.
pub mod geometry;
pub mod graph;
pub mod io;
pub mod lvs;
pub mod text;

use vstd::prelude::*;

verus! {

/// Stream policy for deck-aware file loading.
#[derive(Clone, Copy, Debug, PartialEq, Eq)]
pub enum GdsLoadPolicy {
    /// Preserves closed invalid polygons so the polygon-validity DRC check can
    /// report legacy defects.
    LegacyDrcCompatibility,
    /// Requires a complete GDS envelope and valid simple geometry.
    StrictSignoff,
}

} // verus!
