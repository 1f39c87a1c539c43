//! LVS: extract a netlist from layout, then compare it to a reference netlist.
pub mod types;
pub mod hierarchical;
pub mod compare;
pub mod derived;
pub mod reduce;
pub mod intervals;
pub mod union_find;
pub mod candidates;
pub mod hier_transform;
pub mod rectilinear;
pub mod classify;
pub mod recognize;
pub mod channel;
pub mod transistors;
pub mod nets;
pub mod connect;
pub mod labels;
pub mod devices;
pub mod binding;
pub mod detailed_extract;
pub mod gds_adapter;
pub mod extract;

pub use compare::{compare, CompareOpts};

use vstd::prelude::*;
use crate::lvs::types::RefNetlist;

verus! {

/// The LVS check: compares a layout against `reference`.
pub struct LvsCheck {
    pub reference: RefNetlist,
}

impl LvsCheck {
    /// Identifier of the check.
    pub fn id(&self) -> (s: &'static str)
        ensures
            s@ == "lvs"@,
    {
        "lvs"
    }
}

} // verus!
