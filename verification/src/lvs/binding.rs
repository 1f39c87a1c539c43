//! Vocabulary of reference-netlist binding: error kinds, configured device
//! models and black-box cells.
use vstd::prelude::*;
use crate::lvs::types::{DeviceFlavor, DeviceKind};

verus! {

/// What went wrong while binding a reference netlist.
#[derive(Debug, Clone, Copy, PartialEq, Eq)]
pub enum BindingErrorKind {
    Unsupported,
    Evaluation,
    Duplicate,
    Unresolved,
    HierarchyCycle,
    Arity,
    InvalidProperty,
}

/// The device a model name stands for.
#[derive(Debug, Clone, PartialEq, Eq)]
pub struct ConfiguredModel {
    pub kind: DeviceKind,
    pub flavor: DeviceFlavor,
    pub device_class: Option<String>,
}

/// A cell compared by its ports only, in declaration order.
#[derive(Debug, Clone, PartialEq, Eq)]
pub struct BlackBoxSpec {
    pub name: String,
    pub ports: Vec<String>,
}

} // verus!
