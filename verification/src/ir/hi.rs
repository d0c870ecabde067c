//! The high, geometric IR level: what should be solid.
//!
//! A program is a stack of layers, each a set of filled [`Region`]s. No travel here — travel is a
//! lowering artifact ([`crate::lower`]).
use vstd::prelude::*;

use super::{Area, ExtrudePath, RegionKind};

verus! {

/// A high-level program: an ordered stack of geometric layers.
#[derive(Clone, Debug, Default, PartialEq, Eq)]
pub struct Program {
    pub layers: Vec<Layer>,
}

/// A planar layer at Z (microns), described as filled regions.
#[derive(Clone, Debug, PartialEq, Eq)]
pub struct Layer {
    pub z_um: i64,
    pub regions: Vec<Region>,
}

/// A filled region: a `boundary` to be solid, tagged by role, plus the extruding paths that realize it.
#[derive(Clone, Debug, PartialEq, Eq)]
pub struct Region {
    pub kind: RegionKind,
    pub boundary: Area,
    pub fills: Vec<ExtrudePath>,
}

impl Program {
    pub fn new() -> (p: Program)
        ensures
            p.layers@.len() == 0,
    {
        Program { layers: Vec::new() }
    }
}

} // verus!
