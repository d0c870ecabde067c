//! The Kerf intermediate representation.
//!
//! Two levels: [`hi`] (filled regions with boundaries) and [`lo`] (ordered toolpaths including
//! travel). [`crate::lower`] goes hi -> lo; [`crate::denote`] gives both a shared meaning as
//! deposited material, making the lowering's soundness checkable.
pub mod hi;
pub mod lo;

use vstd::prelude::*;

verus! {

/// A planar coordinate in microns. Integer fixed-point, so the IR stays verifiable.
#[derive(Clone, Copy, Debug, PartialEq, Eq, Structural, Hash)]
pub struct Point {
    pub x: i64,
    pub y: i64,
}

impl Point {
    pub fn new(x: i64, y: i64) -> (p: Point)
        ensures
            p.x == x,
            p.y == y,
    {
        Point { x, y }
    }
}

/// An ordered chain of points; open (a path) or closed (a loop, last point equals first).
#[derive(Clone, Debug, Default, PartialEq, Eq)]
pub struct Polyline {
    pub points: Vec<Point>,
}

impl Polyline {
    pub fn new(points: Vec<Point>) -> (p: Polyline)
        ensures
            p.points@ == points@,
    {
        Polyline { points }
    }

    /// An element-for-element copy of this chain.
    pub fn duplicate(&self) -> (p: Polyline)
        ensures
            p.points@ == self.points@,
    {
        Polyline { points: copy_points(&self.points) }
    }
}

/// A copy of a point list, element for element.
pub fn copy_points(v: &Vec<Point>) -> (out: Vec<Point>)
    ensures
        out@ == v@,
{
    let mut out: Vec<Point> = Vec::with_capacity(v.len());
    let mut i: usize = 0;
    while i < v.len()
        invariant
            i <= v.len(),
            out@ == v@.take(i as int),
        decreases v.len() - i,
    {
        out.push(v[i]);
        i += 1;
        assert(out@ =~= v@.take(i as int));
    }
    assert(v@.take(v.len() as int) =~= v@);
    out
}

/// A filled area: an outer boundary loop plus zero or more hole loops.
#[derive(Clone, Debug, Default, PartialEq, Eq)]
pub struct Area {
    pub outer: Polyline,
    pub holes: Vec<Polyline>,
}

/// The feature role of deposited material.
#[derive(Clone, Copy, Debug, PartialEq, Eq, Structural, Hash)]
pub enum RegionKind {
    Perimeter,
    Infill,
    Skin,
    Support,
}

/// An extruding path: a polyline laid down at a given width (microns). Shared by both IR levels.
#[derive(Clone, Debug, PartialEq, Eq)]
pub struct ExtrudePath {
    pub path: Polyline,
    pub width_um: i64,
}

} // verus!
