//! The low, move-plan IR level: what the machine actually does.
//!
//! An ordered sequence of toolpaths per layer, including travel moves.
use vstd::prelude::*;

use super::{Point, Polyline, RegionKind};

verus! {

/// How a toolpath is traversed. An extruding move carries a feature role; `Travel` deposits nothing.
#[derive(Clone, Copy, Debug, PartialEq, Eq, Structural, Hash)]
pub enum SegmentKind {
    Extrude(RegionKind),
    Travel,
}

impl SegmentKind {
    /// Whether material is deposited while traversing this kind of path.
    pub fn extrudes(self) -> (b: bool)
        ensures
            b == self is Extrude,
    {
        match self {
            SegmentKind::Extrude(_) => true,
            SegmentKind::Travel => false,
        }
    }
}

/// A low-level program: an ordered stack of move-plan layers.
#[derive(Clone, Debug, Default, PartialEq, Eq)]
pub struct Program {
    pub layers: Vec<Layer>,
}

/// One planar layer at Z (microns): an ordered list of toolpaths.
#[derive(Clone, Debug, PartialEq, Eq)]
pub struct Layer {
    pub z_um: i64,
    pub toolpaths: Vec<Toolpath>,
}

/// A toolpath: a polyline plus how it is traversed. `width_um` is ignored for `Travel`.
///
/// `flow_e` is the commanded filament advance for the whole toolpath when known, in nanometres of
/// E (10⁻⁶ mm): fixed-point, so the move plan stays exact integers. `None` for geometry-only
/// sources (lowering) and for travel.
#[derive(Clone, Debug, PartialEq, Eq)]
pub struct Toolpath {
    pub kind: SegmentKind,
    pub path: Polyline,
    pub width_um: i64,
    pub flow_e: Option<i64>,
}

/// The plain value of a toolpath: kind, points, width and commanded flow.
pub type ToolpathView = (SegmentKind, Seq<Point>, i64, Option<i64>);

impl View for Toolpath {
    type V = (SegmentKind, Seq<Point>, i64, Option<i64>);

    open spec fn view(&self) -> (SegmentKind, Seq<Point>, i64, Option<i64>) {
        (self.kind, self.path.points@, self.width_um, self.flow_e)
    }
}

impl View for Layer {
    type V = (i64, Seq<(SegmentKind, Seq<Point>, i64, Option<i64>)>);

    open spec fn view(&self) -> (i64, Seq<(SegmentKind, Seq<Point>, i64, Option<i64>)>) {
        (self.z_um, self.toolpaths@.map_values(|t: Toolpath| t@))
    }
}

impl View for Program {
    type V = Seq<(i64, Seq<(SegmentKind, Seq<Point>, i64, Option<i64>)>)>;

    open spec fn view(&self) -> Seq<(i64, Seq<(SegmentKind, Seq<Point>, i64, Option<i64>)>)> {
        self.layers@.map_values(|l: Layer| l@)
    }
}

impl Toolpath {
    /// An extruding toolpath with unspecified commanded flow.
    pub fn extrude(kind: SegmentKind, path: Polyline, width_um: i64) -> (t: Toolpath)
        ensures
            t.kind == kind,
            t.path.points@ == path.points@,
            t.width_um == width_um,
            t.flow_e is None,
    {
        Toolpath { kind, path, width_um, flow_e: None }
    }

    /// A travel (non-depositing) toolpath.
    pub fn travel(path: Polyline) -> (t: Toolpath)
        ensures
            t.kind == SegmentKind::Travel,
            t.path.points@ == path.points@,
            t.width_um == 0,
            t.flow_e is None,
    {
        Toolpath { kind: SegmentKind::Travel, path, width_um: 0, flow_e: None }
    }

    /// A field-for-field copy.
    pub fn duplicate(&self) -> (t: Toolpath)
        ensures
            t.kind == self.kind,
            t.path.points@ == self.path.points@,
            t.width_um == self.width_um,
            t.flow_e == self.flow_e,
    {
        Toolpath {
            kind: self.kind,
            path: self.path.duplicate(),
            width_um: self.width_um,
            flow_e: self.flow_e,
        }
    }
}

/// Number of extruding toolpaths in a sequence.
pub open spec fn count_extruding(tps: Seq<Toolpath>) -> nat
    decreases tps.len(),
{
    if tps.len() == 0 {
        0
    } else {
        count_extruding(tps.drop_last()) + if tps.last().kind is Extrude { 1nat } else { 0nat }
    }
}

/// Number of extruding toolpaths over a sequence of layers.
pub open spec fn count_extruding_layers(layers: Seq<Layer>) -> nat
    decreases layers.len(),
{
    if layers.len() == 0 {
        0
    } else {
        count_extruding_layers(layers.drop_last()) + count_extruding(layers.last().toolpaths@)
    }
}

impl Layer {
    /// A toolpath-for-toolpath copy.
    pub fn duplicate(&self) -> (l: Layer)
        ensures
            l@ == self@,
    {
        let mut tps: Vec<Toolpath> = Vec::new();
        let mut k: usize = 0;
        while k < self.toolpaths.len()
            invariant
                k <= self.toolpaths.len(),
                tps@.map_values(|t: Toolpath| t@) == self.toolpaths@.take(k as int).map_values(|t: Toolpath| t@),
            decreases self.toolpaths.len() - k,
        {
            let ghost before = tps@.map_values(|t: Toolpath| t@);
            let d = self.toolpaths[k].duplicate();
            tps.push(d);
            assert(tps@.map_values(|t: Toolpath| t@) =~= before.push(self.toolpaths@[k as int]@));
            k += 1;
            assert(self.toolpaths@.take(k as int).map_values(|t: Toolpath| t@) =~= self.toolpaths@.take(
                k - 1,
            ).map_values(|t: Toolpath| t@).push(self.toolpaths@[k - 1]@));
        }
        assert(self.toolpaths@.take(k as int) =~= self.toolpaths@);
        Layer { z_um: self.z_um, toolpaths: tps }
    }
}

impl Program {
    pub fn new() -> (p: Program)
        ensures
            p.layers@.len() == 0,
            p@ == Seq::<(i64, Seq<(SegmentKind, Seq<Point>, i64, Option<i64>)>)>::empty(),
    {
        let p = Program { layers: Vec::new() };
        assert(p@ =~= Seq::<(i64, Seq<(SegmentKind, Seq<Point>, i64, Option<i64>)>)>::empty());
        p
    }

    /// A layer-for-layer copy.
    pub fn duplicate(&self) -> (p: Program)
        ensures
            p@ == self@,
    {
        let mut layers: Vec<Layer> = Vec::new();
        let mut k: usize = 0;
        while k < self.layers.len()
            invariant
                k <= self.layers.len(),
                layers@.map_values(|l: Layer| l@) == self.layers@.take(k as int).map_values(|l: Layer| l@),
            decreases self.layers.len() - k,
        {
            let ghost before = layers@.map_values(|l: Layer| l@);
            let d = self.layers[k].duplicate();
            layers.push(d);
            assert(layers@.map_values(|l: Layer| l@) =~= before.push(self.layers@[k as int]@));
            k += 1;
            assert(self.layers@.take(k as int).map_values(|l: Layer| l@) =~= self.layers@.take(k - 1).map_values(
                |l: Layer| l@,
            ).push(self.layers@[k - 1]@));
        }
        assert(self.layers@.take(k as int) =~= self.layers@);
        Program { layers }
    }

    /// Number of extruding (non-travel) toolpaths across all layers.
    pub fn extrusion_move_count(&self) -> (n: usize)
        requires
            count_extruding_layers(self.layers@) <= usize::MAX,
        ensures
            n == count_extruding_layers(self.layers@),
    {
        let mut n: usize = 0;
        let mut li: usize = 0;
        while li < self.layers.len()
            invariant
                li <= self.layers.len(),
                n == count_extruding_layers(self.layers@.take(li as int)),
                count_extruding_layers(self.layers@) <= usize::MAX,
            decreases self.layers.len() - li,
        {
            let tps = &self.layers[li].toolpaths;
            let mut k: usize = 0;
            proof {
                assert(self.layers@.take(li + 1).drop_last() =~= self.layers@.take(li as int));
                lemma_count_layers_prefix_le(self.layers@, li as int + 1);
            }
            while k < tps.len()
                invariant
                    k <= tps.len(),
                    li < self.layers.len(),
                    tps == &self.layers@[li as int].toolpaths,
                    n == count_extruding_layers(self.layers@.take(li as int)) + count_extruding(
                        tps@.take(k as int),
                    ),
                    count_extruding_layers(self.layers@.take(li + 1)) <= usize::MAX,
                    count_extruding_layers(self.layers@.take(li + 1))
                        == count_extruding_layers(self.layers@.take(li as int)) + count_extruding(tps@),
                decreases tps.len() - k,
            {
                proof {
                    assert(tps@.take(k + 1).drop_last() =~= tps@.take(k as int));
                    lemma_count_prefix_le(tps@, k as int + 1);
                }
                if tps[k].kind.extrudes() {
                    n += 1;
                }
                k += 1;
            }
            assert(tps@.take(k as int) =~= tps@);
            li += 1;
        }
        assert(self.layers@.take(li as int) =~= self.layers@);
        n
    }
}

pub proof fn lemma_count_prefix_le(s: Seq<Toolpath>, k: int)
    requires
        0 <= k <= s.len(),
    ensures
        count_extruding(s.take(k)) <= count_extruding(s),
    decreases s.len(),
{
    if k < s.len() {
        assert(s.drop_last().take(k) =~= s.take(k));
        lemma_count_prefix_le(s.drop_last(), k);
    } else {
        assert(s.take(k) =~= s);
    }
}

pub proof fn lemma_count_layers_prefix_le(s: Seq<Layer>, k: int)
    requires
        0 <= k <= s.len(),
    ensures
        count_extruding_layers(s.take(k)) <= count_extruding_layers(s),
    decreases s.len(),
{
    if k < s.len() {
        assert(s.drop_last().take(k) =~= s.take(k));
        lemma_count_layers_prefix_le(s.drop_last(), k);
    } else {
        assert(s.take(k) =~= s);
    }
}

} // verus!
