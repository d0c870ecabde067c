//! Denotational semantics: a program's meaning as deposited material.
//!
//! [`denote_hi`] / [`denote_lo`] map a program to an [`Occupancy`]: the material-occupied cells per
//! layer. Meaning is defined over extruding paths only: each is swept (the polyline thickened by half
//! its width, see [`crate::coverage`]) and unioned within a layer; travel denotes nothing. Equality
//! of occupancies means the two programs deposit the same material up to the raster resolution.
//!
//! [`Deposit`] is the finer denotation: per cell, how many distinct extruding paths cover it.
use std::collections::{BTreeMap, BTreeSet};

use vstd::prelude::*;

use crate::coverage::{eff_res, path_cells};
use crate::ir::lo::ToolpathView;
use crate::ir::{hi, lo, ExtrudePath, Point, Polyline};
use crate::fnv::{
    fnv128_fold, fnv128_mix, fnv64_fold, fnv64_mix, lemma_fnv128_push, lemma_fnv64_push, FNV128_OFFSET,
    FNV64_OFFSET,
};
use crate::raster::{cell_list, lemma_path_reversal, mark_path, ordered_cells, polyline_cells};

verus! {

broadcast use vstd::laws_cmp::group_laws_cmp;

/// An extruding path as the denotation sees it: its points and its width.
pub open spec fn dpath(points: Seq<Point>, width: i64) -> (Seq<Point>, i64) {
    (points, width)
}

/// The cells covered by any of a sequence of paths.
pub open spec fn paths_cells(paths: Seq<(Seq<Point>, i64)>, res: int) -> Set<(i64, i64)>
    decreases paths.len(),
{
    if paths.len() == 0 {
        Set::empty()
    } else {
        paths_cells(paths.drop_last(), res).union(
            path_cells(paths.last().0, paths.last().1 as int, res),
        )
    }
}

/// How many of a sequence of paths cover cell `c`.
pub open spec fn paths_count(paths: Seq<(Seq<Point>, i64)>, res: int, c: (i64, i64)) -> nat
    decreases paths.len(),
{
    if paths.len() == 0 {
        0
    } else {
        paths_count(paths.drop_last(), res, c) + if path_cells(
            paths.last().0,
            paths.last().1 as int,
            res,
        ).contains(c) {
            1nat
        } else {
            0nat
        }
    }
}

/// The per-cell path counts of a sequence of paths, over the cells at least one path covers.
pub open spec fn paths_count_map(paths: Seq<(Seq<Point>, i64)>, res: int) -> Map<(i64, i64), u32> {
    Map::new(|c: (i64, i64)| paths_count(paths, res, c) > 0, |c: (i64, i64)| paths_count(paths, res, c) as u32)
}

/// The extruding toolpaths of a low-level layer, in order.
pub open spec fn lo_paths(tps: Seq<lo::Toolpath>) -> Seq<(Seq<Point>, i64)>
    decreases tps.len(),
{
    if tps.len() == 0 {
        Seq::empty()
    } else if tps.last().kind is Extrude {
        lo_paths(tps.drop_last()).push(dpath(tps.last().path.points@, tps.last().width_um))
    } else {
        lo_paths(tps.drop_last())
    }
}

/// The fills of one region as paths.
pub open spec fn fill_paths(fills: Seq<ExtrudePath>) -> Seq<(Seq<Point>, i64)> {
    fills.map_values(|f: ExtrudePath| dpath(f.path.points@, f.width_um))
}

/// Every fill of every region of a high-level layer, region by region.
pub open spec fn hi_paths(regions: Seq<hi::Region>) -> Seq<(Seq<Point>, i64)>
    decreases regions.len(),
{
    if regions.len() == 0 {
        Seq::empty()
    } else {
        hi_paths(regions.drop_last()) + fill_paths(regions.last().fills@)
    }
}

/// Occupancy of one layer: the occupied cell coordinates on a `resolution_um` grid.
#[derive(Clone, Debug, PartialEq, Eq)]
pub struct LayerOccupancy {
    pub z_um: i64,
    pub resolution_um: i64,
    pub cells: BTreeSet<(i64, i64)>,
}

impl View for LayerOccupancy {
    type V = (i64, i64, Set<(i64, i64)>);

    open spec fn view(&self) -> (i64, i64, Set<(i64, i64)>) {
        (self.z_um, self.resolution_um, self.cells@)
    }
}

/// Occupancy of a whole program. Two programs denote the same material at this resolution iff
/// their occupancies are equal.
#[derive(Clone, Debug, PartialEq, Eq)]
pub struct Occupancy {
    pub layers: Vec<LayerOccupancy>,
}

impl View for Occupancy {
    type V = Seq<(i64, i64, Set<(i64, i64)>)>;

    open spec fn view(&self) -> Seq<(i64, i64, Set<(i64, i64)>)> {
        self.layers@.map_values(|l: LayerOccupancy| l@)
    }
}

impl Occupancy {
    /// A layer-for-layer copy.
    pub fn duplicate(&self) -> (o: Occupancy)
        ensures
            o@ == self@,
    {
        let mut layers: Vec<LayerOccupancy> = Vec::new();
        let mut k: usize = 0;
        while k < self.layers.len()
            invariant
                k <= self.layers.len(),
                layers@.map_values(|l: LayerOccupancy| l@) == self.layers@.take(k as int).map_values(
                    |l: LayerOccupancy| l@,
                ),
            decreases self.layers.len() - k,
        {
            let l = &self.layers[k];
            let c = LayerOccupancy { z_um: l.z_um, resolution_um: l.resolution_um, cells: l.cells.clone() };
            let ghost before = layers@.map_values(|l: LayerOccupancy| l@);
            layers.push(c);
            assert(layers@.map_values(|l: LayerOccupancy| l@) =~= before.push(self.layers@[k as int]@));
            k += 1;
            assert(self.layers@.take(k as int).map_values(|l: LayerOccupancy| l@) =~= self.layers@.take(
                k - 1,
            ).map_values(|l: LayerOccupancy| l@).push(self.layers@[k - 1]@));
        }
        assert(self.layers@.take(k as int) =~= self.layers@);
        Occupancy { layers }
    }
}

/// Deposit of one layer: how many distinct extruding paths cover each occupied cell (>= 1).
#[derive(Clone, Debug, PartialEq, Eq)]
pub struct LayerDeposit {
    pub z_um: i64,
    pub resolution_um: i64,
    pub cells: BTreeMap<(i64, i64), u32>,
}

impl View for LayerDeposit {
    type V = (i64, i64, Map<(i64, i64), u32>);

    open spec fn view(&self) -> (i64, i64, Map<(i64, i64), u32>) {
        (self.z_um, self.resolution_um, self.cells@)
    }
}

/// Per-cell count of distinct extruding paths over a whole program: a strictly finer denotation
/// than [`Occupancy`], which catches whole-path duplication that a set hides.
#[derive(Clone, Debug, PartialEq, Eq)]
pub struct Deposit {
    pub layers: Vec<LayerDeposit>,
}

impl View for Deposit {
    type V = Seq<(i64, i64, Map<(i64, i64), u32>)>;

    open spec fn view(&self) -> Seq<(i64, i64, Map<(i64, i64), u32>)> {
        self.layers@.map_values(|l: LayerDeposit| l@)
    }
}

/// The denotation of one layer's paths at a resolution.
pub open spec fn layer_occupancy(paths: Seq<(Seq<Point>, i64)>, z: i64, res: int) -> (i64, i64, Set<(i64, i64)>) {
    (z, eff_res(res) as i64, paths_cells(paths, res))
}

/// The deposit of one layer's paths at a resolution.
pub open spec fn layer_deposit(paths: Seq<(Seq<Point>, i64)>, z: i64, res: int) -> (i64, i64, Map<(i64, i64), u32>) {
    (z, eff_res(res) as i64, paths_count_map(paths, res))
}

/// The denotation of a low-level program, layer by layer.
pub open spec fn lo_occupancy(layers: Seq<lo::Layer>, res: int) -> Seq<(i64, i64, Set<(i64, i64)>)> {
    layers.map_values(|l: lo::Layer| layer_occupancy(lo_paths(l.toolpaths@), l.z_um, res))
}

/// The denotation of a high-level program, layer by layer.
pub open spec fn hi_occupancy(layers: Seq<hi::Layer>, res: int) -> Seq<(i64, i64, Set<(i64, i64)>)> {
    layers.map_values(|l: hi::Layer| layer_occupancy(hi_paths(l.regions@), l.z_um, res))
}

/// The deposit of a low-level program, layer by layer.
pub open spec fn lo_deposit(layers: Seq<lo::Layer>, res: int) -> Seq<(i64, i64, Map<(i64, i64), u32>)> {
    layers.map_values(|l: lo::Layer| layer_deposit(lo_paths(l.toolpaths@), l.z_um, res))
}

/// The deposit of a high-level program, layer by layer.
pub open spec fn hi_deposit(layers: Seq<hi::Layer>, res: int) -> Seq<(i64, i64, Map<(i64, i64), u32>)> {
    layers.map_values(|l: hi::Layer| layer_deposit(hi_paths(l.regions@), l.z_um, res))
}

proof fn lemma_lo_paths_step(tps: Seq<lo::Toolpath>, k: int)
    requires
        0 <= k < tps.len(),
    ensures
        lo_paths(tps.take(k + 1)) == if tps[k].kind is Extrude {
            lo_paths(tps.take(k)).push(dpath(tps[k].path.points@, tps[k].width_um))
        } else {
            lo_paths(tps.take(k))
        },
{
    assert(tps.take(k + 1).drop_last() =~= tps.take(k));
}

proof fn lemma_paths_cells_push(ps: Seq<(Seq<Point>, i64)>, x: (Seq<Point>, i64), res: int)
    ensures
        paths_cells(ps.push(x), res) == paths_cells(ps, res).union(path_cells(x.0, x.1 as int, res)),
{
    assert(ps.push(x).drop_last() =~= ps);
}

/// Denote a single low-level layer: the union of its extruding toolpaths' swept material.
pub fn denote_lo_layer(layer: &lo::Layer, resolution_um: i64) -> (occ: LayerOccupancy)
    ensures
        occ@ == layer_occupancy(lo_paths(layer.toolpaths@), layer.z_um, resolution_um as int),
{
    let tps = &layer.toolpaths;
    let mut cells: BTreeSet<(i64, i64)> = BTreeSet::new();
    let mut k: usize = 0;
    assert(tps@.take(0) =~= Seq::<lo::Toolpath>::empty());
    while k < tps.len()
        invariant
            k <= tps.len(),
            tps == &layer.toolpaths,
            cells@ == paths_cells(lo_paths(tps@.take(k as int)), resolution_um as int),
        decreases tps.len() - k,
    {
        proof {
            lemma_lo_paths_step(tps@, k as int);
        }
        let t = &tps[k];
        if t.kind.extrudes() {
            mark_path(&mut cells, &t.path, t.width_um, resolution_um);
            proof {
                lemma_paths_cells_push(
                    lo_paths(tps@.take(k as int)),
                    dpath(t.path.points@, t.width_um),
                    resolution_um as int,
                );
            }
        }
        k += 1;
    }
    assert(tps@.take(k as int) =~= tps@);
    let r: i64 = if resolution_um < 1 { 1 } else { resolution_um };
    LayerOccupancy { z_um: layer.z_um, resolution_um: r, cells }
}

/// Denote a low-level program: union the swept material of every extruding toolpath, per layer.
/// Travel contributes nothing.
pub fn denote_lo(program: &lo::Program, resolution_um: i64) -> (occ: Occupancy)
    ensures
        occ@ == lo_occupancy(program.layers@, resolution_um as int),
{
    let mut layers: Vec<LayerOccupancy> = Vec::new();
    let mut i: usize = 0;
    while i < program.layers.len()
        invariant
            i <= program.layers.len(),
            layers@.len() == i,
            forall|k: int|
                0 <= k < i ==> #[trigger] layers@[k]@ == layer_occupancy(
                    lo_paths(program.layers@[k].toolpaths@),
                    program.layers@[k].z_um,
                    resolution_um as int,
                ),
        decreases program.layers.len() - i,
    {
        let l = denote_lo_layer(&program.layers[i], resolution_um);
        layers.push(l);
        i += 1;
    }
    let occ = Occupancy { layers };
    assert(occ@ =~= lo_occupancy(program.layers@, resolution_um as int));
    occ
}

proof fn lemma_hi_paths_step(regions: Seq<hi::Region>, g: int)
    requires
        0 <= g < regions.len(),
    ensures
        hi_paths(regions.take(g + 1)) == hi_paths(regions.take(g)) + fill_paths(regions[g].fills@),
{
    assert(regions.take(g + 1).drop_last() =~= regions.take(g));
}

proof fn lemma_fill_paths_step(prefix: Seq<(Seq<Point>, i64)>, fills: Seq<ExtrudePath>, k: int)
    requires
        0 <= k < fills.len(),
    ensures
        prefix + fill_paths(fills.take(k + 1)) == (prefix + fill_paths(fills.take(k))).push(
            dpath(fills[k].path.points@, fills[k].width_um),
        ),
{
    assert(prefix + fill_paths(fills.take(k + 1)) =~= (prefix + fill_paths(fills.take(k))).push(
        dpath(fills[k].path.points@, fills[k].width_um),
    ));
}

/// Mark every fill of a high-level layer, region by region, continuing the path sequence `done`.
fn mark_hi_layer(cells: &mut BTreeSet<(i64, i64)>, layer: &hi::Layer, resolution_um: i64)
    requires
        old(cells)@ == Set::<(i64, i64)>::empty(),
    ensures
        final(cells)@ == paths_cells(hi_paths(layer.regions@), resolution_um as int),
{
    let regions = &layer.regions;
    let mut g: usize = 0;
    assert(regions@.take(0) =~= Seq::<hi::Region>::empty());
    while g < regions.len()
        invariant
            g <= regions.len(),
            regions == &layer.regions,
            cells@ == paths_cells(hi_paths(regions@.take(g as int)), resolution_um as int),
        decreases regions.len() - g,
    {
        let fills = &regions[g].fills;
        let ghost done = hi_paths(regions@.take(g as int));
        let mut k: usize = 0;
        assert(done + fill_paths(fills@.take(0)) =~= done);
        while k < fills.len()
            invariant
                k <= fills.len(),
                g < regions.len(),
                fills == &regions@[g as int].fills,
                done == hi_paths(regions@.take(g as int)),
                cells@ == paths_cells(done + fill_paths(fills@.take(k as int)), resolution_um as int),
            decreases fills.len() - k,
        {
            let f = &fills[k];
            mark_path(cells, &f.path, f.width_um, resolution_um);
            proof {
                lemma_fill_paths_step(done, fills@, k as int);
                lemma_paths_cells_push(
                    done + fill_paths(fills@.take(k as int)),
                    dpath(f.path.points@, f.width_um),
                    resolution_um as int,
                );
            }
            k += 1;
        }
        proof {
            assert(fills@.take(k as int) =~= fills@);
            lemma_hi_paths_step(regions@, g as int);
        }
        g += 1;
    }
    assert(regions@.take(g as int) =~= regions@);
}

/// Denote a high-level program: union the swept material of every region's fills, per layer.
///
/// Measures deposited filament (the swept `fills`) only; a region's `boundary` is denotationally
/// inert, so equality means "deposits the same material," not "fills the claimed region."
pub fn denote_hi(program: &hi::Program, resolution_um: i64) -> (occ: Occupancy)
    ensures
        occ@ == hi_occupancy(program.layers@, resolution_um as int),
{
    let mut layers: Vec<LayerOccupancy> = Vec::new();
    let r: i64 = if resolution_um < 1 { 1 } else { resolution_um };
    let mut i: usize = 0;
    while i < program.layers.len()
        invariant
            i <= program.layers.len(),
            r == eff_res(resolution_um as int),
            layers@.len() == i,
            forall|k: int|
                0 <= k < i ==> #[trigger] layers@[k]@ == layer_occupancy(
                    hi_paths(program.layers@[k].regions@),
                    program.layers@[k].z_um,
                    resolution_um as int,
                ),
        decreases program.layers.len() - i,
    {
        let mut cells: BTreeSet<(i64, i64)> = BTreeSet::new();
        mark_hi_layer(&mut cells, &program.layers[i], resolution_um);
        layers.push(LayerOccupancy { z_um: program.layers[i].z_um, resolution_um: r, cells });
        i += 1;
    }
    let occ = Occupancy { layers };
    assert(occ@ =~= hi_occupancy(program.layers@, resolution_um as int));
    occ
}

proof fn lemma_count_le_len(paths: Seq<(Seq<Point>, i64)>, res: int, c: (i64, i64))
    ensures
        paths_count(paths, res, c) <= paths.len(),
    decreases paths.len(),
{
    if paths.len() > 0 {
        lemma_count_le_len(paths.drop_last(), res, c);
    }
}

proof fn lemma_count_positive(paths: Seq<(Seq<Point>, i64)>, res: int, c: (i64, i64))
    ensures
        paths_count(paths, res, c) > 0 <==> paths_cells(paths, res).contains(c),
    decreases paths.len(),
{
    if paths.len() > 0 {
        lemma_count_positive(paths.drop_last(), res, c);
    }
}

/// Add one path's covered cells to a per-cell count.
fn add_path_counts(
    counts: &mut BTreeMap<(i64, i64), u32>,
    poly: &Polyline,
    width_um: i64,
    resolution_um: i64,
    Ghost(done): Ghost<Seq<(Seq<Point>, i64)>>,
)
    requires
        old(counts)@ == paths_count_map(done, resolution_um as int),
        done.len() < u32::MAX,
    ensures
        final(counts)@ == paths_count_map(
            done.push(dpath(poly.points@, width_um)),
            resolution_um as int,
        ),
{
    let ghost res = resolution_um as int;
    let ghost x = dpath(poly.points@, width_um);
    let pc = polyline_cells(poly, width_um, resolution_um);
    let list = cell_list(&pc);
    let ghost base = |c: (i64, i64)| paths_count(done, res, c);
    let mut m: usize = 0;
    while m < list.len()
        invariant
            m <= list.len(),
            list@.no_duplicates(),
            done.len() < u32::MAX,
            counts@ == Map::new(
                |c: (i64, i64)| paths_count(done, res, c) + (if list@.take(m as int).contains(c) { 1nat } else { 0nat }) > 0,
                |c: (i64, i64)| (paths_count(done, res, c) + (if list@.take(m as int).contains(c) { 1nat } else { 0nat })) as u32,
            ),
        decreases list.len() - m,
    {
        let c = list[m];
        proof {
            lemma_count_le_len(done, res, c);
            assert(!list@.take(m as int).contains(c)) by {
                if list@.take(m as int).contains(c) {
                    let t = choose|t: int| 0 <= t < m && #[trigger] list@.take(m as int)[t] == c;
                    assert(list@[t] == list@[m as int]);
                }
            }
        }
        let cur: u32 = match counts.get(&c) {
            Some(v) => *v,
            None => 0,
        };
        counts.insert(c, cur + 1);
        proof {
            assert forall|d: (i64, i64)| #[trigger] list@.take(m + 1).contains(d) <==> (list@.take(m as int).contains(d) || d == c) by {
                if list@.take(m + 1).contains(d) {
                    let t = choose|t: int| 0 <= t < m + 1 && #[trigger] list@.take(m + 1)[t] == d;
                    if t < m {
                        assert(list@.take(m as int)[t] == d);
                    }
                }
                if list@.take(m as int).contains(d) {
                    let t = choose|t: int| 0 <= t < m && #[trigger] list@.take(m as int)[t] == d;
                    assert(list@.take(m + 1)[t] == d);
                }
                if d == c {
                    assert(list@.take(m + 1)[m as int] == d);
                }
            }
            assert(counts@ =~= Map::new(
                |c: (i64, i64)| paths_count(done, res, c) + (if list@.take(m + 1).contains(c) { 1nat } else { 0nat }) > 0,
                |c: (i64, i64)| (paths_count(done, res, c) + (if list@.take(m + 1).contains(c) { 1nat } else { 0nat })) as u32,
            ));
        }
        m += 1;
    }
    proof {
        assert(list@.take(m as int) =~= list@);
        assert(done.push(x).drop_last() =~= done);
        assert forall|c: (i64, i64)| #[trigger] list@.contains(c) <==> pc@.contains(c) by {
            if pc@.contains(c) {
                assert(list@.to_set().contains(c));
            }
        }
        assert(counts@ =~= paths_count_map(done.push(x), res));
    }
}

/// Rasterize a low-level layer into a per-cell deposition count.
fn deposit_lo_layer(layer: &lo::Layer, resolution_um: i64) -> (dep: LayerDeposit)
    requires
        layer.toolpaths@.len() <= u32::MAX,
    ensures
        dep@ == layer_deposit(lo_paths(layer.toolpaths@), layer.z_um, resolution_um as int),
{
    let tps = &layer.toolpaths;
    let mut counts: BTreeMap<(i64, i64), u32> = BTreeMap::new();
    let mut k: usize = 0;
    assert(tps@.take(0) =~= Seq::<lo::Toolpath>::empty());
    assert(counts@ =~= paths_count_map(lo_paths(tps@.take(0)), resolution_um as int));
    while k < tps.len()
        invariant
            k <= tps.len(),
            tps.len() <= u32::MAX,
            tps == &layer.toolpaths,
            lo_paths(tps@.take(k as int)).len() <= k,
            counts@ == paths_count_map(lo_paths(tps@.take(k as int)), resolution_um as int),
        decreases tps.len() - k,
    {
        proof {
            lemma_lo_paths_step(tps@, k as int);
        }
        let t = &tps[k];
        if t.kind.extrudes() {
            add_path_counts(&mut counts, &t.path, t.width_um, resolution_um, Ghost(lo_paths(tps@.take(k as int))));
        }
        k += 1;
    }
    assert(tps@.take(k as int) =~= tps@);
    let r: i64 = if resolution_um < 1 { 1 } else { resolution_um };
    LayerDeposit { z_um: layer.z_um, resolution_um: r, cells: counts }
}

/// Deposition count of a low-level program: how many extruding toolpaths cover each cell, per
/// layer. Unlike [`denote_lo`], a program that deposits the same path twice does not compare equal.
pub fn denote_lo_deposit(program: &lo::Program, resolution_um: i64) -> (dep: Deposit)
    requires
        forall|i: int| 0 <= i < program.layers@.len() ==> #[trigger] program.layers@[i].toolpaths@.len() <= u32::MAX,
    ensures
        dep@ == lo_deposit(program.layers@, resolution_um as int),
{
    let mut layers: Vec<LayerDeposit> = Vec::new();
    let mut i: usize = 0;
    while i < program.layers.len()
        invariant
            i <= program.layers.len(),
            forall|i: int| 0 <= i < program.layers@.len() ==> #[trigger] program.layers@[i].toolpaths@.len() <= u32::MAX,
            layers@.len() == i,
            forall|k: int|
                0 <= k < i ==> #[trigger] layers@[k]@ == layer_deposit(
                    lo_paths(program.layers@[k].toolpaths@),
                    program.layers@[k].z_um,
                    resolution_um as int,
                ),
        decreases program.layers.len() - i,
    {
        let l = deposit_lo_layer(&program.layers[i], resolution_um);
        layers.push(l);
        i += 1;
    }
    let dep = Deposit { layers };
    assert(dep@ =~= lo_deposit(program.layers@, resolution_um as int));
    dep
}

/// Rasterize a high-level layer into a per-cell deposition count.
fn deposit_hi_layer(layer: &hi::Layer, resolution_um: i64) -> (dep: LayerDeposit)
    requires
        hi_paths(layer.regions@).len() <= u32::MAX,
    ensures
        dep@ == layer_deposit(hi_paths(layer.regions@), layer.z_um, resolution_um as int),
{
    let regions = &layer.regions;
    let mut counts: BTreeMap<(i64, i64), u32> = BTreeMap::new();
    let mut g: usize = 0;
    assert(regions@.take(0) =~= Seq::<hi::Region>::empty());
    assert(counts@ =~= paths_count_map(hi_paths(regions@.take(0)), resolution_um as int));
    assert forall|h: int| 0 <= h <= regions@.len() implies #[trigger] hi_paths(regions@.take(h)).len()
        <= hi_paths(regions@).len() by {
        lemma_hi_paths_prefix_len(regions@, h);
    }
    while g < regions.len()
        invariant
            g <= regions.len(),
            regions == &layer.regions,
            hi_paths(regions@).len() <= u32::MAX,
            forall|h: int| 0 <= h <= regions@.len() ==> #[trigger] hi_paths(regions@.take(h)).len() <= hi_paths(regions@).len(),
            counts@ == paths_count_map(hi_paths(regions@.take(g as int)), resolution_um as int),
        decreases regions.len() - g,
    {
        let fills = &regions[g].fills;
        let ghost done = hi_paths(regions@.take(g as int));
        proof {
            lemma_hi_paths_step(regions@, g as int);
        }
        let mut k: usize = 0;
        assert(done + fill_paths(fills@.take(0)) =~= done);
        while k < fills.len()
            invariant
                k <= fills.len(),
                g < regions.len(),
                fills == &regions@[g as int].fills,
                done == hi_paths(regions@.take(g as int)),
                (done + fill_paths(fills@)).len() <= u32::MAX,
                counts@ == paths_count_map(done + fill_paths(fills@.take(k as int)), resolution_um as int),
            decreases fills.len() - k,
        {
            let f = &fills[k];
            proof {
                lemma_fill_paths_step(done, fills@, k as int);
            }
            add_path_counts(&mut counts, &f.path, f.width_um, resolution_um, Ghost(done + fill_paths(fills@.take(k as int))));
            k += 1;
        }
        proof {
            assert(fills@.take(k as int) =~= fills@);
        }
        g += 1;
    }
    assert(regions@.take(g as int) =~= regions@);
    let r: i64 = if resolution_um < 1 { 1 } else { resolution_um };
    LayerDeposit { z_um: layer.z_um, resolution_um: r, cells: counts }
}

proof fn lemma_hi_paths_prefix_len(regions: Seq<hi::Region>, h: int)
    requires
        0 <= h <= regions.len(),
    ensures
        hi_paths(regions.take(h)).len() <= hi_paths(regions).len(),
    decreases regions.len(),
{
    if h < regions.len() {
        assert(regions.drop_last().take(h) =~= regions.take(h));
        lemma_hi_paths_prefix_len(regions.drop_last(), h);
    } else {
        assert(regions.take(h) =~= regions);
    }
}

/// Deposition count of a high-level program: how many fills cover each cell, per layer.
pub fn denote_hi_deposit(program: &hi::Program, resolution_um: i64) -> (dep: Deposit)
    requires
        forall|i: int| 0 <= i < program.layers@.len() ==> #[trigger] hi_paths(program.layers@[i].regions@).len() <= u32::MAX,
    ensures
        dep@ == hi_deposit(program.layers@, resolution_um as int),
{
    let mut layers: Vec<LayerDeposit> = Vec::new();
    let mut i: usize = 0;
    while i < program.layers.len()
        invariant
            i <= program.layers.len(),
            forall|i: int| 0 <= i < program.layers@.len() ==> #[trigger] hi_paths(program.layers@[i].regions@).len() <= u32::MAX,
            layers@.len() == i,
            forall|k: int|
                0 <= k < i ==> #[trigger] layers@[k]@ == layer_deposit(
                    hi_paths(program.layers@[k].regions@),
                    program.layers@[k].z_um,
                    resolution_um as int,
                ),
        decreases program.layers.len() - i,
    {
        let l = deposit_hi_layer(&program.layers[i], resolution_um);
        layers.push(l);
        i += 1;
    }
    let dep = Deposit { layers };
    assert(dep@ =~= hi_deposit(program.layers@, resolution_um as int));
    dep
}

/// The words a list of cells contributes to a fingerprint: each cell's x, then its y.
pub open spec fn cell_words(q: Seq<(i64, i64)>) -> Seq<u64>
    decreases q.len(),
{
    if q.len() == 0 {
        Seq::empty()
    } else {
        cell_words(q.drop_last()) + seq![q.last().0 as u64, q.last().1 as u64]
    }
}

/// FNV-1a-64 over a layer's z, its resolution, then its cells in increasing order.
pub open spec fn layer_fingerprint(l: (i64, i64, Set<(i64, i64)>)) -> u64 {
    fnv64_fold(FNV64_OFFSET, seq![l.0 as u64, l.1 as u64] + cell_words(ordered_cells(l.2)))
}

/// FNV-1a-128 over a sequence of layer fingerprints, in layer order.
pub open spec fn combined_fingerprint(fps: Seq<u64>) -> u128 {
    fnv128_fold(FNV128_OFFSET, fps.map_values(|f: u64| f as u128))
}

/// The 128-bit fingerprint of a whole denotation.
pub open spec fn occupancy_fingerprint(o: Seq<(i64, i64, Set<(i64, i64)>)>) -> u128 {
    combined_fingerprint(o.map_values(|l: (i64, i64, Set<(i64, i64)>)| layer_fingerprint(l)))
}

impl LayerOccupancy {
    /// A 64-bit fingerprint of this layer's deposited material (its z, resolution, and occupied
    /// cells, in increasing order). Equal occupancies have equal fingerprints.
    pub fn fingerprint(&self) -> (h: u64)
        ensures
            h == layer_fingerprint(self@),
    {
        let list = cell_list(&self.cells);
        let ghost hdr = seq![self.z_um as u64, self.resolution_um as u64];
        let mut h = fnv64_mix(FNV64_OFFSET, self.z_um as u64);
        h = fnv64_mix(h, self.resolution_um as u64);
        proof {
            assert(seq![self.z_um as u64] =~= Seq::<u64>::empty().push(self.z_um as u64));
            lemma_fnv64_push(FNV64_OFFSET, Seq::empty(), self.z_um as u64);
            lemma_fnv64_push(FNV64_OFFSET, seq![self.z_um as u64], self.resolution_um as u64);
            assert(seq![self.z_um as u64].push(self.resolution_um as u64) =~= hdr);
            assert(hdr + cell_words(list@.take(0)) =~= hdr);
        }
        let mut k: usize = 0;
        while k < list.len()
            invariant
                k <= list.len(),
                h == fnv64_fold(FNV64_OFFSET, hdr + cell_words(list@.take(k as int))),
            decreases list.len() - k,
        {
            let c = list[k];
            proof {
                let before = hdr + cell_words(list@.take(k as int));
                assert(list@.take(k + 1).drop_last() =~= list@.take(k as int));
                assert(hdr + cell_words(list@.take(k + 1)) =~= before.push(c.0 as u64).push(c.1 as u64));
                lemma_fnv64_push(FNV64_OFFSET, before, c.0 as u64);
                lemma_fnv64_push(FNV64_OFFSET, before.push(c.0 as u64), c.1 as u64);
            }
            h = fnv64_mix(h, c.0 as u64);
            h = fnv64_mix(h, c.1 as u64);
            k += 1;
        }
        assert(list@.take(k as int) =~= list@);
        h
    }
}

/// Combine per-layer fingerprints into a 128-bit program fingerprint (FNV-1a-128 over the layer
/// fingerprints, in layer order).
pub(crate) fn combine_fingerprints(layer_fps: &Vec<u64>) -> (h: u128)
    ensures
        h == combined_fingerprint(layer_fps@),
{
    let mut h = FNV128_OFFSET;
    let mut k: usize = 0;
    while k < layer_fps.len()
        invariant
            k <= layer_fps.len(),
            h == fnv128_fold(FNV128_OFFSET, layer_fps@.take(k as int).map_values(|f: u64| f as u128)),
        decreases layer_fps.len() - k,
    {
        proof {
            let before = layer_fps@.take(k as int).map_values(|f: u64| f as u128);
            assert(layer_fps@.take(k + 1).map_values(|f: u64| f as u128) =~= before.push(layer_fps@[k as int] as u128));
            lemma_fnv128_push(FNV128_OFFSET, before, layer_fps@[k as int] as u128);
        }
        h = fnv128_mix(h, layer_fps[k] as u128);
        k += 1;
    }
    assert(layer_fps@.take(k as int) =~= layer_fps@);
    h
}

impl Occupancy {
    /// Per-layer fingerprints (see [`LayerOccupancy::fingerprint`]).
    pub fn layer_fingerprints(&self) -> (fps: Vec<u64>)
        ensures
            fps@ == self@.map_values(|l: (i64, i64, Set<(i64, i64)>)| layer_fingerprint(l)),
    {
        let mut fps: Vec<u64> = Vec::new();
        let mut k: usize = 0;
        while k < self.layers.len()
            invariant
                k <= self.layers.len(),
                fps@ == self@.take(k as int).map_values(|l: (i64, i64, Set<(i64, i64)>)| layer_fingerprint(l)),
            decreases self.layers.len() - k,
        {
            let f = self.layers[k].fingerprint();
            fps.push(f);
            k += 1;
            assert(fps@ =~= self@.take(k as int).map_values(|l: (i64, i64, Set<(i64, i64)>)| layer_fingerprint(l)));
        }
        assert(self@.take(k as int) =~= self@);
        fps
    }

    /// A 128-bit fingerprint of the whole deposited material. Equal occupancies have equal
    /// fingerprints.
    pub fn fingerprint(&self) -> (h: u128)
        ensures
            h == occupancy_fingerprint(self@),
    {
        let fps = self.layer_fingerprints();
        combine_fingerprints(&fps)
    }
}

/// The 128-bit material fingerprint of a low-level program at a resolution.
pub fn material_fingerprint(program: &lo::Program, resolution_um: i64) -> (h: u128)
    ensures
        h == occupancy_fingerprint(lo_occupancy(program.layers@, resolution_um as int)),
{
    denote_lo(program, resolution_um).fingerprint()
}

/// Whether two cell sets are equal.
pub fn cells_equal(a: &BTreeSet<(i64, i64)>, b: &BTreeSet<(i64, i64)>) -> (r: bool)
    ensures
        r == (a@ == b@),
{
    broadcast use vstd::std_specs::btree::group_btree_axioms;
    broadcast use vstd::seq_lib::seq_to_set_is_finite;

    let la = cell_list(a);
    let lb = cell_list(b);
    if la.len() != lb.len() {
        assert(a@.len() != b@.len());
        return false;
    }
    let mut k: usize = 0;
    while k < la.len()
        invariant
            k <= la.len(),
            la@.to_set() == a@,
            forall|i: int| 0 <= i < k ==> #[trigger] b@.contains(la@[i]),
        decreases la.len() - k,
    {
        if !b.contains(&la[k]) {
            assert(la@.contains(la@[k as int]));
            assert(a@.contains(la@[k as int]));
            return false;
        }
        k += 1;
    }
    proof {
        assert forall|c: (i64, i64)| #[trigger] a@.contains(c) implies b@.contains(c) by {
            assert(la@.contains(c));
            let i = choose|i: int| 0 <= i < la@.len() && la@[i] == c;
            assert(b@.contains(la@[i]));
        }
        la@.unique_seq_to_set();
        lb@.unique_seq_to_set();
        vstd::set_lib::lemma_subset_equality(a@, b@);
    }
    true
}

/// Whether two occupancies are equal: same layers, heights, resolutions and cells.
pub fn occupancy_eq(a: &Occupancy, b: &Occupancy) -> (r: bool)
    ensures
        r == (a@ == b@),
{
    if a.layers.len() != b.layers.len() {
        assert(a@.len() != b@.len());
        return false;
    }
    let mut k: usize = 0;
    while k < a.layers.len()
        invariant
            k <= a.layers.len(),
            a.layers.len() == b.layers.len(),
            forall|i: int| 0 <= i < k ==> #[trigger] a@[i] == b@[i],
        decreases a.layers.len() - k,
    {
        let la = &a.layers[k];
        let lb = &b.layers[k];
        if la.z_um != lb.z_um || la.resolution_um != lb.resolution_um || !cells_equal(&la.cells, &lb.cells) {
            assert(a@[k as int] != b@[k as int]);
            return false;
        }
        k += 1;
    }
    assert(a@ =~= b@);
    true
}

/// Whether lowering preserves denotation: `denote_hi(prog) == denote_lo(lower(prog))` at the
/// given resolution. Lowering always does, so this holds of every program.
pub fn self_lowering_sound(program: &hi::Program, resolution_um: i64) -> (ok: bool)
    ensures
        ok,
{
    let hi_occ = denote_hi(program, resolution_um);
    let lowered = crate::lower::lower(program);
    let lo_occ = denote_lo(&lowered, resolution_um);
    proof {
        crate::lower::lemma_lowering_preserves_denotation(*program, lowered, resolution_um as int);
    }
    occupancy_eq(&hi_occ, &lo_occ)
}

/// The extruding paths of a list of toolpath values, in order.
pub open spec fn view_paths(vs: Seq<ToolpathView>) -> Seq<(Seq<Point>, i64)>
    decreases vs.len(),
{
    if vs.len() == 0 {
        Seq::empty()
    } else if vs.last().0 is Extrude {
        view_paths(vs.drop_last()).push(dpath(vs.last().1, vs.last().2))
    } else {
        view_paths(vs.drop_last())
    }
}

pub proof fn lemma_lo_paths_view(tps: Seq<lo::Toolpath>)
    ensures
        lo_paths(tps) == view_paths(tps.map_values(|t: lo::Toolpath| t@)),
    decreases tps.len(),
{
    if tps.len() > 0 {
        lemma_lo_paths_view(tps.drop_last());
        assert(tps.drop_last().map_values(|t: lo::Toolpath| t@) =~= tps.map_values(|t: lo::Toolpath| t@).drop_last());
    }
}

/// The denotation of a move plan given as plain values, layer by layer.
pub open spec fn view_occupancy(pv: Seq<(i64, Seq<ToolpathView>)>, res: int) -> Seq<(i64, i64, Set<(i64, i64)>)> {
    pv.map_values(|l: (i64, Seq<ToolpathView>)| layer_occupancy(view_paths(l.1), l.0, res))
}

/// The deposit of a move plan given as plain values, layer by layer.
pub open spec fn view_deposit(pv: Seq<(i64, Seq<ToolpathView>)>, res: int) -> Seq<(i64, i64, Map<(i64, i64), u32>)> {
    pv.map_values(|l: (i64, Seq<ToolpathView>)| layer_deposit(view_paths(l.1), l.0, res))
}

/// The denotation of a program is that of its plain value.
pub proof fn lemma_lo_occupancy_view(p: lo::Program, res: int)
    ensures
        lo_occupancy(p.layers@, res) == view_occupancy(p@, res),
        lo_deposit(p.layers@, res) == view_deposit(p@, res),
{
    assert forall|i: int| 0 <= i < p.layers@.len() implies lo_paths(#[trigger] p.layers@[i].toolpaths@) == view_paths(
        p@[i].1,
    ) by {
        lemma_lo_paths_view(p.layers@[i].toolpaths@);
    }
    assert(lo_occupancy(p.layers@, res) =~= view_occupancy(p@, res));
    assert(lo_deposit(p.layers@, res) =~= view_deposit(p@, res));
}

/// Equal per-cell path counts mean equal occupied cells: the deposit of a move plan determines its
/// occupancy, so a change that keeps the deposit keeps the occupancy.
pub proof fn lemma_deposit_determines_occupancy(
    p: Seq<(i64, Seq<ToolpathView>)>,
    q: Seq<(i64, Seq<ToolpathView>)>,
    res: int,
)
    requires
        view_deposit(p, res) == view_deposit(q, res),
    ensures
        view_occupancy(p, res) == view_occupancy(q, res),
{
    assert(view_deposit(p, res).len() == p.len());
    assert(view_deposit(q, res).len() == q.len());
    assert forall|k: int| 0 <= k < p.len() implies #[trigger] view_occupancy(p, res)[k] == view_occupancy(q, res)[k] by {
        let a = view_paths(p[k].1);
        let b = view_paths(q[k].1);
        assert(view_deposit(p, res)[k] == layer_deposit(a, p[k].0, res));
        assert(view_deposit(q, res)[k] == layer_deposit(b, q[k].0, res));
        assert(paths_count_map(a, res) == paths_count_map(b, res));
        assert forall|c: (i64, i64)| #[trigger] paths_cells(a, res).contains(c) <==> paths_cells(b, res).contains(c) by {
            lemma_count_positive(a, res, c);
            lemma_count_positive(b, res, c);
            assert(paths_count_map(a, res).dom().contains(c) == paths_count_map(b, res).dom().contains(c));
        }
        assert(paths_cells(a, res) =~= paths_cells(b, res));
    }
    assert(view_occupancy(p, res) =~= view_occupancy(q, res));
}

/// `b`'s paths are `a`'s, each traversed in the opposite direction.
pub open spec fn paths_reversed(a: Seq<(Seq<Point>, i64)>, b: Seq<(Seq<Point>, i64)>) -> bool {
    &&& a.len() == b.len()
    &&& forall|i: int| 0 <= i < a.len() ==> #[trigger] b[i] == (a[i].0.reverse(), a[i].1)
}

/// Region by region, `b` holds `a`'s fills with the points of each in reverse order.
pub open spec fn regions_reversed(a: Seq<hi::Region>, b: Seq<hi::Region>) -> bool {
    &&& a.len() == b.len()
    &&& forall|r: int| 0 <= r < a.len() ==> (#[trigger] b[r]).fills@.len() == a[r].fills@.len()
    &&& forall|r: int, f: int|
        0 <= r < a.len() && 0 <= f < a[r].fills@.len() ==> (#[trigger] b[r].fills@[f]).width_um == a[r].fills@[f].width_um
            && b[r].fills@[f].path.points@ == a[r].fills@[f].path.points@.reverse()
}

/// `q` is `p` with the points of every fill of every region in reverse order, all else equal.
pub open spec fn fills_reversed(p: Seq<hi::Layer>, q: Seq<hi::Layer>) -> bool {
    &&& p.len() == q.len()
    &&& forall|k: int| 0 <= k < p.len() ==> (#[trigger] q[k]).z_um == p[k].z_um
    &&& forall|k: int| 0 <= k < p.len() ==> regions_reversed(p[k].regions@, (#[trigger] q[k]).regions@)
}

proof fn lemma_hi_paths_reversed(a: Seq<hi::Region>, b: Seq<hi::Region>)
    requires
        regions_reversed(a, b),
    ensures
        paths_reversed(hi_paths(a), hi_paths(b)),
    decreases a.len(),
{
    if a.len() > 0 {
        let n = a.len() - 1;
        assert(regions_reversed(a.drop_last(), b.drop_last())) by {
            assert forall|r: int, f: int| 0 <= r < n && 0 <= f < a.drop_last()[r].fills@.len() implies (
            #[trigger] b.drop_last()[r].fills@[f]).width_um == a.drop_last()[r].fills@[f].width_um
                && b.drop_last()[r].fills@[f].path.points@ == a.drop_last()[r].fills@[f].path.points@.reverse() by {
                assert(b[r].fills@[f] == b.drop_last()[r].fills@[f]);
            }
        }
        lemma_hi_paths_reversed(a.drop_last(), b.drop_last());
        let ha = hi_paths(a.drop_last());
        let hb = hi_paths(b.drop_last());
        let fa = fill_paths(a.last().fills@);
        let fb = fill_paths(b.last().fills@);
        assert(b[n].fills@.len() == a[n].fills@.len());
        assert forall|i: int| 0 <= i < fa.len() implies #[trigger] fb[i] == (fa[i].0.reverse(), fa[i].1) by {
            assert(b[n].fills@[i].width_um == a[n].fills@[i].width_um);
        }
        assert forall|i: int| 0 <= i < (ha + fa).len() implies #[trigger] (hb + fb)[i] == ((ha + fa)[i].0.reverse(), (
        ha + fa)[i].1) by {
            if i < ha.len() {
                assert(hb[i] == (ha[i].0.reverse(), ha[i].1));
            } else {
                assert(fb[i - ha.len()] == (fa[i - ha.len()].0.reverse(), fa[i - ha.len()].1));
            }
        }
    }
}

proof fn lemma_count_reversed(a: Seq<(Seq<Point>, i64)>, b: Seq<(Seq<Point>, i64)>, res: int, c: (i64, i64))
    requires
        paths_reversed(a, b),
    ensures
        paths_count(b, res, c) == paths_count(a, res, c),
    decreases a.len(),
{
    if a.len() > 0 {
        assert(paths_reversed(a.drop_last(), b.drop_last())) by {
            assert forall|i: int| 0 <= i < a.drop_last().len() implies #[trigger] b.drop_last()[i] == (
            a.drop_last()[i].0.reverse(), a.drop_last()[i].1) by {
                assert(b[i] == (a[i].0.reverse(), a[i].1));
            }
        }
        lemma_count_reversed(a.drop_last(), b.drop_last(), res, c);
        assert(b[a.len() - 1] == (a[a.len() - 1].0.reverse(), a[a.len() - 1].1));
        lemma_path_reversal(a.last().0, a.last().1 as int, res);
    }
}

/// Reversing the points of every fill of a high-level program changes neither its denotation (the
/// occupied cells of each layer) nor its deposit (the per-cell path counts).
pub proof fn lemma_denote_hi_reversal(p: Seq<hi::Layer>, q: Seq<hi::Layer>, res: int)
    requires
        fills_reversed(p, q),
    ensures
        hi_occupancy(q, res) == hi_occupancy(p, res),
        hi_deposit(q, res) == hi_deposit(p, res),
{
    assert forall|k: int|
        #![trigger hi_occupancy(q, res)[k]]
        #![trigger hi_deposit(q, res)[k]]
        0 <= k < p.len() implies hi_occupancy(q, res)[k] == hi_occupancy(p, res)[k] && hi_deposit(q, res)[k]
            == hi_deposit(p, res)[k] by {
        let a = hi_paths(p[k].regions@);
        let b = hi_paths(q[k].regions@);
        assert(q[k].z_um == p[k].z_um);
        lemma_hi_paths_reversed(p[k].regions@, q[k].regions@);
        assert forall|c: (i64, i64)| #[trigger] paths_count(b, res, c) == paths_count(a, res, c) by {
            lemma_count_reversed(a, b, res, c);
        }
        lemma_same_counts(b, a, res);
    }
    assert(hi_occupancy(q, res) =~= hi_occupancy(p, res));
    assert(hi_deposit(q, res) =~= hi_deposit(p, res));
}

/// Counting over a concatenation adds the counts.
pub proof fn lemma_count_concat(a: Seq<(Seq<Point>, i64)>, b: Seq<(Seq<Point>, i64)>, res: int, c: (i64, i64))
    ensures
        paths_count(a + b, res, c) == paths_count(a, res, c) + paths_count(b, res, c),
    decreases b.len(),
{
    if b.len() == 0 {
        assert(a + b =~= a);
    } else {
        lemma_count_concat(a, b.drop_last(), res, c);
        assert((a + b).drop_last() =~= a + b.drop_last());
    }
}

/// Removing one path removes its contribution to the count.
pub proof fn lemma_count_remove(a: Seq<(Seq<Point>, i64)>, i: int, res: int, c: (i64, i64))
    requires
        0 <= i < a.len(),
    ensures
        paths_count(a, res, c) == paths_count(a.remove(i), res, c) + paths_count(seq![a[i]], res, c),
{
    assert(a =~= a.take(i) + (seq![a[i]] + a.skip(i + 1)));
    assert(a.remove(i) =~= a.take(i) + a.skip(i + 1));
    lemma_count_concat(a.take(i), seq![a[i]] + a.skip(i + 1), res, c);
    lemma_count_concat(seq![a[i]], a.skip(i + 1), res, c);
    lemma_count_concat(a.take(i), a.skip(i + 1), res, c);
}

/// Path sequences with the same per-cell counts have the same cells and the same deposit.
pub proof fn lemma_same_counts(a: Seq<(Seq<Point>, i64)>, b: Seq<(Seq<Point>, i64)>, res: int)
    requires
        forall|c: (i64, i64)| #[trigger] paths_count(a, res, c) == paths_count(b, res, c),
    ensures
        paths_cells(a, res) == paths_cells(b, res),
        paths_count_map(a, res) == paths_count_map(b, res),
{
    assert forall|c: (i64, i64)| #[trigger] paths_cells(a, res).contains(c) <==> paths_cells(b, res).contains(c) by {
        lemma_count_positive(a, res, c);
        lemma_count_positive(b, res, c);
        assert(paths_count(a, res, c) == paths_count(b, res, c));
    }
    assert(paths_cells(a, res) =~= paths_cells(b, res));
    assert(paths_count_map(a, res) =~= paths_count_map(b, res));
}

/// The entries of a per-cell count, in key order.
fn count_list(m: &BTreeMap<(i64, i64), u32>) -> (v: Vec<((i64, i64), u32)>)
    ensures
        v@.len() == m@.dom().len(),
        forall|t: int| 0 <= t < v@.len() ==> #[trigger] m@.contains_key(v@[t].0) && m@[v@[t].0] == v@[t].1,
        forall|k: (i64, i64)| #[trigger] m@.contains_key(k) ==> v@.contains((k, m@[k])),
{
    broadcast use vstd::std_specs::btree::group_btree_axioms;

    let ghost items = vstd::std_specs::iter::IteratorSpec::remaining(
        &vstd::std_specs::btree::spec_btree_map_iter(m),
    );
    let mut v: Vec<((i64, i64), u32)> = Vec::new();
    for kv in it: m.iter()
        invariant
            it.seq() == items,
            v@ == items.take(it.index() as int).map_values(|p: (&(i64, i64), &u32)| (*p.0, *p.1)),
    {
        let (k, c) = kv;
        v.push((*k, *c));
    }
    proof {
        let f = |p: (&(i64, i64), &u32)| (*p.0, *p.1);
        assert(v@ =~= items.map_values(f));
        assert forall|k: (i64, i64)| #[trigger] m@.contains_key(k) implies v@.contains((k, m@[k])) by {
            assert(items.contains((&k, &m@[k])));
            let t = choose|t: int| 0 <= t < items.len() && items[t] == (&k, &m@[k]);
            assert(v@[t] == (k, m@[k]));
        }
    }
    v
}

/// `m` maps the entry's cell to the entry's count.
pub open spec fn holds_entry(m: Map<(i64, i64), u32>, e: ((i64, i64), u32)) -> bool {
    m.contains_key(e.0) && m[e.0] == e.1
}

/// Whether two per-cell counts are equal.
#[verifier::spinoff_prover]
pub fn counts_equal(a: &BTreeMap<(i64, i64), u32>, b: &BTreeMap<(i64, i64), u32>) -> (r: bool)
    ensures
        r == (a@ == b@),
{
    broadcast use vstd::std_specs::btree::group_btree_axioms;

    if a.len() != b.len() {
        assert(a@.dom().len() != b@.dom().len());
        return false;
    }
    let entries = count_list(a);
    assert forall|s: int| 0 <= s < entries@.len() implies #[trigger] holds_entry(a@, entries@[s]) by {
        assert(a@.contains_key(entries@[s].0));
    }
    let mut t: usize = 0;
    while t < entries.len()
        invariant
            t <= entries.len(),
            forall|s: int| 0 <= s < entries@.len() ==> #[trigger] holds_entry(a@, entries@[s]),
            forall|s: int| 0 <= s < t ==> #[trigger] holds_entry(b@, entries@[s]),
        decreases entries.len() - t,
    {
        let (k, c) = entries[t];
        assert(holds_entry(a@, entries@[t as int]));
        match b.get(&k) {
            Some(w) => {
                if *w != c {
                    assert(a@[k] != b@[k]);
                    return false;
                }
                assert(entries@[t as int].0 == k && entries@[t as int].1 == c);
                assert(holds_entry(b@, entries@[t as int]));
            },
            None => {
                assert(a@.contains_key(k) && !b@.contains_key(k));
                return false;
            },
        }
        t += 1;
    }
    proof {
        assert forall|k: (i64, i64)| #[trigger] a@.contains_key(k) implies b@.contains_key(k) && b@[k]
            == a@[k] by {
            assert(entries@.contains((k, a@[k])));
            let s = choose|s: int| 0 <= s < entries@.len() && entries@[s] == (k, a@[k]);
            assert(holds_entry(b@, entries@[s]));
        }
        vstd::set_lib::lemma_subset_equality(a@.dom(), b@.dom());
        assert(a@ =~= b@);
    }
    true
}

/// Whether two deposits are equal: same layers, heights, resolutions and per-cell counts.
pub fn deposit_eq(a: &Deposit, b: &Deposit) -> (r: bool)
    ensures
        r == (a@ == b@),
{
    if a.layers.len() != b.layers.len() {
        assert(a@.len() != b@.len());
        return false;
    }
    let mut k: usize = 0;
    while k < a.layers.len()
        invariant
            k <= a.layers.len(),
            a.layers.len() == b.layers.len(),
            forall|i: int| 0 <= i < k ==> #[trigger] a@[i] == b@[i],
        decreases a.layers.len() - k,
    {
        let la = &a.layers[k];
        let lb = &b.layers[k];
        if la.z_um != lb.z_um || la.resolution_um != lb.resolution_um || !counts_equal(&la.cells, &lb.cells) {
            assert(a@[k as int] != b@[k as int]);
            return false;
        }
        k += 1;
    }
    assert(a@ =~= b@);
    true
}

} // verus!
