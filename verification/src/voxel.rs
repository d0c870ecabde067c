//! 3D voxel occupancy and exact grid rotations, built on the 2D denotation.
//!
//! [`voxelize`] lifts the per-layer occupancy to voxels on a uniform integer grid (resolution µm on
//! all three axes; each layer fills the Z range it deposits). On that grid exact 90° rotations are
//! integer index maps, with no precision loss. [`rotation_verdict`] turns the inner and outer bounds
//! of an arbitrary rotation into a sound verdict.
use std::collections::BTreeSet;

use vstd::prelude::*;
use vstd::std_specs::iter::IteratorSpec;

use crate::coverage::eff_res;
use crate::denote::{denote_lo, lo_occupancy};
use crate::ir::lo;
use crate::raster::cell_list;

verus! {

broadcast use vstd::laws_cmp::group_laws_cmp;

/// Occupied voxels `(i, j, k)` on a `resolution_um` grid (k derived from Z).
pub type Voxels = BTreeSet<(i64, i64, i64)>;

/// The height of layer `i` of a stack with heights `zs`: the override when given, else the rise
/// from the previous layer (layer 0 uses its own Z), at least one micron.
pub open spec fn layer_height(zs: Seq<i64>, i: int, override_um: Option<i64>) -> int {
    match override_um {
        Some(h) => h as int,
        None => if i == 0 {
            if zs[0] < 1 { 1 } else { zs[0] as int }
        } else {
            if zs[i] - zs[i - 1] < 1 { 1 } else { zs[i] - zs[i - 1] }
        },
    }
}

/// The voxel rows `[lo, hi)` a layer at `z` of height `h` fills at resolution `r`; at least one.
pub open spec fn k_range(z: int, h: int, r: int) -> (int, int) {
    let lo = (z - (if h < 1 { 1 } else { h })) / r;
    let hi = z / r;
    (lo, if hi < lo + 1 { lo + 1 } else { hi })
}

/// The voxels of a stack of layer occupancies with the given heights.
pub open spec fn voxels_of(o: Seq<(i64, i64, Set<(i64, i64)>)>, heights: Seq<int>, r: int) -> Set<(i64, i64, i64)> {
    Set::new(
        |v: (i64, i64, i64)|
            exists|l: int|
                0 <= l < o.len() && #[trigger] o[l].2.contains((v.0, v.1)) && k_range(o[l].0 as int, heights[l], r).0
                    <= v.2 < k_range(o[l].0 as int, heights[l], r).1,
    )
}

/// The layer heights of a program.
pub open spec fn program_heights(layers: Seq<lo::Layer>, override_um: Option<i64>) -> Seq<int> {
    Seq::new(layers.len(), |i: int| layer_height(layers.map_values(|l: lo::Layer| l.z_um), i, override_um))
}

/// The layer heights can be computed and every layer's voxel rows are `i64` indices.
pub open spec fn heights_fit(layers: Seq<lo::Layer>, override_um: Option<i64>) -> bool {
    forall|i: int|
        0 <= i < layers.len() ==> {
            &&& (i > 0 ==> i64::MIN <= #[trigger] layers[i].z_um - layers[i - 1].z_um <= i64::MAX)
            &&& i64::MIN <= layers[i].z_um - (if layer_height(
                layers.map_values(|l: lo::Layer| l.z_um),
                i,
                override_um,
            ) < 1 { 1 } else { layer_height(layers.map_values(|l: lo::Layer| l.z_um), i, override_um) })
        }
}

/// Per-layer heights (µm) from consecutive Z (layer 0 uses its own Z), or a fixed override.
fn layer_heights(program: &lo::Program, override_um: Option<i64>) -> (hs: Vec<i64>)
    requires
        heights_fit(program.layers@, override_um),
    ensures
        hs@.len() == program.layers@.len(),
        forall|i: int| 0 <= i < hs@.len() ==> #[trigger] hs@[i] == program_heights(program.layers@, override_um)[i],
{
    let ghost zs = program.layers@.map_values(|l: lo::Layer| l.z_um);
    let mut hs: Vec<i64> = Vec::new();
    let mut prev: Option<i64> = None;
    let mut i: usize = 0;
    while i < program.layers.len()
        invariant
            i <= program.layers.len(),
            zs == program.layers@.map_values(|l: lo::Layer| l.z_um),
            heights_fit(program.layers@, override_um),
            hs@.len() == i,
            prev == if i == 0 { None } else { Some(zs[i - 1]) },
            forall|t: int| 0 <= t < i ==> #[trigger] hs@[t] == layer_height(zs, t, override_um),
        decreases program.layers.len() - i,
    {
        let z = program.layers[i].z_um;
        proof {
            assert(zs[i as int] == z);
            if i > 0 {
                assert(i64::MIN <= program.layers@[i as int].z_um - program.layers@[i - 1].z_um <= i64::MAX);
            }
        }
        let h = match override_um {
            Some(o) => o,
            None => match prev {
                Some(p) => {
                    let d = z - p;
                    if d < 1 { 1 } else { d }
                },
                None => if z < 1 { 1 } else { z },
            },
        };
        hs.push(h);
        prev = Some(z);
        i += 1;
    }
    hs
}

/// The voxels of a set, each once.
fn voxel_list(s: &Voxels) -> (v: Vec<(i64, i64, i64)>)
    ensures
        v@.to_set() == s@,
        v@.no_duplicates(),
{
    broadcast use vstd::std_specs::btree::group_btree_axioms;

    let ghost items = IteratorSpec::remaining(&vstd::std_specs::btree::spec_btree_keys_iter(s));
    let mut v: Vec<(i64, i64, i64)> = Vec::new();
    for c in it: s.iter()
        invariant
            it.seq() == items,
            v@ == items.take(it.index() as int).map_values(|r: &(i64, i64, i64)| *r),
    {
        v.push(*c);
    }
    proof {
        assert(v@ =~= items.map_values(|r: &(i64, i64, i64)| *r));
        assert(items.unref() =~= items.map_values(|r: &(i64, i64, i64)| *r));
    }
    v
}

/// The voxels over the cells of `cells` in rows `[k_lo, k_end)`.
pub open spec fn column_voxels(cells: Set<(i64, i64)>, k_lo: int, k_end: int) -> Set<(i64, i64, i64)> {
    Set::new(|v: (i64, i64, i64)| cells.contains((v.0, v.1)) && k_lo <= v.2 < k_end)
}

/// Add the voxels of one layer: each cell, over rows `[k_lo, k_end)`.
fn fill_layer(out: &mut Voxels, cells: &BTreeSet<(i64, i64)>, k_lo: i64, k_end: i128)
    requires
        k_lo < k_end <= i64::MAX as int + 1,
    ensures
        final(out)@ == old(out)@.union(column_voxels(cells@, k_lo as int, k_end as int)),
{
    let list = cell_list(cells);
    let ghost init = out@;
    let mut m: usize = 0;
    while m < list.len()
        invariant
            m <= list.len(),
            k_lo < k_end <= i64::MAX as int + 1,
            list@.to_set() == cells@,
            out@ == init.union(column_voxels(list@.take(m as int).to_set(), k_lo as int, k_end as int)),
        decreases list.len() - m,
    {
        let (ci, cj) = list[m];
        let ghost before = out@;
        let mut k: i128 = k_lo as i128;
        while k < k_end
            invariant
                k_lo <= k <= k_end,
                k_end <= i64::MAX as int + 1,
                out@ == before.union(Set::new(|v: (i64, i64, i64)| v.0 == ci && v.1 == cj && k_lo <= v.2 < k)),
            decreases k_end - k,
        {
            out.insert((ci, cj, k as i64));
            k += 1;
            assert(out@ =~= before.union(Set::new(|v: (i64, i64, i64)| v.0 == ci && v.1 == cj && k_lo <= v.2 < k)));
        }
        proof {
            assert(list@.take(m + 1) =~= list@.take(m as int).push(list@[m as int]));
            list@.take(m as int).lemma_push_to_set_commute(list@[m as int]);
            assert(out@ =~= init.union(column_voxels(list@.take(m + 1).to_set(), k_lo as int, k_end as int)));
        }
        m += 1;
    }
    assert(list@.take(m as int) =~= list@);
}

proof fn lemma_voxels_step(o: Seq<(i64, i64, Set<(i64, i64)>)>, hs: Seq<int>, r: int, l: int)
    requires
        0 <= l < o.len(),
    ensures
        voxels_of(o.take(l + 1), hs, r) == voxels_of(o.take(l), hs, r).union(
            column_voxels(o[l].2, k_range(o[l].0 as int, hs[l], r).0, k_range(o[l].0 as int, hs[l], r).1),
        ),
{
    let a = voxels_of(o.take(l + 1), hs, r);
    let b = voxels_of(o.take(l), hs, r);
    let kr = k_range(o[l].0 as int, hs[l], r);
    assert forall|v: (i64, i64, i64)| #[trigger] a.contains(v) <==> b.union(column_voxels(o[l].2, kr.0, kr.1)).contains(v) by {
        if a.contains(v) {
            let t = choose|t: int|
                0 <= t < l + 1 && #[trigger] o.take(l + 1)[t].2.contains((v.0, v.1)) && k_range(o.take(l + 1)[t].0 as int, hs[t], r).0
                    <= v.2 < k_range(o.take(l + 1)[t].0 as int, hs[t], r).1;
            if t < l {
                assert(o.take(l)[t] == o.take(l + 1)[t]);
            }
        }
        if b.contains(v) {
            let t = choose|t: int|
                0 <= t < l && #[trigger] o.take(l)[t].2.contains((v.0, v.1)) && k_range(o.take(l)[t].0 as int, hs[t], r).0
                    <= v.2 < k_range(o.take(l)[t].0 as int, hs[t], r).1;
            assert(o.take(l + 1)[t] == o.take(l)[t]);
        }
        if column_voxels(o[l].2, kr.0, kr.1).contains(v) {
            assert(o.take(l + 1)[l] == o[l]);
        }
    }
    assert(a =~= b.union(column_voxels(o[l].2, kr.0, kr.1)));
}

/// Lift a program's deposited material to 3D voxels: each layer's 2D cells, extruded over the Z
/// range `[z - height, z)` it deposits, on a uniform `resolution_um` grid.
pub fn voxelize(program: &lo::Program, resolution_um: i64, layer_height_um: Option<i64>) -> (out: Voxels)
    requires
        heights_fit(program.layers@, layer_height_um),
    ensures
        out@ == voxels_of(
            lo_occupancy(program.layers@, eff_res(resolution_um as int)),
            program_heights(program.layers@, layer_height_um),
            eff_res(resolution_um as int),
        ),
{
    let r: i64 = if resolution_um < 1 { 1 } else { resolution_um };
    let heights = layer_heights(program, layer_height_um);
    let occ = denote_lo(program, r);
    let ghost o = occ@;
    let ghost hs = program_heights(program.layers@, layer_height_um);
    let mut out: Voxels = BTreeSet::new();
    let mut l: usize = 0;
    assert(o.take(0) =~= Seq::<(i64, i64, Set<(i64, i64)>)>::empty());
    assert(out@ =~= voxels_of(o.take(0), hs, r as int));
    while l < occ.layers.len()
        invariant
            l <= occ.layers.len(),
            r == eff_res(resolution_um as int),
            o == occ@,
            o == lo_occupancy(program.layers@, r as int),
            heights@.len() == o.len(),
            hs == program_heights(program.layers@, layer_height_um),
            forall|i: int| 0 <= i < heights@.len() ==> #[trigger] heights@[i] == hs[i],
            heights_fit(program.layers@, layer_height_um),
            out@ == voxels_of(o.take(l as int), hs, r as int),
        decreases occ.layers.len() - l,
    {
        let layer = &occ.layers[l];
        let h = heights[l];
        let z = layer.z_um;
        proof {
            assert(o[l as int] == layer@);
            assert(z == program.layers@[l as int].z_um);
            assert(hs[l as int] == layer_height(
                program.layers@.map_values(|l: lo::Layer| l.z_um),
                l as int,
                layer_height_um,
            ));
            crate::coverage::lemma_div_range(z as int, r as int);
        }
        let hh: i64 = if h < 1 { 1 } else { h };
        proof {
            crate::coverage::lemma_div_range(z - hh, r as int);
        }
        let k_hi = z.checked_div_euclid(r).unwrap();
        let k_lo = (z - hh).checked_div_euclid(r).unwrap();
        let k_end: i128 = if (k_hi as i128) < k_lo as i128 + 1 { k_lo as i128 + 1 } else { k_hi as i128 };
        proof {
            assert(k_range(z as int, hs[l as int], r as int) == (k_lo as int, k_end as int));
            lemma_voxels_step(o, hs, r as int, l as int);
        }
        fill_layer(&mut out, &layer.cells, k_lo, k_end);
        l += 1;
    }
    assert(o.take(l as int) =~= o);
    out
}

/// Which of the three exact 90° rotations: about X, Y or Z.
pub open spec fn rot_spec(axis: u8, v: (i64, i64, i64)) -> (i64, i64, i64) {
    if axis == 0 {
        (v.0, (-1 - v.2) as i64, v.1)
    } else if axis == 1 {
        (v.2, v.1, (-1 - v.0) as i64)
    } else {
        ((-1 - v.1) as i64, v.0, v.2)
    }
}

/// A voxel set rotated by a quarter turn about one axis.
pub open spec fn rotated(axis: u8, s: Set<(i64, i64, i64)>) -> Set<(i64, i64, i64)> {
    Set::new(|w: (i64, i64, i64)| exists|v: (i64, i64, i64)| s.contains(v) && w == #[trigger] rot_spec(axis, v))
}

fn rotate(v: &Voxels, axis: u8) -> (out: Voxels)
    ensures
        out@ == rotated(axis, v@),
        out@.len() == v@.len(),
{
    let list = voxel_list(v);
    proof {
        vstd::seq_lib::seq_to_set_is_finite(list@);
        lemma_rotation_keeps_count(axis, v@);
    }
    let mut out: Voxels = BTreeSet::new();
    let mut k: usize = 0;
    assert(list@.take(0).to_set() =~= Set::<(i64, i64, i64)>::empty());
    assert(out@ =~= rotated(axis, list@.take(0).to_set()));
    while k < list.len()
        invariant
            k <= list.len(),
            out@ == rotated(axis, list@.take(k as int).to_set()),
        decreases list.len() - k,
    {
        let (i, j, kk) = list[k];
        let w = if axis == 0 {
            (i, -1 - kk, j)
        } else if axis == 1 {
            (kk, j, -1 - i)
        } else {
            (-1 - j, i, kk)
        };
        out.insert(w);
        proof {
            let x = list@[k as int];
            assert(w == rot_spec(axis, x));
            assert(list@.take(k + 1) =~= list@.take(k as int).push(x));
            list@.take(k as int).lemma_push_to_set_commute(x);
            let s0 = list@.take(k as int).to_set();
            assert forall|u: (i64, i64, i64)| #[trigger] rotated(axis, s0.insert(x)).contains(u) <==> out@.contains(u) by {
                if rotated(axis, s0.insert(x)).contains(u) {
                    let v = choose|v: (i64, i64, i64)| s0.insert(x).contains(v) && u == #[trigger] rot_spec(axis, v);
                    if v != x {
                        assert(rotated(axis, s0).contains(u));
                    }
                }
                if rotated(axis, s0).contains(u) {
                    let v = choose|v: (i64, i64, i64)| s0.contains(v) && u == #[trigger] rot_spec(axis, v);
                    assert(s0.insert(x).contains(v));
                }
            }
            assert(out@ =~= rotated(axis, list@.take(k + 1).to_set()));
        }
        k += 1;
    }
    assert(list@.take(k as int) =~= list@);
    out
}

/// Exact 90° rotation CCW about +Z: `(i, j, k) -> (-j-1, i, k)`.
pub fn rot_z90(v: &Voxels) -> (out: Voxels)
    ensures
        out@ == rotated(2, v@),
        out@.len() == v@.len(),
{
    rotate(v, 2)
}

/// Exact 90° rotation CCW about +X: `(i, j, k) -> (i, -k-1, j)`.
pub fn rot_x90(v: &Voxels) -> (out: Voxels)
    ensures
        out@ == rotated(0, v@),
        out@.len() == v@.len(),
{
    rotate(v, 0)
}

/// Exact 90° rotation CCW about +Y: `(i, j, k) -> (k, j, -i-1)`.
pub fn rot_y90(v: &Voxels) -> (out: Voxels)
    ensures
        out@ == rotated(1, v@),
        out@.len() == v@.len(),
{
    rotate(v, 1)
}

/// Four quarter turns about the same axis are the identity, on every voxel set.
pub proof fn lemma_rotation_order_four(axis: u8, s: Set<(i64, i64, i64)>)
    ensures
        rotated(axis, rotated(axis, rotated(axis, rotated(axis, s)))) == s,
{
    let r1 = rotated(axis, s);
    let r2 = rotated(axis, r1);
    let r3 = rotated(axis, r2);
    let r4 = rotated(axis, r3);
    assert forall|v: (i64, i64, i64)| #[trigger] r4.contains(v) <==> s.contains(v) by {
        let a = rot_spec(axis, v);
        let b = rot_spec(axis, a);
        let c = rot_spec(axis, b);
        let d = rot_spec(axis, c);
        assert(d == v);
        if s.contains(v) {
            assert(r1.contains(a));
            assert(r2.contains(b));
            assert(r3.contains(c));
        }
        if r4.contains(v) {
            let v3 = choose|x: (i64, i64, i64)| r3.contains(x) && v == #[trigger] rot_spec(axis, x);
            let v2 = choose|x: (i64, i64, i64)| r2.contains(x) && v3 == #[trigger] rot_spec(axis, x);
            let v1 = choose|x: (i64, i64, i64)| r1.contains(x) && v2 == #[trigger] rot_spec(axis, x);
            let v0 = choose|x: (i64, i64, i64)| s.contains(x) && v1 == #[trigger] rot_spec(axis, x);
            assert(rot_spec(axis, rot_spec(axis, rot_spec(axis, rot_spec(axis, v0)))) == v0);
        }
    }
    assert(r4 =~= s);
}

/// A voxel's centre in half-voxel units: voxel `(i, j, k)` spans `[i, i+1)` and so on, so its
/// centre doubled is `(2i+1, 2j+1, 2k+1)`.
pub open spec fn centre2(v: (i64, i64, i64)) -> (int, int, int) {
    (2 * v.0 + 1, 2 * v.1 + 1, 2 * v.2 + 1)
}

/// The counter-clockwise quarter turn of space (right-handed, looking down the axis) about X
/// (`axis` 0), Y (1) or Z (otherwise): `(x, y, z)` to `(x, -z, y)`, `(z, y, -x)` or `(-y, x, z)`.
pub open spec fn quarter_turn(axis: u8, c: (int, int, int)) -> (int, int, int) {
    if axis == 0 {
        (c.0, -c.2, c.1)
    } else if axis == 1 {
        (c.2, c.1, -c.0)
    } else {
        (-c.1, c.0, c.2)
    }
}

/// The half turn of a voxel about an axis: the two coordinates across the axis mirror through
/// the origin's cell corner.
pub open spec fn half_turn(axis: u8, v: (i64, i64, i64)) -> (int, int, int) {
    if axis == 0 {
        (v.0 as int, -1 - v.1, -1 - v.2)
    } else if axis == 1 {
        (-1 - v.0, v.1 as int, -1 - v.2)
    } else {
        (-1 - v.0, -1 - v.1, v.2 as int)
    }
}

/// A voxel rotated by a quarter turn is the voxel whose centre is the rotated centre: the map
/// moves each cube rigidly, a rotation and not a reflection, and two quarter turns make the half
/// turn about the same axis.
pub proof fn lemma_quarter_turn_moves_centres(axis: u8, v: (i64, i64, i64))
    ensures
        centre2(rot_spec(axis, v)) == quarter_turn(axis, centre2(v)),
        ({
            let w = rot_spec(axis, rot_spec(axis, v));
            (w.0 as int, w.1 as int, w.2 as int) == half_turn(axis, v)
        }),
{
}

/// A rotated voxel set holds exactly the voxels whose centres are the rotated centres of the
/// set's voxels.
pub proof fn lemma_rotated_sets_turn_centres(axis: u8, s: Set<(i64, i64, i64)>, w: (i64, i64, i64))
    ensures
        rotated(axis, s).contains(w) <==> exists|v: (i64, i64, i64)| s.contains(v) && centre2(w) == quarter_turn(
            axis,
            #[trigger] centre2(v),
        ),
{
    if rotated(axis, s).contains(w) {
        let v = choose|v: (i64, i64, i64)| s.contains(v) && w == #[trigger] rot_spec(axis, v);
        lemma_quarter_turn_moves_centres(axis, v);
        assert(centre2(w) == quarter_turn(axis, centre2(v)));
    }
    if exists|v: (i64, i64, i64)| s.contains(v) && centre2(w) == quarter_turn(axis, #[trigger] centre2(v)) {
        let v = choose|v: (i64, i64, i64)| s.contains(v) && centre2(w) == quarter_turn(axis, #[trigger] centre2(v));
        lemma_quarter_turn_moves_centres(axis, v);
        assert(w == rot_spec(axis, v));
    }
}

/// A quarter turn keeps the number of voxels of every finite voxel set: it maps distinct voxels to
/// distinct voxels.
pub proof fn lemma_rotation_keeps_count(axis: u8, s: Set<(i64, i64, i64)>)
    requires
        s.finite(),
    ensures
        rotated(axis, s).finite(),
        rotated(axis, s).len() == s.len(),
{
    let f = |v: (i64, i64, i64)| rot_spec(axis, v);
    assert forall|a: (i64, i64, i64), b: (i64, i64, i64)| s.contains(a) && s.contains(b) && #[trigger] f(a)
        == #[trigger] f(b) implies a == b by {
        assert(-1 - a.0 == (-1 - a.0) as i64 && -1 - b.0 == (-1 - b.0) as i64);
        assert(-1 - a.1 == (-1 - a.1) as i64 && -1 - b.1 == (-1 - b.1) as i64);
        assert(-1 - a.2 == (-1 - a.2) as i64 && -1 - b.2 == (-1 - b.2) as i64);
    }
    assert(vstd::relations::injective_on(f, s));
    assert(s.map(f) =~= rotated(axis, s));
    vstd::set_lib::lemma_map_size(s, rotated(axis, s), f);
}

/// The sound verdict of comparing `b` against `a` rotated by an arbitrary angle about X (or Y).
#[derive(Clone, Copy, Debug, PartialEq, Eq, Structural)]
pub enum RotationVerdict {
    /// Every voxel of `b` is possibly-covered by the rotation and every definitely-covered voxel is
    /// in `b`: the two agree to within the grid's discretization.
    SameWithinGrid,
    /// `b` has a voxel outside the rotation's outer bound, or misses a definitely-covered voxel:
    /// they differ by more than the discretization.
    DefinitelyDiffer,
}

fn is_subset(a: &Voxels, b: &Voxels) -> (r: bool)
    ensures
        r == a@.subset_of(b@),
{
    let list = voxel_list(a);
    let mut k: usize = 0;
    while k < list.len()
        invariant
            k <= list.len(),
            list@.to_set() == a@,
            forall|t: int| 0 <= t < k ==> #[trigger] b@.contains(list@[t]),
        decreases list.len() - k,
    {
        if !b.contains(&list[k]) {
            assert(list@.contains(list@[k as int]));
            return false;
        }
        k += 1;
    }
    assert forall|v: (i64, i64, i64)| #[trigger] a@.contains(v) implies b@.contains(v) by {
        assert(list@.contains(v));
        let t = choose|t: int| 0 <= t < list@.len() && list@[t] == v;
    }
    true
}

/// The verdict of comparing `b` against a rotation bracketed by `inner` (definitely covered) and
/// `outer` (possibly covered): the same within the grid when `b` lies within the outer bound and
/// covers the inner one.
pub fn rotation_verdict(inner: &Voxels, outer: &Voxels, b: &Voxels) -> (v: RotationVerdict)
    ensures
        v == (if b@.subset_of(outer@) && inner@.subset_of(b@) {
            RotationVerdict::SameWithinGrid
        } else {
            RotationVerdict::DefinitelyDiffer
        }),
{
    if is_subset(b, outer) && is_subset(inner, b) {
        RotationVerdict::SameWithinGrid
    } else {
        RotationVerdict::DefinitelyDiffer
    }
}

} // verus!
