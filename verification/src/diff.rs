//! Differential comparison of two programs (or G-code files) by what they physically deposit.
//!
//! Each side is denoted to per-layer material occupancy, then compared matched by layer height (Z),
//! not by line order, up to the raster resolution, yielding per-layer and total counts of cells
//! only in A, only in B and shared. The intersection-over-union similarity is
//! `total_shared / (total_shared + total_only_in_a + total_only_in_b)`.
use std::collections::BTreeSet;

use vstd::prelude::*;
use vstd::string::StringSliceAdditionalSpecFns;

use crate::denote::{denote_lo, lo_occupancy, Occupancy};
use crate::frontend::gcode::{layers_ok, parse};
use crate::ir::lo;
use crate::raster::{cell_list, sorted_enum};
use crate::render::{insert_sorted, layer_heights};

verus! {

/// Per-layer (matched by Z) material difference between two files.
#[derive(Clone, Debug, PartialEq, Eq)]
pub struct LayerDiff {
    pub z_um: i64,
    /// Occupied cells present only in A / only in B / in both, at this layer height.
    pub only_in_a: usize,
    pub only_in_b: usize,
    pub shared: usize,
}

/// The result of diffing two programs' (or files') deposited material.
#[derive(Clone, Debug, PartialEq, Eq)]
pub struct GcodeDiff {
    pub resolution_um: i64,
    /// True iff the two inputs deposit the same material at every layer (up to resolution).
    /// Trivially true when both are empty; check [`GcodeDiff::both_empty`] first.
    pub identical: bool,
    /// True iff neither input yielded deposited material.
    pub both_empty: bool,
    pub total_only_in_a: usize,
    pub total_only_in_b: usize,
    pub total_shared: usize,
    pub layers: Vec<LayerDiff>,
}

/// All cells of the layers of `o` at height `z`.
pub open spec fn cells_at(o: Seq<(i64, i64, Set<(i64, i64)>)>, z: i64) -> Set<(i64, i64)> {
    Set::new(|c: (i64, i64)| exists|k: int| 0 <= k < o.len() && o[k].0 == z && (#[trigger] o[k].2).contains(c))
}

/// The three counts of one height: only in A, only in B, shared.
pub open spec fn counts_at(
    oa: Seq<(i64, i64, Set<(i64, i64)>)>,
    ob: Seq<(i64, i64, Set<(i64, i64)>)>,
    z: i64,
) -> (nat, nat, nat) {
    let ca = cells_at(oa, z);
    let cb = cells_at(ob, z);
    (ca.difference(cb).len(), cb.difference(ca).len(), ca.intersect(cb).len())
}

/// Sum of one of the three counts over a list of heights.
pub open spec fn total(
    oa: Seq<(i64, i64, Set<(i64, i64)>)>,
    ob: Seq<(i64, i64, Set<(i64, i64)>)>,
    zs: Seq<i64>,
    which: int,
) -> nat
    decreases zs.len(),
{
    if zs.len() == 0 {
        0
    } else {
        let c = counts_at(oa, ob, zs.last());
        total(oa, ob, zs.drop_last(), which) + if which == 0 {
            c.0
        } else if which == 1 {
            c.1
        } else {
            c.2
        }
    }
}

/// `d` is the material diff of the two occupancies: one entry per layer height of either side in
/// increasing height with that height's counts, and totals, `identical` and `both_empty` to match
/// (totals exact whenever they fit in `usize`).
pub open spec fn is_diff(
    oa: Seq<(i64, i64, Set<(i64, i64)>)>,
    ob: Seq<(i64, i64, Set<(i64, i64)>)>,
    resolution_um: i64,
    d: GcodeDiff,
) -> bool {
    let zs = d.layers@.map_values(|l: LayerDiff| l.z_um);
    let ta = total(oa, ob, zs, 0);
    let tb = total(oa, ob, zs, 1);
    let ts = total(oa, ob, zs, 2);
    &&& d.resolution_um == resolution_um
    &&& forall|i: int, j: int| 0 <= i < j < zs.len() ==> zs[i] < zs[j]
    &&& forall|z: i64| zs.contains(z) <==> #[trigger] layer_heights(oa).union(layer_heights(ob)).contains(z)
    &&& forall|i: int|
        0 <= i < d.layers@.len() ==> {
            let c = counts_at(oa, ob, (#[trigger] d.layers@[i]).z_um);
            d.layers@[i].only_in_a == c.0 && d.layers@[i].only_in_b == c.1 && d.layers@[i].shared == c.2
        }
    &&& d.identical == (ta == 0 && tb == 0)
    &&& d.both_empty == (ta + tb + ts == 0)
    &&& (ta <= usize::MAX ==> d.total_only_in_a == ta)
    &&& (tb <= usize::MAX ==> d.total_only_in_b == tb)
    &&& (ts <= usize::MAX ==> d.total_shared == ts)
}

/// Number of elements of `q` that `s` holds (`inside`) or does not hold.
pub open spec fn count_in(q: Seq<(i64, i64)>, s: Set<(i64, i64)>, inside: bool) -> nat
    decreases q.len(),
{
    if q.len() == 0 {
        0
    } else {
        count_in(q.drop_last(), s, inside) + if s.contains(q.last()) == inside { 1nat } else { 0nat }
    }
}

proof fn lemma_count_in(q: Seq<(i64, i64)>, s: Set<(i64, i64)>, inside: bool)
    requires
        q.no_duplicates(),
    ensures
        q.to_set().filter(|c: (i64, i64)| s.contains(c) == inside).finite(),
        count_in(q, s, inside) == q.to_set().filter(|c: (i64, i64)| s.contains(c) == inside).len(),
    decreases q.len(),
{
    let f = |c: (i64, i64)| s.contains(c) == inside;
    if q.len() == 0 {
        assert(q.to_set().filter(f) =~= Set::<(i64, i64)>::empty());
    } else {
        let p = q.drop_last();
        let x = q.last();
        assert(p.no_duplicates()) by {
            assert forall|i: int, j: int| 0 <= i < p.len() && 0 <= j < p.len() && i != j implies p[i] != p[j] by {
                assert(p[i] == q[i] && p[j] == q[j]);
            }
        }
        lemma_count_in(p, s, inside);
        assert(q =~= p.push(x));
        p.lemma_push_to_set_commute(x);
        assert(!p.to_set().contains(x)) by {
            if p.contains(x) {
                let t = choose|t: int| 0 <= t < p.len() && p[t] == x;
                assert(q[t] == q[q.len() - 1]);
            }
        }
        if f(x) {
            assert(q.to_set().filter(f) =~= p.to_set().filter(f).insert(x));
        } else {
            assert(q.to_set().filter(f) =~= p.to_set().filter(f));
        }
    }
}

/// The three counts of two cell sets: only in `a`, only in `b`, shared.
fn set_counts(a: &BTreeSet<(i64, i64)>, b: &BTreeSet<(i64, i64)>) -> (r: (usize, usize, usize))
    ensures
        a@.difference(b@).finite() && b@.difference(a@).finite() && a@.intersect(b@).finite(),
        r.0 == a@.difference(b@).len(),
        r.1 == b@.difference(a@).len(),
        r.2 == a@.intersect(b@).len(),
{
    let la = cell_list(a);
    let lb = cell_list(b);
    let mut oa: usize = 0;
    let mut sh: usize = 0;
    let mut k: usize = 0;
    while k < la.len()
        invariant
            k <= la.len(),
            oa == count_in(la@.take(k as int), b@, false),
            sh == count_in(la@.take(k as int), b@, true),
            oa + sh == k,
        decreases la.len() - k,
    {
        proof {
            assert(la@.take(k + 1).drop_last() =~= la@.take(k as int));
        }
        if b.contains(&la[k]) {
            sh += 1;
        } else {
            oa += 1;
        }
        k += 1;
    }
    let mut ob: usize = 0;
    let mut k: usize = 0;
    while k < lb.len()
        invariant
            k <= lb.len(),
            ob == count_in(lb@.take(k as int), a@, false),
            ob <= k,
        decreases lb.len() - k,
    {
        proof {
            assert(lb@.take(k + 1).drop_last() =~= lb@.take(k as int));
        }
        if !a.contains(&lb[k]) {
            ob += 1;
        }
        k += 1;
    }
    proof {
        assert(la@.take(la@.len() as int) =~= la@);
        assert(lb@.take(lb@.len() as int) =~= lb@);
        lemma_count_in(la@, b@, false);
        lemma_count_in(la@, b@, true);
        lemma_count_in(lb@, a@, false);
        assert(la@.to_set().filter(|c: (i64, i64)| b@.contains(c) == false) =~= a@.difference(b@));
        assert(la@.to_set().filter(|c: (i64, i64)| b@.contains(c) == true) =~= a@.intersect(b@));
        assert(lb@.to_set().filter(|c: (i64, i64)| a@.contains(c) == false) =~= b@.difference(a@));
    }
    (oa, ob, sh)
}

/// All cells of the layers of `o` at height `z`.
fn cells_at_height(o: &Occupancy, z: i64) -> (r: BTreeSet<(i64, i64)>)
    ensures
        r@ == cells_at(o@, z),
{
    broadcast use vstd::std_specs::btree::group_btree_axioms;

    let mut out: BTreeSet<(i64, i64)> = BTreeSet::new();
    let mut l: usize = 0;
    while l < o.layers.len()
        invariant
            l <= o.layers.len(),
            out@ == cells_at(o@.take(l as int), z),
        decreases o.layers.len() - l,
    {
        proof {
            assert(o@.take(l + 1)[l as int] == o.layers@[l as int]@);
        }
        if o.layers[l].z_um == z {
            let list = cell_list(&o.layers[l].cells);
            let ghost base = out@;
            let mut k: usize = 0;
            while k < list.len()
                invariant
                    k <= list.len(),
                    l < o.layers.len(),
                    sorted_enum(list@, o.layers@[l as int].cells@),
                    out@ == base.union(list@.take(k as int).to_set()),
                decreases list.len() - k,
            {
                out.insert(list[k]);
                proof {
                    assert(list@.take(k + 1) =~= list@.take(k as int).push(list@[k as int]));
                    list@.take(k as int).lemma_push_to_set_commute(list@[k as int]);
                    assert(out@ =~= base.union(list@.take(k + 1).to_set()));
                }
                k += 1;
            }
            proof {
                assert(list@.take(list@.len() as int) =~= list@);
                assert(list@.to_set() == o.layers@[l as int].cells@);
                assert(o@.take(l + 1)[l as int].2 == o.layers@[l as int].cells@);
                assert(o@.take(l + 1)[l as int].0 == z);
                assert(out@ =~= cells_at(o@.take(l + 1), z)) by {
                    assert forall|c: (i64, i64)| #[trigger] out@.contains(c) <==> cells_at(o@.take(l + 1), z).contains(c) by {
                        if list@.to_set().contains(c) {
                            assert(o@.take(l + 1)[l as int].2.contains(c));
                        }
                        if cells_at(o@.take(l + 1), z).contains(c) {
                            let t = choose|t: int|
                                0 <= t < o@.take(l + 1).len() && o@.take(l + 1)[t].0 == z && (#[trigger] o@.take(
                                    l + 1,
                                )[t].2).contains(c);
                            if t < l {
                                assert(o@.take(l as int)[t] == o@.take(l + 1)[t]);
                                assert(cells_at(o@.take(l as int), z).contains(c));
                            }
                        }
                        if base.contains(c) {
                            let t = choose|t: int|
                                0 <= t < o@.take(l as int).len() && o@.take(l as int)[t].0 == z && (#[trigger] o@.take(
                                    l as int,
                                )[t].2).contains(c);
                            assert(o@.take(l as int)[t] == o@.take(l + 1)[t]);
                        }
                    }
                }
            }
        } else {
            proof {
                assert(cells_at(o@.take(l + 1), z) =~= cells_at(o@.take(l as int), z)) by {
                    assert forall|c: (i64, i64)| #[trigger] cells_at(o@.take(l + 1), z).contains(c) implies cells_at(
                        o@.take(l as int),
                        z,
                    ).contains(c) by {
                        let t = choose|t: int|
                            0 <= t < o@.take(l + 1).len() && o@.take(l + 1)[t].0 == z && (#[trigger] o@.take(
                                l + 1,
                            )[t].2).contains(c);
                        assert(o@.take(l as int)[t] == o@.take(l + 1)[t]);
                    }
                    assert forall|c: (i64, i64)| #[trigger] cells_at(o@.take(l as int), z).contains(c) implies cells_at(
                        o@.take(l + 1),
                        z,
                    ).contains(c) by {
                        let t = choose|t: int|
                            0 <= t < o@.take(l as int).len() && o@.take(l as int)[t].0 == z && (#[trigger] o@.take(
                                l as int,
                            )[t].2).contains(c);
                        assert(o@.take(l as int)[t] == o@.take(l + 1)[t]);
                    }
                }
            }
        }
        l += 1;
    }
    proof {
        assert(o@.take(l as int) =~= o@);
    }
    out
}

/// Compare two occupancies by deposited material, layer heights matched.
pub fn diff_occupancy(oa: &Occupancy, ob: &Occupancy, resolution_um: i64) -> (d: GcodeDiff)
    ensures
        is_diff(oa@, ob@, resolution_um, d),
{
    let mut zs: Vec<i64> = Vec::new();
    let mut k: usize = 0;
    while k < oa.layers.len()
        invariant
            k <= oa.layers.len(),
            forall|i: int, j: int| 0 <= i < j < zs@.len() ==> zs@[i] < zs@[j],
            forall|z: i64|
                #[trigger] zs@.to_set().contains(z) <==> exists|t: int| 0 <= t < k && (#[trigger] oa@[t]).0 == z,
        decreases oa.layers.len() - k,
    {
        let ghost before = zs@;
        insert_sorted(&mut zs, oa.layers[k].z_um);
        proof {
            assert(oa@[k as int].0 == oa.layers@[k as int].z_um);
            assert forall|z: i64| #[trigger] zs@.to_set().contains(z) <==> exists|t: int| 0 <= t < k + 1 && (#[trigger] oa@[t]).0 == z by {
                if zs@.to_set().contains(z) && z != oa@[k as int].0 {
                    assert(before.to_set().contains(z));
                }
            }
        }
        k += 1;
    }
    let mut k: usize = 0;
    while k < ob.layers.len()
        invariant
            k <= ob.layers.len(),
            forall|i: int, j: int| 0 <= i < j < zs@.len() ==> zs@[i] < zs@[j],
            forall|z: i64|
                #[trigger] zs@.to_set().contains(z) <==> (layer_heights(oa@).contains(z) || exists|t: int|
                    0 <= t < k && (#[trigger] ob@[t]).0 == z),
        decreases ob.layers.len() - k,
    {
        let ghost before = zs@;
        insert_sorted(&mut zs, ob.layers[k].z_um);
        proof {
            assert(ob@[k as int].0 == ob.layers@[k as int].z_um);
            assert forall|z: i64| #[trigger] zs@.to_set().contains(z) <==> (layer_heights(oa@).contains(z)
                || exists|t: int| 0 <= t < k + 1 && (#[trigger] ob@[t]).0 == z) by {
                if zs@.to_set().contains(z) && z != ob@[k as int].0 {
                    assert(before.to_set().contains(z));
                }
            }
        }
        k += 1;
    }
    let mut layers: Vec<LayerDiff> = Vec::new();
    let mut ta: u128 = 0;
    let mut tb: u128 = 0;
    let mut ts: u128 = 0;
    let mut i: usize = 0;
    while i < zs.len()
        invariant
            i <= zs.len(),
            layers@.len() == i,
            forall|t: int| 0 <= t < i ==> (#[trigger] layers@[t]).z_um == zs@[t],
            forall|t: int|
                0 <= t < i ==> {
                    let c = counts_at(oa@, ob@, (#[trigger] layers@[t]).z_um);
                    layers@[t].only_in_a == c.0 && layers@[t].only_in_b == c.1 && layers@[t].shared == c.2
                },
            ta == total(oa@, ob@, zs@.take(i as int), 0),
            tb == total(oa@, ob@, zs@.take(i as int), 1),
            ts == total(oa@, ob@, zs@.take(i as int), 2),
            ta <= i * 0x1_0000_0000_0000_0000,
            tb <= i * 0x1_0000_0000_0000_0000,
            ts <= i * 0x1_0000_0000_0000_0000,
        decreases zs.len() - i,
    {
        let z = zs[i];
        let ca = cells_at_height(oa, z);
        let cb = cells_at_height(ob, z);
        let (a, b, s) = set_counts(&ca, &cb);
        proof {
            assert(zs@.take(i + 1).drop_last() =~= zs@.take(i as int));
            assert(zs@.take(i + 1).last() == z);
            assert(i * 0x1_0000_0000_0000_0000 + 0x1_0000_0000_0000_0000 == (i + 1) * 0x1_0000_0000_0000_0000)
                by (nonlinear_arith);
            assert(i * 0x1_0000_0000_0000_0000 + 0x1_0000_0000_0000_0000 <= 0x1_0000_0000_0000_0000 * 0x1_0000_0000_0000_0000)
                by (nonlinear_arith)
                requires
                    i < 0xFFFF_FFFF_FFFF_FFFF,
            ;
        }
        ta = ta + a as u128;
        tb = tb + b as u128;
        ts = ts + s as u128;
        layers.push(LayerDiff { z_um: z, only_in_a: a, only_in_b: b, shared: s });
        i += 1;
    }
    proof {
        assert(zs@.take(zs@.len() as int) =~= zs@);
        let zv = layers@.map_values(|l: LayerDiff| l.z_um);
        assert(zv =~= zs@);
        assert forall|z: i64| zv.contains(z) <==> #[trigger] layer_heights(oa@).union(layer_heights(ob@)).contains(z) by {
            if zv.contains(z) {
                assert(zs@.to_set().contains(z));
                if !layer_heights(oa@).contains(z) {
                    let u = choose|u: int| 0 <= u < ob@.len() && (#[trigger] ob@[u]).0 == z;
                    assert(layer_heights(ob@).contains(z));
                }
            }
            if layer_heights(oa@).union(layer_heights(ob@)).contains(z) {
                if layer_heights(ob@).contains(z) {
                    let u = choose|u: int| 0 <= u < ob@.len() && (#[trigger] ob@[u]).0 == z;
                    assert(exists|t: int| 0 <= t < ob.layers@.len() && (#[trigger] ob@[t]).0 == z);
                }
                assert(zs@.to_set().contains(z));
            }
        }
    }
    GcodeDiff {
        resolution_um,
        identical: ta == 0 && tb == 0,
        both_empty: ta == 0 && tb == 0 && ts == 0,
        total_only_in_a: if ta <= usize::MAX as u128 { ta as usize } else { usize::MAX },
        total_only_in_b: if tb <= usize::MAX as u128 { tb as usize } else { usize::MAX },
        total_shared: if ts <= usize::MAX as u128 { ts as usize } else { usize::MAX },
        layers,
    }
}

/// Compare two low-level programs by the material they deposit, at a chosen raster resolution.
pub fn diff_programs(a: &lo::Program, b: &lo::Program, resolution_um: i64) -> (d: GcodeDiff)
    ensures
        is_diff(
            lo_occupancy(a.layers@, resolution_um as int),
            lo_occupancy(b.layers@, resolution_um as int),
            resolution_um,
            d,
        ),
{
    let oa = denote_lo(a, resolution_um);
    let ob = denote_lo(b, resolution_um);
    diff_occupancy(&oa, &ob, resolution_um)
}

/// Compare two G-code files by deposited material, at a chosen raster resolution.
pub fn diff_gcode(a: &str, b: &str, resolution_um: i64) -> (d: GcodeDiff)
    requires
        a.spec_bytes().len() <= isize::MAX,
        b.spec_bytes().len() <= isize::MAX,
    ensures
        exists|pa: lo::Program, pb: lo::Program|
            {
                &&& pa@ == crate::frontend::machine::gcode_plan(a.spec_bytes())
                &&& pb@ == crate::frontend::machine::gcode_plan(b.spec_bytes())
                &&& layers_ok(pa.layers@)
                &&& layers_ok(pb.layers@)
                &&& is_diff(
                    lo_occupancy(pa.layers@, resolution_um as int),
                    lo_occupancy(pb.layers@, resolution_um as int),
                    resolution_um,
                    d,
                )
            },
{
    let ra = parse(a);
    let rb = parse(b);
    let d = diff_programs(&ra.program, &rb.program, resolution_um);
    proof {
        let pa = ra.program;
        assert(layers_ok(pa.layers@));
    }
    d
}

} // verus!
