//! Geometric analyses over a move plan, built on the denotation: over-deposition and a heuristic
//! travel-vs-material check.
use std::collections::{BTreeMap, BTreeSet};

use vstd::prelude::*;

use crate::coverage::{eff_res, path_cells};
use crate::denote::{denote_lo, denote_lo_deposit, lo_deposit, lo_occupancy};
use crate::ir::lo::{self, SegmentKind, ToolpathView};
use crate::ir::Point;
use crate::raster::{cell_list, ordered_cells, polyline_cells, sorted_enum};

verus! {

broadcast use vstd::laws_cmp::group_laws_cmp;

/// Over-deposition stats from the per-cell deposition count.
#[derive(Clone, Debug, PartialEq, Eq)]
pub struct DepositStats {
    pub resolution_um: i64,
    /// Distinct occupied cells (== occupancy size).
    pub total_cells: u64,
    /// Cells covered by more than one path: potential over-extrusion.
    pub over_deposited_cells: u64,
    /// Sum over cells of (count - 1): total "extra" depositions beyond a single pass.
    pub redeposited_cells: u64,
    /// The largest number of distinct paths over any single cell.
    pub max_multiplicity: u32,
}

/// Statistics of the counts of the cells `q`: how many cells, how many over-deposited, the extra
/// depositions, and the largest count.
pub open spec fn seq_stats(q: Seq<(i64, i64)>, m: Map<(i64, i64), u32>) -> (int, int, int, int)
    decreases q.len(),
{
    if q.len() == 0 {
        (0, 0, 0, 0)
    } else {
        let s = seq_stats(q.drop_last(), m);
        let v = m[q.last()] as int;
        (
            s.0 + 1,
            s.1 + if v > 1 { 1int } else { 0int },
            s.2 + if v > 1 { v - 1 } else { 0int },
            if v > s.3 { v } else { s.3 },
        )
    }
}

/// Statistics over every layer of a deposit, cells taken in increasing order.
pub open spec fn deposit_totals(d: Seq<(i64, i64, Map<(i64, i64), u32>)>) -> (int, int, int, int)
    decreases d.len(),
{
    if d.len() == 0 {
        (0, 0, 0, 0)
    } else {
        let a = deposit_totals(d.drop_last());
        let b = seq_stats(ordered_cells(d.last().2.dom()), d.last().2);
        (a.0 + b.0, a.1 + b.1, a.2 + b.2, if b.3 > a.3 { b.3 } else { a.3 })
    }
}

proof fn lemma_seq_stats_bounds(q: Seq<(i64, i64)>, m: Map<(i64, i64), u32>, k: int)
    requires
        0 <= k <= q.len(),
    ensures
        seq_stats(q.take(k), m).0 <= seq_stats(q, m).0,
        seq_stats(q.take(k), m).1 <= seq_stats(q, m).1,
        seq_stats(q.take(k), m).2 <= seq_stats(q, m).2,
        0 <= seq_stats(q.take(k), m).1 <= seq_stats(q.take(k), m).0,
        0 <= seq_stats(q.take(k), m).2,
        0 <= seq_stats(q.take(k), m).3 <= u32::MAX,
    decreases q.len(),
{
    if k < q.len() {
        assert(q.drop_last().take(k) =~= q.take(k));
        lemma_seq_stats_bounds(q.drop_last(), m, k);
        lemma_seq_stats_bounds(q.drop_last(), m, q.len() - 1);
        assert(q.drop_last().take(q.len() - 1) =~= q.drop_last());
    } else {
        assert(q.take(k) =~= q);
        if q.len() > 0 {
            lemma_seq_stats_bounds(q.drop_last(), m, q.len() - 1);
            assert(q.drop_last().take(q.len() - 1) =~= q.drop_last());
        }
    }
}

proof fn lemma_totals_bounds(d: Seq<(i64, i64, Map<(i64, i64), u32>)>, k: int)
    requires
        0 <= k <= d.len(),
    ensures
        deposit_totals(d.take(k)).0 <= deposit_totals(d).0,
        deposit_totals(d.take(k)).1 <= deposit_totals(d).1,
        deposit_totals(d.take(k)).2 <= deposit_totals(d).2,
        0 <= deposit_totals(d.take(k)).1 <= deposit_totals(d.take(k)).0,
        0 <= deposit_totals(d.take(k)).2,
        0 <= deposit_totals(d.take(k)).3 <= u32::MAX,
    decreases d.len(),
{
    if d.len() > 0 {
        let q = ordered_cells(d.last().2.dom());
        lemma_seq_stats_bounds(q, d.last().2, q.len() as int);
        assert(q.take(q.len() as int) =~= q);
    }
    if k < d.len() {
        assert(d.drop_last().take(k) =~= d.take(k));
        lemma_totals_bounds(d.drop_last(), k);
        lemma_totals_bounds(d.drop_last(), d.len() - 1);
        assert(d.drop_last().take(d.len() - 1) =~= d.drop_last());
    } else {
        assert(d.take(k) =~= d);
        if d.len() > 0 {
            lemma_totals_bounds(d.drop_last(), d.len() - 1);
            assert(d.drop_last().take(d.len() - 1) =~= d.drop_last());
        }
    }
}

/// The keys of a per-cell count, as a set.
fn key_set(m: &BTreeMap<(i64, i64), u32>) -> (s: BTreeSet<(i64, i64)>)
    ensures
        s@ == m@.dom(),
{
    broadcast use vstd::std_specs::btree::group_btree_axioms;

    let ghost items = vstd::std_specs::iter::IteratorSpec::remaining(
        &vstd::std_specs::btree::spec_btree_map_iter(m),
    );
    let mut s: BTreeSet<(i64, i64)> = BTreeSet::new();
    for kv in it: m.iter()
        invariant
            it.seq() == items,
            s@ == items.take(it.index() as int).map_values(|p: (&(i64, i64), &u32)| *p.0).to_set(),
    {
        let (k, _v) = kv;
        let ghost before = items.take(it.index() as int).map_values(|p: (&(i64, i64), &u32)| *p.0);
        s.insert(*k);
        proof {
            assert(items.take(it.index() + 1).map_values(|p: (&(i64, i64), &u32)| *p.0) =~= before.push(*k));
            before.lemma_push_to_set_commute(*k);
        }
    }
    proof {
        let keys = items.map_values(|p: (&(i64, i64), &u32)| *p.0);
        assert(items.take(items.len() as int) =~= items);
        assert forall|k: (i64, i64)| #[trigger] s@.contains(k) <==> m@.dom().contains(k) by {
            if m@.dom().contains(k) {
                assert(items.contains((&k, &m@[k])));
                let t = choose|t: int| 0 <= t < items.len() && items[t] == (&k, &m@[k]);
                assert(keys[t] == k);
                assert(keys.contains(k));
            }
            if s@.contains(k) {
                assert(keys.contains(k));
                let t = choose|t: int| 0 <= t < keys.len() && keys[t] == k;
                assert(m@.contains_key(*items[t].0));
            }
        }
        assert(s@ =~= m@.dom());
    }
    s
}

/// Compute over-deposition stats at a resolution. This counts paths per cell, not filament volume.
pub fn deposit_stats(program: &lo::Program, resolution_um: i64) -> (s: DepositStats)
    requires
        forall|i: int| 0 <= i < program.layers@.len() ==> #[trigger] program.layers@[i].toolpaths@.len() <= u32::MAX,
        deposit_totals(lo_deposit(program.layers@, resolution_um as int)).0 <= u64::MAX,
        deposit_totals(lo_deposit(program.layers@, resolution_um as int)).2 <= u64::MAX,
    ensures
        ({
            let t = deposit_totals(lo_deposit(program.layers@, resolution_um as int));
            &&& s.resolution_um == eff_res(resolution_um as int)
            &&& s.total_cells == t.0
            &&& s.over_deposited_cells == t.1
            &&& s.redeposited_cells == t.2
            &&& s.max_multiplicity == t.3
        }),
{
    let dep = denote_lo_deposit(program, resolution_um);
    let ghost d = dep@;
    let mut total: u64 = 0;
    let mut over: u64 = 0;
    let mut redep: u64 = 0;
    let mut maxm: u32 = 0;
    let mut l: usize = 0;
    proof {
        lemma_totals_bounds(d, d.len() as int);
        assert(d.take(d.len() as int) =~= d);
        assert(d.take(0) =~= Seq::<(i64, i64, Map<(i64, i64), u32>)>::empty());
    }
    while l < dep.layers.len()
        invariant
            l <= dep.layers.len(),
            d == dep@,
            deposit_totals(d).0 <= u64::MAX,
            deposit_totals(d).2 <= u64::MAX,
            (total as int, over as int, redep as int, maxm as int) == deposit_totals(d.take(l as int)),
        decreases dep.layers.len() - l,
    {
        let m = &dep.layers[l].cells;
        proof {
            assert(d[l as int].2 == m@);
            lemma_totals_bounds(d, l + 1);
            lemma_totals_bounds(d, l as int);
            assert(d.take(l + 1).drop_last() =~= d.take(l as int));
        }
        let keys = key_set(m);
        let list = cell_list(&keys);
        let ghost q = list@;
        let ghost base = (total as int, over as int, redep as int, maxm as int);
        proof {
            assert(q == ordered_cells(d[l as int].2.dom()));
            assert(d.take(l + 1).last() == d[l as int]);
        }
        let mut k: usize = 0;
        proof {
            assert(q.take(0) =~= Seq::<(i64, i64)>::empty());
            lemma_seq_stats_bounds(q, m@, q.len() as int);
            assert(q.take(q.len() as int) =~= q);
        }
        while k < list.len()
            invariant
                k <= list.len(),
                q == list@,
                q.to_set() == m@.dom(),
                base == deposit_totals(d.take(l as int)),
                base.0 + seq_stats(q, m@).0 <= u64::MAX,
                base.2 + seq_stats(q, m@).2 <= u64::MAX,
                0 <= base.3 <= u32::MAX,
                0 <= base.1 <= base.0,
                over <= total,
                total == base.0 + seq_stats(q.take(k as int), m@).0,
                over == base.1 + seq_stats(q.take(k as int), m@).1,
                redep == base.2 + seq_stats(q.take(k as int), m@).2,
                maxm == (if seq_stats(q.take(k as int), m@).3 > base.3 { seq_stats(q.take(k as int), m@).3 } else { base.3 }),
            decreases list.len() - k,
        {
            let c = list[k];
            proof {
                assert(q.contains(c));
                assert(m@.dom().contains(c));
                assert(q.take(k + 1).drop_last() =~= q.take(k as int));
                lemma_seq_stats_bounds(q, m@, k + 1);
            }
            let v: u32 = match m.get(&c) {
                Some(x) => *x,
                None => 0,
            };
            total = total + 1;
            if v > 1 {
                over = over + 1;
                redep = redep + (v - 1) as u64;
            }
            if v > maxm {
                maxm = v;
            }
            k += 1;
        }
        proof {
            assert(q.take(k as int) =~= q);
            assert(q == ordered_cells(d[l as int].2.dom()));
            assert(d.take(l + 1).last() == d[l as int]);
        }
        l += 1;
    }
    proof {
        assert(d.take(l as int) =~= d);
    }
    let r: i64 = if resolution_um < 1 { 1 } else { resolution_um };
    DepositStats {
        resolution_um: r,
        total_cells: total,
        over_deposited_cells: over,
        redeposited_cells: redep,
        max_multiplicity: maxm,
    }
}

/// Travel-vs-material crossing events in a layer (a nozzle-drag / stringing proxy).
#[derive(Clone, Debug, PartialEq, Eq)]
pub struct LayerCollisions {
    pub z_um: i64,
    /// Number of (travel, deposited-cell) crossing events: a cell dragged over by N distinct travels
    /// counts N, deduplicated within a single travel.
    pub crossed_cells: u64,
}

/// Heuristic, report-only travel-vs-material check across a program.
#[derive(Clone, Debug, PartialEq, Eq)]
pub struct TravelCollisions {
    pub resolution_um: i64,
    pub total: u64,
    pub per_layer: Vec<LayerCollisions>,
}

/// The cell a point lies in at resolution `r`.
pub open spec fn cell_of_spec(p: Point, r: int) -> (i64, i64) {
    (((p.x as int) / r) as i64, ((p.y as int) / r) as i64)
}

/// Whether a cell a travel passes counts as a crossing: deposited, and not an end of the travel.
pub open spec fn crosses(c: (i64, i64), s: (i64, i64), e: (i64, i64), deposited: Set<(i64, i64)>) -> bool {
    c != s && c != e && deposited.contains(c)
}

/// The deposited cells one travel move passes through, its end cells excluded.
pub open spec fn crossed_set(t: ToolpathView, deposited: Set<(i64, i64)>, r: int) -> Set<(i64, i64)> {
    let s = cell_of_spec(t.1[0], r);
    let e = cell_of_spec(t.1.last(), r);
    Set::new(|c: (i64, i64)| path_cells(t.1, 0, r).contains(c) && crosses(c, s, e, deposited))
}

/// The crossing events of one toolpath: none unless it is a travel of at least two points.
pub open spec fn crossings(t: ToolpathView, deposited: Set<(i64, i64)>, r: int) -> int {
    if t.0 is Travel && t.1.len() >= 2 {
        crossed_set(t, deposited, r).len() as int
    } else {
        0
    }
}

/// The crossing events of a layer's toolpaths.
pub open spec fn layer_crossings(ts: Seq<ToolpathView>, deposited: Set<(i64, i64)>, r: int) -> int
    decreases ts.len(),
{
    if ts.len() == 0 {
        0
    } else {
        layer_crossings(ts.drop_last(), deposited, r) + crossings(ts.last(), deposited, r)
    }
}

/// The crossing events of every layer of a program against its own occupancy.
pub open spec fn program_crossings(pv: Seq<(i64, Seq<ToolpathView>)>, o: Seq<(i64, i64, Set<(i64, i64)>)>, r: int) -> Seq<int> {
    Seq::new(pv.len(), |l: int| layer_crossings(pv[l].1, o[l].2, r))
}

/// The crossing events of each layer of a program at a resolution.
pub open spec fn collision_counts(p: lo::Program, res: int) -> Seq<int> {
    program_crossings(p@, lo_occupancy(p.layers@, eff_res(res)), eff_res(res))
}

/// A layer's report holds its height and its crossing count.
pub open spec fn layer_report(r: LayerCollisions, z: i64, n: int) -> bool {
    r.z_um == z && r.crossed_cells == n
}

/// The sum of a sequence of counts.
pub open spec fn seq_total(s: Seq<int>) -> int
    decreases s.len(),
{
    if s.len() == 0 {
        0
    } else {
        seq_total(s.drop_last()) + s.last()
    }
}

/// How many cells of a list cross.
pub open spec fn count_crossing(q: Seq<(i64, i64)>, s: (i64, i64), e: (i64, i64), deposited: Set<(i64, i64)>) -> int
    decreases q.len(),
{
    if q.len() == 0 {
        0
    } else {
        count_crossing(q.drop_last(), s, e, deposited) + if crosses(q.last(), s, e, deposited) { 1int } else { 0int }
    }
}

proof fn lemma_count_crossing(q: Seq<(i64, i64)>, s: (i64, i64), e: (i64, i64), deposited: Set<(i64, i64)>)
    requires
        q.no_duplicates(),
    ensures
        count_crossing(q, s, e, deposited) == Set::new(
            |c: (i64, i64)| q.to_set().contains(c) && crosses(c, s, e, deposited),
        ).len(),
        Set::new(|c: (i64, i64)| q.to_set().contains(c) && crosses(c, s, e, deposited)).finite(),
    decreases q.len(),
{
    let f = Set::new(|c: (i64, i64)| q.to_set().contains(c) && crosses(c, s, e, deposited));
    if q.len() == 0 {
        assert(f =~= Set::empty());
    } else {
        let d = q.drop_last();
        let x = q.last();
        lemma_count_crossing(d, s, e, deposited);
        let g = Set::new(|c: (i64, i64)| d.to_set().contains(c) && crosses(c, s, e, deposited));
        assert(q =~= d.push(x));
        d.lemma_push_to_set_commute(x);
        assert(!d.contains(x)) by {
            if d.contains(x) {
                let t = choose|t: int| 0 <= t < d.len() && d[t] == x;
                assert(q[t] == q[q.len() - 1]);
            }
        }
        if crosses(x, s, e, deposited) {
            assert(f =~= g.insert(x));
        } else {
            assert(f =~= g);
        }
    }
}

/// The cell a point lies in at resolution `r >= 1`.
fn cell_of(p: Point, r: i64) -> (c: (i64, i64))
    requires
        r >= 1,
    ensures
        c == cell_of_spec(p, r as int),
{
    proof {
        crate::coverage::lemma_div_range(p.x as int, r as int);
        crate::coverage::lemma_div_range(p.y as int, r as int);
    }
    (p.x.checked_div_euclid(r).unwrap(), p.y.checked_div_euclid(r).unwrap())
}

/// The crossing events of one toolpath.
fn toolpath_crossings(t: &lo::Toolpath, deposited: &BTreeSet<(i64, i64)>, r: i64) -> (n: u64)
    requires
        r >= 1,
    ensures
        n == crossings(t@, deposited@, r as int),
{
    if t.kind.extrudes() || t.path.points.len() < 2 {
        return 0;
    }
    let pts = &t.path.points;
    let s = cell_of(pts[0], r);
    let e = cell_of(pts[pts.len() - 1], r);
    let cells = polyline_cells(&t.path, 0, r);
    let list = cell_list(&cells);
    let mut n: u64 = 0;
    let mut k: usize = 0;
    assert(list@.take(0) =~= Seq::<(i64, i64)>::empty());
    while k < list.len()
        invariant
            k <= list.len(),
            n == count_crossing(list@.take(k as int), s, e, deposited@),
            n <= k,
        decreases list.len() - k,
    {
        let c = list[k];
        proof {
            assert(list@.take(k + 1).drop_last() =~= list@.take(k as int));
        }
        let is_s = c.0 == s.0 && c.1 == s.1;
        let is_e = c.0 == e.0 && c.1 == e.1;
        if !is_s && !is_e && deposited.contains(&c) {
            n = n + 1;
        }
        k += 1;
    }
    proof {
        assert(list@.take(k as int) =~= list@);
        lemma_count_crossing(list@, s, e, deposited@);
        assert(Set::new(|c: (i64, i64)| list@.to_set().contains(c) && crosses(c, s, e, deposited@))
            =~= crossed_set(t@, deposited@, r as int));
    }
    n
}

/// Count, per layer, the deposited cells each travel move passes through: a heuristic proxy for
/// nozzle-drag / stringing risk. Endpoint cells are excluded, since a travel legitimately starts and
/// ends at deposited geometry. Report-only and resolution-bounded, not exact collision detection.
pub fn travel_collisions(program: &lo::Program, resolution_um: i64) -> (tc: TravelCollisions)
    requires
        forall|l: int| 0 <= l < program@.len() ==> #[trigger] program_crossings(
            program@,
            lo_occupancy(program.layers@, eff_res(resolution_um as int)),
            eff_res(resolution_um as int),
        )[l] <= u64::MAX,
        seq_total(
            program_crossings(
                program@,
                lo_occupancy(program.layers@, eff_res(resolution_um as int)),
                eff_res(resolution_um as int),
            ),
        ) <= u64::MAX,
    ensures
        tc.resolution_um == eff_res(resolution_um as int),
        tc.total == seq_total(collision_counts(*program, resolution_um as int)),
        tc.per_layer@.len() == program.layers@.len(),
        forall|l: int|
            0 <= l < program.layers@.len() ==> #[trigger] layer_report(
                tc.per_layer@[l],
                program.layers@[l].z_um,
                collision_counts(*program, resolution_um as int)[l],
            ),
{
    let r: i64 = if resolution_um < 1 { 1 } else { resolution_um };
    let occ = denote_lo(program, r);
    let ghost o = occ@;
    let ghost counts = program_crossings(program@, o, r as int);
    let mut total: u64 = 0;
    let mut per_layer: Vec<LayerCollisions> = Vec::new();
    let mut l: usize = 0;
    proof {
        assert forall|i: int| 0 <= i < counts.len() implies #[trigger] counts[i] >= 0 by {
            lemma_layer_crossings_prefix(program@[i].1, o[i].2, r as int, program@[i].1.len() as int);
            assert(program@[i].1.take(0) =~= Seq::<ToolpathView>::empty());
            assert(layer_crossings(Seq::<ToolpathView>::empty(), o[i].2, r as int) == 0);
            assert(program@[i].1.take(program@[i].1.len() as int) =~= program@[i].1);
            assert(counts[i] == layer_crossings(program@[i].1, o[i].2, r as int));
        }
        lemma_seq_total_prefix(counts, counts.len() as int);
        assert(counts.take(counts.len() as int) =~= counts);
    }
    while l < program.layers.len()
        invariant
            l <= program.layers.len(),
            r >= 1,
            o == occ@,
            o.len() == program.layers.len(),
            counts == program_crossings(program@, o, r as int),
            forall|l: int| 0 <= l < program@.len() ==> #[trigger] counts[l] <= u64::MAX,
            seq_total(counts) <= u64::MAX,
            forall|k: int| 0 <= k <= counts.len() ==> #[trigger] seq_total(counts.take(k)) <= seq_total(counts),
            total == seq_total(counts.take(l as int)),
            per_layer@.len() == l,
            forall|t: int| 0 <= t < l ==> #[trigger] layer_report(per_layer@[t], program.layers@[t].z_um, counts[t]),
        decreases program.layers.len() - l,
    {
        let layer = &program.layers[l];
        let deposited = &occ.layers[l].cells;
        let ghost dset = o[l as int].2;
        proof {
            assert(deposited@ == dset);
        }
        let tps = &layer.toolpaths;
        let ghost tv = layer@.1;
        let mut crossed: u64 = 0;
        let mut k: usize = 0;
        proof {
            assert(tv.take(0) =~= Seq::<ToolpathView>::empty());
            lemma_layer_crossings_prefix(tv, dset, r as int, tv.len() as int);
            assert(tv.take(tv.len() as int) =~= tv);
            assert(counts[l as int] == layer_crossings(tv, dset, r as int));
        }
        while k < tps.len()
            invariant
                k <= tps.len(),
                r >= 1,
                tv == layer@.1,
                tps == &layer.toolpaths,
                deposited@ == dset,
                layer_crossings(tv, dset, r as int) <= u64::MAX,
                forall|j: int| 0 <= j <= tv.len() ==> #[trigger] layer_crossings(tv.take(j), dset, r as int) <= layer_crossings(tv, dset, r as int),
                crossed == layer_crossings(tv.take(k as int), dset, r as int),
            decreases tps.len() - k,
        {
            proof {
                assert(tv.take(k + 1).drop_last() =~= tv.take(k as int));
                assert(tv[k as int] == tps@[k as int]@);
            }
            let n = toolpath_crossings(&tps[k], deposited, r);
            proof {
                assert(layer_crossings(tv.take(k + 1), dset, r as int) <= layer_crossings(tv, dset, r as int));
            }
            crossed = crossed + n;
            k += 1;
        }
        proof {
            assert(tv.take(k as int) =~= tv);
            assert(counts.take(l + 1).drop_last() =~= counts.take(l as int));
            assert(seq_total(counts.take(l + 1)) <= seq_total(counts));
        }
        total = total + crossed;
        let rep = LayerCollisions { z_um: layer.z_um, crossed_cells: crossed };
        assert(layer_report(rep, program.layers@[l as int].z_um, counts[l as int]));
        per_layer.push(rep);
        l += 1;
    }
    proof {
        assert(counts.take(l as int) =~= counts);
        assert(r as int == eff_res(resolution_um as int));
        assert(o == lo_occupancy(program.layers@, eff_res(resolution_um as int)));
        assert(counts == program_crossings(
            program@,
            lo_occupancy(program.layers@, eff_res(resolution_um as int)),
            eff_res(resolution_um as int),
        ));
        assert(counts == collision_counts(*program, resolution_um as int));
        assert(total == seq_total(counts));
        assert(per_layer@.len() == program@.len());

    }
    TravelCollisions { resolution_um: r, total, per_layer }
}

proof fn lemma_seq_total_prefix(s: Seq<int>, n: int)
    requires
        0 <= n <= s.len(),
        forall|i: int| 0 <= i < s.len() ==> #[trigger] s[i] >= 0,
    ensures
        forall|k: int| 0 <= k <= n ==> #[trigger] seq_total(s.take(k)) <= seq_total(s.take(n)),
    decreases n,
{
    if n > 0 {
        lemma_seq_total_prefix(s, n - 1);
        assert(s.take(n).drop_last() =~= s.take(n - 1));
        assert forall|k: int| 0 <= k <= n implies #[trigger] seq_total(s.take(k)) <= seq_total(s.take(n)) by {
            if k < n {
                assert(seq_total(s.take(k)) <= seq_total(s.take(n - 1)));
            }
        }
    }
}

proof fn lemma_layer_crossings_prefix(ts: Seq<ToolpathView>, d: Set<(i64, i64)>, r: int, n: int)
    requires
        0 <= n <= ts.len(),
    ensures
        forall|k: int| 0 <= k <= n ==> #[trigger] layer_crossings(ts.take(k), d, r) <= layer_crossings(ts.take(n), d, r),
    decreases n,
{
    if n > 0 {
        lemma_layer_crossings_prefix(ts, d, r, n - 1);
        assert(ts.take(n).drop_last() =~= ts.take(n - 1));
    }
}

} // verus!
