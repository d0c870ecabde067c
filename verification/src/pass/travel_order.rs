//! The travel-order pass: reduce wasted non-printing movement.
//!
//! Per layer, greedily reorders extruding toolpaths (nearest-neighbour over endpoints), optionally
//! reversing an open path to shorten a hop, then regenerates travel moves. Reversing a path is safe
//! because the denotation is reversal-invariant ([`crate::raster::lemma_path_reversal`]).
use vstd::prelude::*;

use super::Pass;
use crate::coverage::{abs, abs128, lemma_abs_sq, path_cells};
use crate::denote::{
    dpath, lemma_count_concat, lemma_count_remove, lemma_same_counts, paths_count, view_deposit,
    view_occupancy, view_paths,
};
use crate::raster::lemma_path_reversal;
use crate::ir::lo::{self, SegmentKind, Toolpath, ToolpathView};
use crate::ir::{Point, Polyline};
use crate::wide::{add256, b256, le256, mul128, U256};

verus! {

/// Reorders each layer's extruding toolpaths to reduce travel distance.
#[derive(Clone, Copy, Debug)]
pub struct TravelOrder {
    /// Reference point the per-layer tour starts from.
    pub start: Point,
    /// Whether an open path may be traversed in reverse to shorten a hop.
    pub allow_reverse: bool,
}

impl Default for TravelOrder {
    fn default() -> (t: Self)
        ensures
            t.start == (Point { x: 0, y: 0 }),
            t.allow_reverse,
    {
        TravelOrder { start: Point::new(0, 0), allow_reverse: true }
    }
}

/// Squared Euclidean distance between two points, exactly.
pub open spec fn d2(a: Point, b: Point) -> int {
    (a.x - b.x) * (a.x - b.x) + (a.y - b.y) * (a.y - b.y)
}

/// Distance from `cur` to the front (or, reversed, the back) of a toolpath.
pub open spec fn end_d(cur: Point, t: ToolpathView, back: bool) -> int {
    d2(cur, if back { t.1.last() } else { t.1[0] })
}

/// The greedy choice among the first `n` candidates: index, whether reversed, and distance (`-1`
/// before any candidate). The nearest endpoint wins; on a tie the earlier path, and for one path
/// its front, wins.
pub open spec fn best_upto(cur: Point, ps: Seq<ToolpathView>, allow: bool, n: int) -> (int, bool, int)
    decreases n,
{
    if n <= 0 {
        (0, false, -1)
    } else {
        let b = best_upto(cur, ps, allow, n - 1);
        let df = end_d(cur, ps[n - 1], false);
        let f = if b.2 < 0 || df < b.2 { (n - 1, false, df) } else { b };
        let db = end_d(cur, ps[n - 1], true);
        if allow && db < f.2 {
            (n - 1, true, db)
        } else {
            f
        }
    }
}

/// A toolpath traversed forward, or backward.
pub open spec fn oriented(t: ToolpathView, rev: bool) -> ToolpathView {
    if rev {
        (t.0, t.1.reverse(), t.2, t.3)
    } else {
        t
    }
}

/// The greedy nearest-neighbour tour of non-empty paths from `cur`.
pub open spec fn greedy(cur: Point, ps: Seq<ToolpathView>, allow: bool) -> Seq<ToolpathView>
    decreases ps.len(),
{
    if ps.len() == 0 {
        Seq::empty()
    } else {
        let b = best_upto(cur, ps, allow, ps.len() as int);
        if 0 <= b.0 < ps.len() {
            let chosen = oriented(ps[b.0], b.1);
            seq![chosen] + greedy(chosen.1.last(), ps.remove(b.0), allow)
        } else {
            Seq::empty()
        }
    }
}

/// Where the last non-empty toolpath of a sequence ends.
pub open spec fn view_last_end(ts: Seq<ToolpathView>) -> Option<Point>
    decreases ts.len(),
{
    if ts.len() == 0 {
        None
    } else if ts.last().1.len() == 0 {
        view_last_end(ts.drop_last())
    } else {
        Some(ts.last().1.last())
    }
}

/// A travel move from `a` to `b`.
pub open spec fn travel_view(a: Point, b: Point) -> ToolpathView {
    (SegmentKind::Travel, seq![a, b], 0i64, None::<i64>)
}

/// A sequence of toolpaths with a travel inserted before each non-empty one whose start differs
/// from the previous non-empty one's end.
pub open spec fn connect(ts: Seq<ToolpathView>) -> Seq<ToolpathView>
    decreases ts.len(),
{
    if ts.len() == 0 {
        Seq::empty()
    } else {
        let prev = connect(ts.drop_last());
        let t = ts.last();
        if t.1.len() == 0 {
            prev.push(t)
        } else {
            let moved = match view_last_end(ts.drop_last()) {
                Some(e) => if e != t.1[0] {
                    prev.push(travel_view(e, t.1[0]))
                } else {
                    prev
                },
                None => prev,
            };
            moved.push(t)
        }
    }
}

/// The extruding toolpaths of a layer, in order.
pub open spec fn extruding(tps: Seq<ToolpathView>) -> Seq<ToolpathView>
    decreases tps.len(),
{
    if tps.len() == 0 {
        Seq::empty()
    } else if tps.last().0 is Extrude {
        extruding(tps.drop_last()).push(tps.last())
    } else {
        extruding(tps.drop_last())
    }
}

/// The toolpaths of a sequence that have points, in order.
pub open spec fn with_points(ts: Seq<ToolpathView>) -> Seq<ToolpathView>
    decreases ts.len(),
{
    if ts.len() == 0 {
        Seq::empty()
    } else if ts.last().1.len() > 0 {
        with_points(ts.drop_last()).push(ts.last())
    } else {
        with_points(ts.drop_last())
    }
}

/// The toolpaths of a sequence that have no points, in order.
pub open spec fn without_points(ts: Seq<ToolpathView>) -> Seq<ToolpathView>
    decreases ts.len(),
{
    if ts.len() == 0 {
        Seq::empty()
    } else if ts.last().1.len() == 0 {
        without_points(ts.drop_last()).push(ts.last())
    } else {
        without_points(ts.drop_last())
    }
}

/// A layer's toolpaths after the pass: the non-empty extruding paths in greedy order, then the
/// empty ones, connected by fresh travel moves.
pub open spec fn travel_layer(start: Point, allow: bool, tps: Seq<ToolpathView>) -> Seq<ToolpathView> {
    let ex = extruding(tps);
    connect(greedy(start, with_points(ex), allow) + without_points(ex))
}

/// Squared distance between two points, exactly, in 256 bits.
fn dist2(a: Point, b: Point) -> (d: U256)
    ensures
        d@ == d2(a, b),
{
    let dx = abs128(a.x as i128 - b.x as i128);
    let dy = abs128(a.y as i128 - b.y as i128);
    proof {
        lemma_abs_sq(a.x - b.x);
        lemma_abs_sq(a.y - b.y);
        assert(dx * dx <= 0x1_0000_0000_0000_0000 * 0x1_0000_0000_0000_0000) by (nonlinear_arith)
            requires
                dx <= 0x1_0000_0000_0000_0000,
        ;
        assert(dy * dy <= 0x1_0000_0000_0000_0000 * 0x1_0000_0000_0000_0000) by (nonlinear_arith)
            requires
                dy <= 0x1_0000_0000_0000_0000,
        ;
        crate::wide::lemma_consts();
    }
    let sx = mul128(dx, dx);
    let sy = mul128(dy, dy);
    add256(sx, sy)
}

/// A copy of a point list in reverse order.
fn reversed(v: &Vec<Point>) -> (r: Vec<Point>)
    ensures
        r@ == v@.reverse(),
{
    let mut r: Vec<Point> = Vec::new();
    let mut k: usize = v.len();
    while k > 0
        invariant
            k <= v.len(),
            r@ == v@.skip(k as int).reverse(),
        decreases k,
    {
        k -= 1;
        r.push(v[k]);
        assert(r@ =~= v@.skip(k as int).reverse());
    }
    assert(v@.skip(0) =~= v@);
    r
}

proof fn lemma_best_in_range(cur: Point, ps: Seq<ToolpathView>, allow: bool, n: int)
    requires
        1 <= n <= ps.len(),
    ensures
        0 <= best_upto(cur, ps, allow, n).0 < n,
        best_upto(cur, ps, allow, n).2 >= 0,
    decreases n,
{
    if n > 1 {
        lemma_best_in_range(cur, ps, allow, n - 1);
    } else {
        assert(best_upto(cur, ps, allow, 0) == (0int, false, -1int));
    }
    assert(end_d(cur, ps[n - 1], false) >= 0 && end_d(cur, ps[n - 1], true) >= 0) by (nonlinear_arith);
}

impl TravelOrder {
    /// Greedy nearest-neighbour ordering of non-empty extruding paths.
    fn order(&self, paths: Vec<Toolpath>) -> (ordered: Vec<Toolpath>)
        requires
            forall|i: int| 0 <= i < paths@.len() ==> #[trigger] paths@[i].path.points@.len() > 0,
        ensures
            ordered@.map_values(|t: Toolpath| t@) == greedy(
                self.start,
                paths@.map_values(|t: Toolpath| t@),
                self.allow_reverse,
            ),
    {
        let ghost target = greedy(self.start, paths@.map_values(|t: Toolpath| t@), self.allow_reverse);
        let mut paths = paths;
        let mut ordered: Vec<Toolpath> = Vec::new();
        let mut cur = self.start;
        assert(ordered@.map_values(|t: Toolpath| t@) + target =~= target);
        while paths.len() > 0
            invariant
                forall|i: int| 0 <= i < paths@.len() ==> #[trigger] paths@[i].path.points@.len() > 0,
                ordered@.map_values(|t: Toolpath| t@) + greedy(
                    cur,
                    paths@.map_values(|t: Toolpath| t@),
                    self.allow_reverse,
                ) == target,
            decreases paths.len(),
        {
            let ghost pv = paths@.map_values(|t: Toolpath| t@);
            let mut best_i: usize = 0;
            let mut best_rev = false;
            let mut best_d: Option<U256> = None;
            let mut i: usize = 0;
            while i < paths.len()
                invariant
                    i <= paths.len(),
                    pv == paths@.map_values(|t: Toolpath| t@),
                    forall|i: int| 0 <= i < paths@.len() ==> #[trigger] paths@[i].path.points@.len() > 0,
                    best_upto(cur, pv, self.allow_reverse, i as int) == (
                        best_i as int,
                        best_rev,
                        match best_d {
                            Some(d) => d@,
                            None => -1,
                        },
                    ),
                    best_d is Some ==> best_d.unwrap()@ >= 0,
                decreases paths.len() - i,
            {
                let pts = &paths[i].path.points;
                let df = dist2(cur, pts[0]);
                proof {
                    crate::wide::lemma_u256_range(df);
                    assert(pv[i as int].1 == pts@);
                }
                let better = match &best_d {
                    None => true,
                    Some(bd) => !le256(*bd, df),
                };
                if better {
                    best_d = Some(df);
                    best_i = i;
                    best_rev = false;
                }
                if self.allow_reverse {
                    let db = dist2(cur, pts[pts.len() - 1]);
                    proof {
                        crate::wide::lemma_u256_range(db);
                    }
                    let closer = match &best_d {
                        None => true,
                        Some(bd) => !le256(*bd, db),
                    };
                    if closer {
                        best_d = Some(db);
                        best_i = i;
                        best_rev = true;
                    }
                }
                i += 1;
            }
            proof {
                lemma_best_in_range(cur, pv, self.allow_reverse, pv.len() as int);
            }
            let mut chosen = paths.remove(best_i);
            if best_rev {
                let rev = reversed(&chosen.path.points);
                chosen.path.points = rev;
            }
            let n = chosen.path.points.len();
            let next = chosen.path.points[n - 1];
            proof {
                assert(paths@.map_values(|t: Toolpath| t@) =~= pv.remove(best_i as int));
                assert(chosen@ == oriented(pv[best_i as int], best_rev));
                assert(ordered@.push(chosen).map_values(|t: Toolpath| t@) =~= ordered@.map_values(
                    |t: Toolpath| t@,
                ).push(chosen@));
                assert(greedy(cur, pv, self.allow_reverse) == seq![chosen@] + greedy(
                    next,
                    pv.remove(best_i as int),
                    self.allow_reverse,
                ));
                assert(ordered@.map_values(|t: Toolpath| t@).push(chosen@) + greedy(
                    next,
                    pv.remove(best_i as int),
                    self.allow_reverse,
                ) =~= ordered@.map_values(|t: Toolpath| t@) + (seq![chosen@] + greedy(
                    next,
                    pv.remove(best_i as int),
                    self.allow_reverse,
                )));
            }
            cur = next;
            ordered.push(chosen);
        }
        assert(ordered@.map_values(|t: Toolpath| t@) + greedy(
            cur,
            paths@.map_values(|t: Toolpath| t@),
            self.allow_reverse,
        ) =~= ordered@.map_values(|t: Toolpath| t@));
        ordered
    }
}

impl TravelOrder {
    /// One layer's toolpaths after the pass.
    fn arrange_layer(&self, tps: &Vec<Toolpath>) -> (r: Vec<Toolpath>)
        ensures
            r@.map_values(|t: Toolpath| t@) == travel_layer(
                self.start,
                self.allow_reverse,
                tps@.map_values(|t: Toolpath| t@),
            ),
    {
        let ghost tv = tps@.map_values(|t: Toolpath| t@);
        let mut nonempty: Vec<Toolpath> = Vec::new();
        let mut empty: Vec<Toolpath> = Vec::new();
        let mut k: usize = 0;
        assert(tv.take(0) =~= Seq::<ToolpathView>::empty());
        while k < tps.len()
            invariant
                k <= tps.len(),
                tv == tps@.map_values(|t: Toolpath| t@),
                nonempty@.map_values(|t: Toolpath| t@) == with_points(extruding(tv.take(k as int))),
                empty@.map_values(|t: Toolpath| t@) == without_points(extruding(tv.take(k as int))),
                forall|i: int| 0 <= i < nonempty@.len() ==> #[trigger] nonempty@[i].path.points@.len() > 0,
            decreases tps.len() - k,
        {
            let t = &tps[k];
            let ghost ex = extruding(tv.take(k as int));
            proof {
                assert(tv.take(k + 1).drop_last() =~= tv.take(k as int));
                assert(tv.take(k + 1).last() == t@);
            }
            let ghost ne0 = nonempty@.map_values(|t: Toolpath| t@);
            let ghost em0 = empty@.map_values(|t: Toolpath| t@);
            if t.kind.extrudes() {
                proof {
                    assert(extruding(tv.take(k + 1)) == ex.push(t@));
                    assert(ex.push(t@).drop_last() =~= ex);
                }
                if t.path.points.len() > 0 {
                    let d = t.duplicate();
                    nonempty.push(d);
                    assert(nonempty@.map_values(|t: Toolpath| t@) =~= ne0.push(t@));
                    assert(with_points(ex.push(t@)) == with_points(ex).push(t@));
                    assert(without_points(ex.push(t@)) == without_points(ex));
                } else {
                    let d = t.duplicate();
                    empty.push(d);
                    assert(empty@.map_values(|t: Toolpath| t@) =~= em0.push(t@));
                    assert(with_points(ex.push(t@)) == with_points(ex));
                    assert(without_points(ex.push(t@)) == without_points(ex).push(t@));
                }
            } else {
                assert(extruding(tv.take(k + 1)) == ex);
            }
            k += 1;
        }
        assert(tv.take(k as int) =~= tv);
        let ghost ev = empty@.map_values(|t: Toolpath| t@);
        let mut sequenced = self.order(nonempty);
        let ghost gv = sequenced@.map_values(|t: Toolpath| t@);
        let mut m: usize = 0;
        assert(gv + ev.take(0) =~= gv);
        while m < empty.len()
            invariant
                m <= empty.len(),
                ev == empty@.map_values(|t: Toolpath| t@),
                sequenced@.map_values(|t: Toolpath| t@) == gv + ev.take(m as int),
            decreases empty.len() - m,
        {
            let ghost before = sequenced@.map_values(|t: Toolpath| t@);
            let d = empty[m].duplicate();
            sequenced.push(d);
            assert(sequenced@.map_values(|t: Toolpath| t@) =~= before.push(ev[m as int]));
            m += 1;
            assert(gv + ev.take(m as int) =~= (gv + ev.take(m - 1)).push(ev[m - 1]));
        }
        assert(ev.take(m as int) =~= ev);
        let ghost sv = sequenced@.map_values(|t: Toolpath| t@);
        let mut out: Vec<Toolpath> = Vec::new();
        let mut last: Option<Point> = None;
        let mut j: usize = 0;
        assert(sv.take(0) =~= Seq::<ToolpathView>::empty());
        while j < sequenced.len()
            invariant
                j <= sequenced.len(),
                sv == sequenced@.map_values(|t: Toolpath| t@),
                out@.map_values(|t: Toolpath| t@) == connect(sv.take(j as int)),
                last == view_last_end(sv.take(j as int)),
            decreases sequenced.len() - j,
        {
            let t = &sequenced[j];
            proof {
                assert(sv.take(j + 1).drop_last() =~= sv.take(j as int));
                assert(sv.take(j + 1).last() == t@);
            }
            let n = t.path.points.len();
            if n == 0 {
                out.push(t.duplicate());
            } else {
                let start = t.path.points[0];
                match last {
                    Some(prev) => {
                        if prev != start {
                            let mut seg: Vec<Point> = Vec::new();
                            seg.push(prev);
                            seg.push(start);
                            let tr = Toolpath::travel(Polyline::new(seg));
                            assert(tr@ == travel_view(prev, start));
                            out.push(tr);
                        }
                    },
                    None => {},
                }
                out.push(t.duplicate());
                last = Some(t.path.points[n - 1]);
            }
            j += 1;
            assert(out@.map_values(|t: Toolpath| t@) =~= connect(sv.take(j as int)));
        }
        assert(sv.take(j as int) =~= sv);
        out
    }
}

impl Pass for TravelOrder {
    open spec fn spec_run(&self, p: Seq<(i64, Seq<ToolpathView>)>) -> Seq<(i64, Seq<ToolpathView>)> {
        p.map_values(
            |l: (i64, Seq<ToolpathView>)| (l.0, travel_layer(self.start, self.allow_reverse, l.1)),
        )
    }

    fn name(&self) -> (s: &'static str)
        ensures
            s@ == "travel-order"@,
    {
        "travel-order"
    }

    fn run(&self, program: lo::Program) -> (out: lo::Program) {
        let mut out = lo::Program::new();
        let mut li: usize = 0;
        while li < program.layers.len()
            invariant
                li <= program.layers.len(),
                out@ == self.spec_run(program@.take(li as int)),
            decreases program.layers.len() - li,
        {
            let layer = &program.layers[li];
            let tps = self.arrange_layer(&layer.toolpaths);
            let ghost before = out@;
            let nl = lo::Layer { z_um: layer.z_um, toolpaths: tps };
            assert(nl@ == (layer@.0, travel_layer(self.start, self.allow_reverse, layer@.1)));
            out.layers.push(nl);
            assert(out@ =~= before.push(nl@));
            li += 1;
            assert(program@.take(li as int) =~= program@.take(li - 1).push(program@[li - 1]));
            assert(out@ =~= self.spec_run(program@.take(li as int)));
        }
        assert(program@.take(li as int) =~= program@);
        out
    }
}

proof fn lemma_view_paths_push(vs: Seq<ToolpathView>, v: ToolpathView)
    ensures
        view_paths(vs.push(v)) == if v.0 is Extrude {
            view_paths(vs).push(dpath(v.1, v.2))
        } else {
            view_paths(vs)
        },
{
    assert(vs.push(v).drop_last() =~= vs);
}

proof fn lemma_view_paths_concat(a: Seq<ToolpathView>, b: Seq<ToolpathView>)
    ensures
        view_paths(a + b) == view_paths(a) + view_paths(b),
    decreases b.len(),
{
    if b.len() == 0 {
        assert(a + b =~= a);
        assert(view_paths(a) + view_paths(b) =~= view_paths(a));
    } else {
        lemma_view_paths_concat(a, b.drop_last());
        assert((a + b).drop_last() =~= a + b.drop_last());
        if b.last().0 is Extrude {
            assert(view_paths(a) + view_paths(b.drop_last()).push(dpath(b.last().1, b.last().2))
                =~= (view_paths(a) + view_paths(b.drop_last())).push(dpath(b.last().1, b.last().2)));
        }
    }
}

proof fn lemma_connect_paths(ts: Seq<ToolpathView>)
    ensures
        view_paths(connect(ts)) == view_paths(ts),
    decreases ts.len(),
{
    if ts.len() > 0 {
        lemma_connect_paths(ts.drop_last());
        let prev = connect(ts.drop_last());
        let t = ts.last();
        if t.1.len() == 0 {
            lemma_view_paths_push(prev, t);
        } else {
            let moved = match view_last_end(ts.drop_last()) {
                Some(e) => if e != t.1[0] {
                    prev.push(travel_view(e, t.1[0]))
                } else {
                    prev
                },
                None => prev,
            };
            match view_last_end(ts.drop_last()) {
                Some(e) => {
                    if e != t.1[0] {
                        lemma_view_paths_push(prev, travel_view(e, t.1[0]));
                    }
                },
                None => {},
            }
            lemma_view_paths_push(moved, t);
        }
    }
}

/// How many of the extruding paths of `ts` cover cell `c`.
pub open spec fn vcount(ts: Seq<ToolpathView>, res: int, c: (i64, i64)) -> nat {
    paths_count(view_paths(ts), res, c)
}

pub(crate) proof fn lemma_vcount_concat(a: Seq<ToolpathView>, b: Seq<ToolpathView>, res: int, c: (i64, i64))
    ensures
        vcount(a + b, res, c) == vcount(a, res, c) + vcount(b, res, c),
{
    lemma_view_paths_concat(a, b);
    lemma_count_concat(view_paths(a), view_paths(b), res, c);
}

pub(crate) proof fn lemma_vcount_remove(a: Seq<ToolpathView>, i: int, res: int, c: (i64, i64))
    requires
        0 <= i < a.len(),
    ensures
        vcount(a, res, c) == vcount(a.remove(i), res, c) + vcount(seq![a[i]], res, c),
{
    assert(a =~= a.take(i) + (seq![a[i]] + a.skip(i + 1)));
    assert(a.remove(i) =~= a.take(i) + a.skip(i + 1));
    lemma_vcount_concat(a.take(i), seq![a[i]] + a.skip(i + 1), res, c);
    lemma_vcount_concat(seq![a[i]], a.skip(i + 1), res, c);
    lemma_vcount_concat(a.take(i), a.skip(i + 1), res, c);
}

pub(crate) proof fn lemma_vcount_oriented(t: ToolpathView, rev: bool, res: int, c: (i64, i64))
    ensures
        vcount(seq![oriented(t, rev)], res, c) == vcount(seq![t], res, c),
{
    lemma_path_reversal(t.1, t.2 as int, res);
    assert(seq![t].drop_last() =~= Seq::<ToolpathView>::empty());
    assert(seq![oriented(t, rev)].drop_last() =~= Seq::<ToolpathView>::empty());
    assert(view_paths(Seq::<ToolpathView>::empty()) == Seq::<(Seq<Point>, i64)>::empty());
    if t.0 is Extrude {
        let e = Seq::<(Seq<Point>, i64)>::empty();
        assert(view_paths(seq![t]) == e.push(dpath(t.1, t.2)));
        assert(view_paths(seq![oriented(t, rev)]) == e.push(dpath(oriented(t, rev).1, t.2)));
        assert(e.push(dpath(t.1, t.2)).drop_last() =~= e);
        assert(e.push(dpath(oriented(t, rev).1, t.2)).drop_last() =~= e);
    }
}

proof fn lemma_greedy_count(cur: Point, ps: Seq<ToolpathView>, allow: bool, res: int, c: (i64, i64))
    ensures
        vcount(greedy(cur, ps, allow), res, c) == vcount(ps, res, c),
    decreases ps.len(),
{
    if ps.len() > 0 {
        lemma_best_in_range(cur, ps, allow, ps.len() as int);
        let b = best_upto(cur, ps, allow, ps.len() as int);
        let chosen = oriented(ps[b.0], b.1);
        lemma_greedy_count(chosen.1.last(), ps.remove(b.0), allow, res, c);
        lemma_vcount_concat(seq![chosen], greedy(chosen.1.last(), ps.remove(b.0), allow), res, c);
        lemma_vcount_oriented(ps[b.0], b.1, res, c);
        lemma_vcount_remove(ps, b.0, res, c);
    }
}

proof fn lemma_vcount_partition(ex: Seq<ToolpathView>, res: int, c: (i64, i64))
    ensures
        vcount(with_points(ex), res, c) + vcount(without_points(ex), res, c) == vcount(ex, res, c),
    decreases ex.len(),
{
    if ex.len() > 0 {
        lemma_vcount_partition(ex.drop_last(), res, c);
        let t = ex.last();
        let ne = with_points(ex.drop_last());
        let em = without_points(ex.drop_last());
        lemma_vcount_concat(ex.drop_last(), seq![t], res, c);
        assert(ex.drop_last() + seq![t] =~= ex);
        if t.1.len() > 0 {
            lemma_vcount_concat(ne, seq![t], res, c);
            assert(ne + seq![t] =~= ne.push(t));
        } else {
            lemma_vcount_concat(em, seq![t], res, c);
            assert(em + seq![t] =~= em.push(t));
        }
    }
}

proof fn lemma_extruding_paths(tps: Seq<ToolpathView>)
    ensures
        view_paths(extruding(tps)) == view_paths(tps),
    decreases tps.len(),
{
    if tps.len() > 0 {
        lemma_extruding_paths(tps.drop_last());
        let t = tps.last();
        lemma_view_paths_push(extruding(tps.drop_last()), t);
        lemma_view_paths_push(tps.drop_last(), t);
        assert(tps.drop_last().push(t) =~= tps);
    }
}

/// Two path sequences cover every cell equally often.
pub open spec fn paths_count_same(a: Seq<(Seq<Point>, i64)>, b: Seq<(Seq<Point>, i64)>, res: int) -> bool {
    forall|c: (i64, i64)| #[trigger] paths_count(a, res, c) == paths_count(b, res, c)
}

/// The travel-order pass preserves the denotation of every program: the deposited material
/// (occupied cells) and the per-cell path counts are unchanged, layer by layer. It only reorders
/// extruding paths, reverses some, and regenerates travel, which deposits nothing.
pub proof fn lemma_travel_order_preserves(t: TravelOrder, p: Seq<(i64, Seq<ToolpathView>)>, res: int)
    ensures
        view_occupancy(t.spec_run(p), res) == view_occupancy(p, res),
        view_deposit(t.spec_run(p), res) == view_deposit(p, res),
{
    let q = t.spec_run(p);
    assert forall|i: int| 0 <= i < p.len() implies paths_count_same(view_paths(#[trigger] q[i].1), view_paths(p[i].1), res) by {
        let tps = p[i].1;
        let ex = extruding(tps);
        let ne = with_points(ex);
        let em = without_points(ex);
        let g = greedy(t.start, ne, t.allow_reverse);
        assert forall|c: (i64, i64)| #[trigger] paths_count(view_paths(q[i].1), res, c) == paths_count(
            view_paths(tps),
            res,
            c,
        ) by {
            lemma_connect_paths(g + em);
            lemma_vcount_concat(g, em, res, c);
            lemma_greedy_count(t.start, ne, t.allow_reverse, res, c);
            lemma_vcount_partition(ex, res, c);
            lemma_extruding_paths(tps);
        }
    }
    assert forall|i: int| 0 <= i < p.len() implies #[trigger] view_occupancy(q, res)[i] == view_occupancy(p, res)[i] by {
        assert(paths_count_same(view_paths(q[i].1), view_paths(p[i].1), res));
        lemma_same_counts(view_paths(q[i].1), view_paths(p[i].1), res);
    }
    assert forall|i: int| 0 <= i < p.len() implies #[trigger] view_deposit(q, res)[i] == view_deposit(p, res)[i] by {
        assert(paths_count_same(view_paths(q[i].1), view_paths(p[i].1), res));
        lemma_same_counts(view_paths(q[i].1), view_paths(p[i].1), res);
    }
    assert(view_occupancy(q, res) =~= view_occupancy(p, res));
    assert(view_deposit(q, res) =~= view_deposit(p, res));
}

/// Toolpath sequences holding the same toolpaths, in any order, cover every cell equally often.
pub proof fn lemma_vcount_multiset(a: Seq<ToolpathView>, b: Seq<ToolpathView>, res: int, c: (i64, i64))
    requires
        a.to_multiset() == b.to_multiset(),
    ensures
        vcount(a, res, c) == vcount(b, res, c),
    decreases a.len(),
{
    broadcast use vstd::seq_lib::group_to_multiset_ensures;

    if a.len() == 0 {
        assert(b.to_multiset().len() == 0);
        assert(b =~= a);
    } else {
        let x = a.last();
        assert(a.to_multiset().count(x) > 0) by {
            assert(a.contains(x));
        }
        assert(b.contains(x));
        let i = choose|i: int| 0 <= i < b.len() && b[i] == x;
        assert(a.drop_last().to_multiset() =~= a.to_multiset().remove(x)) by {
            assert(a =~= a.drop_last().push(x));
        }
        assert(b.remove(i).to_multiset() =~= b.to_multiset().remove(x));
        lemma_vcount_multiset(a.drop_last(), b.remove(i), res, c);
        lemma_vcount_concat(a.drop_last(), seq![x], res, c);
        assert(a.drop_last() + seq![x] =~= a);
        lemma_vcount_remove(b, i, res, c);
    }
}

/// The toolpaths `ts`, each traversed in reverse where `flips` says so.
pub open spec fn orient_all(ts: Seq<ToolpathView>, flips: Seq<bool>) -> Seq<ToolpathView> {
    Seq::new(ts.len(), |k: int| oriented(ts[k], flips[k]))
}

proof fn lemma_vcount_orient_all(ts: Seq<ToolpathView>, flips: Seq<bool>, res: int, c: (i64, i64))
    requires
        flips.len() == ts.len(),
    ensures
        vcount(orient_all(ts, flips), res, c) == vcount(ts, res, c),
    decreases ts.len(),
{
    if ts.len() > 0 {
        let n = ts.len() - 1;
        let init = ts.drop_last();
        let fi = flips.drop_last();
        lemma_vcount_orient_all(init, fi, res, c);
        assert(orient_all(ts, flips) =~= orient_all(init, fi) + seq![oriented(ts[n], flips[n])]);
        assert(ts =~= init + seq![ts[n]]);
        lemma_vcount_concat(orient_all(init, fi), seq![oriented(ts[n], flips[n])], res, c);
        lemma_vcount_concat(init, seq![ts[n]], res, c);
        lemma_vcount_oriented(ts[n], flips[n], res, c);
    }
}

/// Layer `i` of `q` has the height of layer `i` of `p` and holds the same extruding toolpaths, in
/// any order, each possibly reversed as `flips[i]` says; its travel moves may be anything.
pub open spec fn reordered_reversed(p: Seq<(i64, Seq<ToolpathView>)>, q: Seq<(i64, Seq<ToolpathView>)>, flips: Seq<Seq<bool>>) -> bool {
    &&& q.len() == p.len()
    &&& flips.len() == p.len()
    &&& forall|i: int|
        0 <= i < p.len() ==> #[trigger] q[i].0 == p[i].0 && flips[i].len() == extruding(p[i].1).len()
            && extruding(q[i].1).to_multiset() == orient_all(extruding(p[i].1), flips[i]).to_multiset()
}

/// **Pass soundness.** A rewrite that keeps each layer's height and its extruding toolpaths,
/// reordered in any way and with any subset of them reversed, and replaces the travel moves by any
/// others, deposits the same material: the occupied cells and the per-cell path counts are
/// unchanged, layer by layer.
pub proof fn lemma_reorder_reverse_preserves(
    p: Seq<(i64, Seq<ToolpathView>)>,
    q: Seq<(i64, Seq<ToolpathView>)>,
    flips: Seq<Seq<bool>>,
    res: int,
)
    requires
        reordered_reversed(p, q, flips),
    ensures
        view_occupancy(q, res) == view_occupancy(p, res),
        view_deposit(q, res) == view_deposit(p, res),
{
    assert forall|i: int| 0 <= i < p.len() implies paths_count_same(view_paths(#[trigger] q[i].1), view_paths(p[i].1), res) by {
        assert(q[i].0 == p[i].0);
        assert forall|c: (i64, i64)| #[trigger] paths_count(view_paths(q[i].1), res, c) == paths_count(
            view_paths(p[i].1),
            res,
            c,
        ) by {
            lemma_extruding_paths(q[i].1);
            lemma_extruding_paths(p[i].1);
            lemma_vcount_multiset(extruding(q[i].1), orient_all(extruding(p[i].1), flips[i]), res, c);
            lemma_vcount_orient_all(extruding(p[i].1), flips[i], res, c);
        }
    }
    assert forall|i: int| 0 <= i < p.len() implies #[trigger] view_occupancy(q, res)[i] == view_occupancy(p, res)[i] by {
        assert(q[i].0 == p[i].0);
        assert(paths_count_same(view_paths(q[i].1), view_paths(p[i].1), res));
        lemma_same_counts(view_paths(q[i].1), view_paths(p[i].1), res);
    }
    assert forall|i: int| 0 <= i < p.len() implies #[trigger] view_deposit(q, res)[i] == view_deposit(p, res)[i] by {
        assert(q[i].0 == p[i].0);
        assert(paths_count_same(view_paths(q[i].1), view_paths(p[i].1), res));
        lemma_same_counts(view_paths(q[i].1), view_paths(p[i].1), res);
    }
    assert(view_occupancy(q, res) =~= view_occupancy(p, res));
    assert(view_deposit(q, res) =~= view_deposit(p, res));
}


/// The number of extruding toolpaths over the layers of a move plan.
pub open spec fn extrusion_total(p: Seq<(i64, Seq<ToolpathView>)>) -> nat
    decreases p.len(),
{
    if p.len() == 0 {
        0
    } else {
        extrusion_total(p.drop_last()) + extruding(p.last().1).len()
    }
}

proof fn lemma_extruding_len(ts: Seq<ToolpathView>)
    ensures
        view_paths(ts).len() == extruding(ts).len(),
    decreases ts.len(),
{
    if ts.len() > 0 {
        lemma_extruding_len(ts.drop_last());
    }
}

proof fn lemma_single_len(a: ToolpathView, b: ToolpathView)
    requires
        a.0 == b.0,
    ensures
        view_paths(seq![a]).len() == view_paths(seq![b]).len(),
{
    assert(seq![a].drop_last() =~= Seq::<ToolpathView>::empty());
    assert(seq![b].drop_last() =~= Seq::<ToolpathView>::empty());
}

proof fn lemma_remove_len(ps: Seq<ToolpathView>, i: int)
    requires
        0 <= i < ps.len(),
    ensures
        view_paths(ps).len() == view_paths(ps.remove(i)).len() + view_paths(seq![ps[i]]).len(),
{
    assert(ps =~= ps.take(i) + (seq![ps[i]] + ps.skip(i + 1)));
    assert(ps.remove(i) =~= ps.take(i) + ps.skip(i + 1));
    lemma_view_paths_concat(ps.take(i), seq![ps[i]] + ps.skip(i + 1));
    lemma_view_paths_concat(seq![ps[i]], ps.skip(i + 1));
    lemma_view_paths_concat(ps.take(i), ps.skip(i + 1));
}

proof fn lemma_greedy_len(cur: Point, ps: Seq<ToolpathView>, allow: bool)
    ensures
        view_paths(greedy(cur, ps, allow)).len() == view_paths(ps).len(),
    decreases ps.len(),
{
    if ps.len() > 0 {
        lemma_best_in_range(cur, ps, allow, ps.len() as int);
        let b = best_upto(cur, ps, allow, ps.len() as int);
        let chosen = oriented(ps[b.0], b.1);
        lemma_greedy_len(chosen.1.last(), ps.remove(b.0), allow);
        lemma_view_paths_concat(seq![chosen], greedy(chosen.1.last(), ps.remove(b.0), allow));
        lemma_single_len(chosen, ps[b.0]);
        lemma_remove_len(ps, b.0);
    }
}

proof fn lemma_partition_len(ex: Seq<ToolpathView>)
    ensures
        view_paths(with_points(ex)).len() + view_paths(without_points(ex)).len() == view_paths(ex).len(),
    decreases ex.len(),
{
    if ex.len() > 0 {
        lemma_partition_len(ex.drop_last());
        let t = ex.last();
        lemma_view_paths_push(ex.drop_last(), t);
        lemma_view_paths_push(with_points(ex.drop_last()), t);
        lemma_view_paths_push(without_points(ex.drop_last()), t);
        assert(ex.drop_last().push(t) =~= ex);
    }
}

proof fn lemma_total_same(p: Seq<(i64, Seq<ToolpathView>)>, q: Seq<(i64, Seq<ToolpathView>)>)
    requires
        p.len() == q.len(),
        forall|i: int| 0 <= i < p.len() ==> #[trigger] extruding(q[i].1).len() == extruding(p[i].1).len(),
    ensures
        extrusion_total(q) == extrusion_total(p),
    decreases p.len(),
{
    if p.len() > 0 {
        assert forall|i: int| 0 <= i < p.drop_last().len() implies #[trigger] extruding(q.drop_last()[i].1).len()
            == extruding(p.drop_last()[i].1).len() by {
            assert(extruding(q[i].1).len() == extruding(p[i].1).len());
        }
        lemma_total_same(p.drop_last(), q.drop_last());
        assert(extruding(q[p.len() - 1].1).len() == extruding(p[p.len() - 1].1).len());
    }
}

/// The extruding toolpaths counted over a program's layers are those counted over its plain value.
pub proof fn lemma_extrusion_total_view(layers: Seq<lo::Layer>)
    ensures
        lo::count_extruding_layers(layers) == extrusion_total(layers.map_values(|l: lo::Layer| l@)),
    decreases layers.len(),
{
    if layers.len() > 0 {
        lemma_extrusion_total_view(layers.drop_last());
        assert(layers.drop_last().map_values(|l: lo::Layer| l@) =~= layers.map_values(|l: lo::Layer| l@).drop_last());
        lemma_count_extruding_view(layers.last().toolpaths@);
    }
}

proof fn lemma_count_extruding_view(tps: Seq<Toolpath>)
    ensures
        lo::count_extruding(tps) == extruding(tps.map_values(|t: Toolpath| t@)).len(),
    decreases tps.len(),
{
    if tps.len() > 0 {
        lemma_count_extruding_view(tps.drop_last());
        assert(tps.drop_last().map_values(|t: Toolpath| t@) =~= tps.map_values(|t: Toolpath| t@).drop_last());
    }
}

/// The travel-order pass keeps the layers, their heights and, in every layer, the number of
/// extruding toolpaths, so the program's extrusion count is unchanged: it only reorders and
/// reverses extruding paths and regenerates travel.
pub proof fn lemma_travel_order_keeps_extrusions(t: TravelOrder, p: Seq<(i64, Seq<ToolpathView>)>)
    ensures
        t.spec_run(p).len() == p.len(),
        forall|i: int| 0 <= i < p.len() ==> (#[trigger] t.spec_run(p)[i]).0 == p[i].0,
        forall|i: int| 0 <= i < p.len() ==> extruding((#[trigger] t.spec_run(p)[i]).1).len() == extruding(p[i].1).len(),
        extrusion_total(t.spec_run(p)) == extrusion_total(p),
{
    let q = t.spec_run(p);
    assert forall|i: int| 0 <= i < p.len() implies extruding((#[trigger] q[i]).1).len() == extruding(p[i].1).len() by {
        let tps = p[i].1;
        let ex = extruding(tps);
        let ne = with_points(ex);
        let em = without_points(ex);
        let g = greedy(t.start, ne, t.allow_reverse);
        assert(q[i].1 == connect(g + em));
        lemma_connect_paths(g + em);
        lemma_view_paths_concat(g, em);
        lemma_greedy_len(t.start, ne, t.allow_reverse);
        lemma_partition_len(ex);
        lemma_extruding_paths(tps);
        lemma_extruding_len(q[i].1);
        lemma_extruding_len(tps);
    }
    lemma_total_same(p, q);
}
proof fn lemma_best_is_nearest(cur: Point, ps: Seq<ToolpathView>, allow: bool, n: int)
    requires
        1 <= n <= ps.len(),
    ensures
        ({
            let b = best_upto(cur, ps, allow, n);
            &&& 0 <= b.0 < n
            &&& b.1 ==> allow
            &&& b.2 == end_d(cur, ps[b.0], b.1)
            &&& forall|j: int| 0 <= j < n ==> b.2 <= #[trigger] end_d(cur, ps[j], false) && (allow ==> b.2 <= end_d(cur, ps[j], true))
            &&& forall|j: int| 0 <= j < b.0 ==> b.2 < #[trigger] end_d(cur, ps[j], false) && (allow ==> b.2 < end_d(cur, ps[j], true))
            &&& b.1 ==> b.2 < end_d(cur, ps[b.0], false)
        }),
    decreases n,
{
    assert(end_d(cur, ps[n - 1], false) >= 0 && end_d(cur, ps[n - 1], true) >= 0) by (nonlinear_arith);
    if n > 1 {
        lemma_best_is_nearest(cur, ps, allow, n - 1);
        let b = best_upto(cur, ps, allow, n - 1);
        assert(b.2 >= 0) by {
            assert(end_d(cur, ps[b.0], b.1) >= 0) by (nonlinear_arith);
        }
    } else {
        assert(best_upto(cur, ps, allow, 0) == (0int, false, -1int));
    }
}

/// Each greedy pick is nearest: the tour starts with some path, traversed forward or (only when
/// reversal is allowed) backward, whose entry point is at least as close to the current position
/// as every path's front and, when reversal is allowed, every path's back; on a tie the earliest
/// such path wins, taken forward unless its back is strictly closer; the rest of the tour is the
/// greedy tour of the other paths from the chosen path's end.
pub proof fn lemma_greedy_picks_nearest(cur: Point, ps: Seq<ToolpathView>, allow: bool)
    requires
        ps.len() > 0,
        forall|j: int| 0 <= j < ps.len() ==> (#[trigger] ps[j]).1.len() > 0,
    ensures
        exists|i: int, rev: bool|
            {
                &&& 0 <= i < ps.len()
                &&& (rev ==> allow)
                &&& greedy(cur, ps, allow) == seq![oriented(ps[i], rev)] + greedy(
                    oriented(ps[i], rev).1.last(),
                    ps.remove(i),
                    allow,
                )
                &&& forall|j: int|
                    0 <= j < ps.len() ==> d2(cur, oriented(ps[i], rev).1[0]) <= d2(cur, (#[trigger] ps[j]).1[0]) && (allow
                        ==> d2(cur, oriented(ps[i], rev).1[0]) <= d2(cur, ps[j].1.last()))
                &&& forall|j: int|
                    0 <= j < i ==> d2(cur, oriented(ps[i], rev).1[0]) < d2(cur, (#[trigger] ps[j]).1[0]) && (allow
                        ==> d2(cur, oriented(ps[i], rev).1[0]) < d2(cur, ps[j].1.last()))
                &&& rev ==> d2(cur, ps[i].1.last()) < d2(cur, ps[i].1[0])
            },
{
    lemma_best_is_nearest(cur, ps, allow, ps.len() as int);
    let b = best_upto(cur, ps, allow, ps.len() as int);
    let c = oriented(ps[b.0], b.1);
    assert(d2(cur, c.1[0]) == end_d(cur, ps[b.0], b.1)) by {
        if b.1 {
            assert(c.1[0] == ps[b.0].1.last());
        }
    }
    assert forall|j: int| 0 <= j < ps.len() implies d2(cur, c.1[0]) <= d2(cur, (#[trigger] ps[j]).1[0]) && (allow
        ==> d2(cur, c.1[0]) <= d2(cur, ps[j].1.last())) by {
        assert(b.2 <= end_d(cur, ps[j], false));
    }
    assert forall|j: int| 0 <= j < b.0 implies d2(cur, c.1[0]) < d2(cur, (#[trigger] ps[j]).1[0]) && (allow
        ==> d2(cur, c.1[0]) < d2(cur, ps[j].1.last())) by {
        assert(b.2 < end_d(cur, ps[j], false));
    }
    assert(greedy(cur, ps, allow) == seq![c] + greedy(c.1.last(), ps.remove(b.0), allow));
}

} // verus!
