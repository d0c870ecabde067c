//! Lowering: high-level (geometric) IR -> low-level (move-plan) IR.
//!
//! Emits each region's fills as extruding toolpaths tagged with the region's role, inserting a
//! `Travel` move between consecutive extruding paths whose end and start differ.
use vstd::prelude::*;

use crate::coverage::path_cells;
use crate::denote::{
    dpath, hi_deposit, hi_occupancy, hi_paths, layer_deposit, layer_occupancy, lo_deposit,
    lemma_lo_paths_view, lo_occupancy, lo_paths, paths_cells, paths_count, paths_count_map, view_paths,
};
use crate::ir::lo::{self, SegmentKind, ToolpathView};
use crate::ir::{hi, ExtrudePath, Point, Polyline, RegionKind};

verus! {

/// A fill as the lowering sees it: its region's role, its points and its width.
pub open spec fn kinded(kind: RegionKind, fills: Seq<ExtrudePath>) -> Seq<(RegionKind, Seq<Point>, i64)> {
    fills.map_values(|f: ExtrudePath| (kind, f.path.points@, f.width_um))
}

/// Every fill of a layer's regions, region by region, with its role.
pub open spec fn region_fills(regions: Seq<hi::Region>) -> Seq<(RegionKind, Seq<Point>, i64)>
    decreases regions.len(),
{
    if regions.len() == 0 {
        Seq::empty()
    } else {
        region_fills(regions.drop_last()) + kinded(regions.last().kind, regions.last().fills@)
    }
}

/// Where the last non-empty fill of a sequence ends.
pub open spec fn last_end(fs: Seq<(RegionKind, Seq<Point>, i64)>) -> Option<Point>
    decreases fs.len(),
{
    if fs.len() == 0 {
        None
    } else if fs.last().1.len() == 0 {
        last_end(fs.drop_last())
    } else {
        Some(fs.last().1.last())
    }
}

/// The move plan of a sequence of fills: empty fills are skipped; each other fill is an extruding
/// toolpath, preceded by a travel from the previous fill's end when that differs from its start.
pub open spec fn lower_moves(fs: Seq<(RegionKind, Seq<Point>, i64)>) -> Seq<ToolpathView>
    decreases fs.len(),
{
    if fs.len() == 0 {
        Seq::empty()
    } else {
        let prev = lower_moves(fs.drop_last());
        let f = fs.last();
        if f.1.len() == 0 {
            prev
        } else {
            let moved = match last_end(fs.drop_last()) {
                Some(e) => if e != f.1[0] {
                    prev.push((SegmentKind::Travel, seq![e, f.1[0]], 0i64, None::<i64>))
                } else {
                    prev
                },
                None => prev,
            };
            moved.push((SegmentKind::Extrude(f.0), f.1, f.2, None::<i64>))
        }
    }
}

/// `l` is the lowering of `p`: one layer per layer, same heights, and each layer's toolpaths are
/// the move plan of its fills.
pub open spec fn is_lowering(p: hi::Program, l: lo::Program) -> bool {
    &&& l.layers@.len() == p.layers@.len()
    &&& forall|i: int| 0 <= i < p.layers@.len() ==> #[trigger] is_layer_lowering(p.layers@[i], l.layers@[i])
}

/// `l` is the lowering of the single layer `h`.
pub open spec fn is_layer_lowering(h: hi::Layer, l: lo::Layer) -> bool {
    &&& l.z_um == h.z_um
    &&& l.toolpaths@.map_values(|t: lo::Toolpath| t@) == lower_moves(region_fills(h.regions@))
}

proof fn lemma_fills_step(done: Seq<(RegionKind, Seq<Point>, i64)>, kind: RegionKind, fills: Seq<ExtrudePath>, k: int)
    requires
        0 <= k < fills.len(),
    ensures
        done + kinded(kind, fills.take(k + 1)) == (done + kinded(kind, fills.take(k))).push(
            (kind, fills[k].path.points@, fills[k].width_um),
        ),
{
    assert(done + kinded(kind, fills.take(k + 1)) =~= (done + kinded(kind, fills.take(k))).push(
        (kind, fills[k].path.points@, fills[k].width_um),
    ));
}

proof fn lemma_regions_step(regions: Seq<hi::Region>, g: int)
    requires
        0 <= g < regions.len(),
    ensures
        region_fills(regions.take(g + 1)) == region_fills(regions.take(g)) + kinded(
            regions[g].kind,
            regions[g].fills@,
        ),
{
    assert(regions.take(g + 1).drop_last() =~= regions.take(g));
}

/// Lower one layer's regions to its move plan.
fn lower_layer(regions: &Vec<hi::Region>) -> (tps: Vec<lo::Toolpath>)
    ensures
        tps@.map_values(|t: lo::Toolpath| t@) == lower_moves(region_fills(regions@)),
{
    let mut tps: Vec<lo::Toolpath> = Vec::new();
    let mut last: Option<Point> = None;
    let mut g: usize = 0;
    assert(regions@.take(0) =~= Seq::<hi::Region>::empty());
    assert(tps@.map_values(|t: lo::Toolpath| t@) =~= lower_moves(region_fills(regions@.take(0))));
    while g < regions.len()
        invariant
            g <= regions.len(),
            tps@.map_values(|t: lo::Toolpath| t@) == lower_moves(region_fills(regions@.take(g as int))),
            last == last_end(region_fills(regions@.take(g as int))),
        decreases regions.len() - g,
    {
        let region = &regions[g];
        let fills = &region.fills;
        let ghost done = region_fills(regions@.take(g as int));
        assert(done + kinded(region.kind, fills@.take(0)) =~= done);
        let mut k: usize = 0;
        while k < fills.len()
            invariant
                k <= fills.len(),
                g < regions.len(),
                region == &regions@[g as int],
                fills == &region.fills,
                done == region_fills(regions@.take(g as int)),
                tps@.map_values(|t: lo::Toolpath| t@) == lower_moves(
                    done + kinded(region.kind, fills@.take(k as int)),
                ),
                last == last_end(done + kinded(region.kind, fills@.take(k as int))),
            decreases fills.len() - k,
        {
            let fill = &fills[k];
            let ghost before = done + kinded(region.kind, fills@.take(k as int));
            let ghost after = done + kinded(region.kind, fills@.take(k + 1));
            proof {
                lemma_fills_step(done, region.kind, fills@, k as int);
                assert(after.drop_last() =~= before);
            }
            let n = fill.path.points.len();
            if n > 0 {
                let start = fill.path.points[0];
                match last {
                    Some(prev) => {
                        if prev != start {
                            let mut seg: Vec<Point> = Vec::new();
                            seg.push(prev);
                            seg.push(start);
                            let t = lo::Toolpath::travel(Polyline::new(seg));
                            tps.push(t);
                            proof {
                                assert(t@ == (SegmentKind::Travel, seq![prev, start], 0i64, None::<i64>));
                            }
                        }
                    },
                    None => {},
                }
                let t = lo::Toolpath::extrude(
                    SegmentKind::Extrude(region.kind),
                    fill.path.duplicate(),
                    fill.width_um,
                );
                tps.push(t);
                last = Some(fill.path.points[n - 1]);
                proof {
                    assert(tps@.map_values(|t: lo::Toolpath| t@) =~= lower_moves(after));
                }
            } else {
                proof {
                    assert(tps@.map_values(|t: lo::Toolpath| t@) =~= lower_moves(after));
                }
            }
            k += 1;
        }
        proof {
            assert(fills@.take(k as int) =~= fills@);
            lemma_regions_step(regions@, g as int);
        }
        g += 1;
    }
    assert(regions@.take(g as int) =~= regions@);
    tps
}

/// Lower a high-level program to a low-level move plan. Each hi layer maps to exactly one lo layer.
pub fn lower(program: &hi::Program) -> (out: lo::Program)
    ensures
        is_lowering(*program, out),
{
    let mut out = lo::Program::new();
    let mut i: usize = 0;
    while i < program.layers.len()
        invariant
            i <= program.layers.len(),
            out.layers@.len() == i,
            forall|k: int| 0 <= k < i ==> #[trigger] is_layer_lowering(program.layers@[k], out.layers@[k]),
        decreases program.layers.len() - i,
    {
        let layer = &program.layers[i];
        let tps = lower_layer(&layer.regions);
        out.layers.push(lo::Layer { z_um: layer.z_um, toolpaths: tps });
        i += 1;
    }
    out
}

/// The paths of a sequence of fills, without their roles.
pub open spec fn strip(fs: Seq<(RegionKind, Seq<Point>, i64)>) -> Seq<(Seq<Point>, i64)> {
    fs.map_values(|f: (RegionKind, Seq<Point>, i64)| dpath(f.1, f.2))
}

/// The non-empty paths of a sequence, in order.
pub open spec fn drop_empty(ps: Seq<(Seq<Point>, i64)>) -> Seq<(Seq<Point>, i64)>
    decreases ps.len(),
{
    if ps.len() == 0 {
        Seq::empty()
    } else if ps.last().0.len() == 0 {
        drop_empty(ps.drop_last())
    } else {
        drop_empty(ps.drop_last()).push(ps.last())
    }
}

proof fn lemma_view_paths_push(vs: Seq<ToolpathView>, v: ToolpathView)
    ensures
        view_paths(vs.push(v)) == if v.0 is Extrude {
            view_paths(vs).push(dpath(v.1, v.2))
        } else {
            view_paths(vs)
        },
{
    assert(vs.push(v).drop_last() =~= vs);
}

proof fn lemma_moves_paths(fs: Seq<(RegionKind, Seq<Point>, i64)>)
    ensures
        view_paths(lower_moves(fs)) == drop_empty(strip(fs)),
    decreases fs.len(),
{
    if fs.len() > 0 {
        lemma_moves_paths(fs.drop_last());
        assert(strip(fs).drop_last() =~= strip(fs.drop_last()));
        let prev = lower_moves(fs.drop_last());
        let f = fs.last();
        assert(strip(fs).last() == dpath(f.1, f.2));
        if f.1.len() > 0 {
            let moved = match last_end(fs.drop_last()) {
                Some(e) => if e != f.1[0] {
                    prev.push((SegmentKind::Travel, seq![e, f.1[0]], 0i64, None::<i64>))
                } else {
                    prev
                },
                None => prev,
            };
            match last_end(fs.drop_last()) {
                Some(e) => {
                    if e != f.1[0] {
                        lemma_view_paths_push(prev, (SegmentKind::Travel, seq![e, f.1[0]], 0i64, None::<i64>));
                    }
                },
                None => {},
            }
            assert(view_paths(moved) == view_paths(prev));
            let ext = (SegmentKind::Extrude(f.0), f.1, f.2, None::<i64>);
            assert(lower_moves(fs) == moved.push(ext));
            lemma_view_paths_push(moved, ext);
        }
    }
}

proof fn lemma_strip_region_fills(regions: Seq<hi::Region>)
    ensures
        strip(region_fills(regions)) == hi_paths(regions),
    decreases regions.len(),
{
    if regions.len() > 0 {
        lemma_strip_region_fills(regions.drop_last());
        let last = regions.last();
        assert(strip(region_fills(regions.drop_last()) + kinded(last.kind, last.fills@)) =~= strip(
            region_fills(regions.drop_last()),
        ) + crate::denote::fill_paths(last.fills@));
    }
}

proof fn lemma_drop_empty_same(ps: Seq<(Seq<Point>, i64)>, res: int)
    ensures
        paths_cells(drop_empty(ps), res) == paths_cells(ps, res),
        forall|c: (i64, i64)| #[trigger] paths_count(drop_empty(ps), res, c) == paths_count(ps, res, c),
    decreases ps.len(),
{
    if ps.len() > 0 {
        lemma_drop_empty_same(ps.drop_last(), res);
        let x = ps.last();
        if x.0.len() == 0 {
            assert(path_cells(x.0, x.1 as int, res) =~= Set::empty());
            assert(paths_cells(ps, res) =~= paths_cells(ps.drop_last(), res));
            assert forall|c: (i64, i64)| #[trigger] paths_count(drop_empty(ps), res, c) == paths_count(ps, res, c) by {
                assert(!path_cells(x.0, x.1 as int, res).contains(c));
                assert(paths_count(drop_empty(ps.drop_last()), res, c) == paths_count(ps.drop_last(), res, c));
            }
        } else {
            let d = drop_empty(ps.drop_last());
            assert(drop_empty(ps) == d.push(x));
            assert(d.push(x).drop_last() =~= d);
            assert forall|c: (i64, i64)| #[trigger] paths_count(drop_empty(ps), res, c) == paths_count(ps, res, c) by {
                assert(paths_count(d, res, c) == paths_count(ps.drop_last(), res, c));
            }
        }
    }
}

/// Lowering preserves the denotation: the lowered program deposits exactly the material of the
/// high-level program (the same occupied cells, layer by layer) and covers each cell with exactly
/// as many paths.
pub proof fn lemma_lowering_preserves_denotation(p: hi::Program, l: lo::Program, res: int)
    requires
        is_lowering(p, l),
    ensures
        lo_occupancy(l.layers@, res) == hi_occupancy(p.layers@, res),
        lo_deposit(l.layers@, res) == hi_deposit(p.layers@, res),
{
    assert forall|i: int| 0 <= i < p.layers@.len() implies lo_paths(l.layers@[i].toolpaths@) == drop_empty(
        hi_paths(p.layers@[i].regions@),
    ) by {
        assert(is_layer_lowering(p.layers@[i], l.layers@[i]));
        lemma_lo_paths_view(l.layers@[i].toolpaths@);
        lemma_moves_paths(region_fills(p.layers@[i].regions@));
        lemma_strip_region_fills(p.layers@[i].regions@);
    }
    assert forall|i: int| 0 <= i < p.layers@.len() implies #[trigger] lo_occupancy(l.layers@, res)[i]
        == hi_occupancy(p.layers@, res)[i] by {
        assert(is_layer_lowering(p.layers@[i], l.layers@[i]));
        let hp = hi_paths(p.layers@[i].regions@);
        lemma_drop_empty_same(hp, res);
    }
    assert forall|i: int| 0 <= i < p.layers@.len() implies #[trigger] lo_deposit(l.layers@, res)[i]
        == hi_deposit(p.layers@, res)[i] by {
        assert(is_layer_lowering(p.layers@[i], l.layers@[i]));
        let hp = hi_paths(p.layers@[i].regions@);
        lemma_drop_empty_same(hp, res);
        assert(paths_count_map(drop_empty(hp), res) =~= paths_count_map(hp, res));
    }
    assert(lo_occupancy(l.layers@, res) =~= hi_occupancy(p.layers@, res));
    assert(lo_deposit(l.layers@, res) =~= hi_deposit(p.layers@, res));
}

/// The non-empty fills of one region, in order, each as (the region's role, points, width).
pub open spec fn region_extrusions(kind: RegionKind, fills: Seq<ExtrudePath>) -> Seq<(RegionKind, Seq<Point>, i64)>
    decreases fills.len(),
{
    if fills.len() == 0 {
        Seq::empty()
    } else if fills.last().path.points@.len() > 0 {
        region_extrusions(kind, fills.drop_last()).push((kind, fills.last().path.points@, fills.last().width_um))
    } else {
        region_extrusions(kind, fills.drop_last())
    }
}

/// The non-empty fills of a layer's regions, region by region, each with its region's role.
pub open spec fn layer_extrusions(regions: Seq<hi::Region>) -> Seq<(RegionKind, Seq<Point>, i64)>
    decreases regions.len(),
{
    if regions.len() == 0 {
        Seq::empty()
    } else {
        layer_extrusions(regions.drop_last()) + region_extrusions(regions.last().kind, regions.last().fills@)
    }
}

/// The extruding toolpaths of a low-level layer, in order, each as (its role, points, width).
pub open spec fn toolpath_extrusions(ts: Seq<lo::Toolpath>) -> Seq<(RegionKind, Seq<Point>, i64)>
    decreases ts.len(),
{
    if ts.len() == 0 {
        Seq::empty()
    } else {
        match ts.last().kind {
            SegmentKind::Extrude(r) => toolpath_extrusions(ts.drop_last()).push(
                (r, ts.last().path.points@, ts.last().width_um),
            ),
            SegmentKind::Travel => toolpath_extrusions(ts.drop_last()),
        }
    }
}

spec fn view_extrusions(vs: Seq<ToolpathView>) -> Seq<(RegionKind, Seq<Point>, i64)>
    decreases vs.len(),
{
    if vs.len() == 0 {
        Seq::empty()
    } else {
        match vs.last().0 {
            SegmentKind::Extrude(r) => view_extrusions(vs.drop_last()).push((r, vs.last().1, vs.last().2)),
            SegmentKind::Travel => view_extrusions(vs.drop_last()),
        }
    }
}

spec fn nonempty(fs: Seq<(RegionKind, Seq<Point>, i64)>) -> Seq<(RegionKind, Seq<Point>, i64)>
    decreases fs.len(),
{
    if fs.len() == 0 {
        Seq::empty()
    } else if fs.last().1.len() > 0 {
        nonempty(fs.drop_last()).push(fs.last())
    } else {
        nonempty(fs.drop_last())
    }
}

proof fn lemma_toolpath_extrusions_view(ts: Seq<lo::Toolpath>)
    ensures
        toolpath_extrusions(ts) == view_extrusions(ts.map_values(|t: lo::Toolpath| t@)),
    decreases ts.len(),
{
    if ts.len() > 0 {
        lemma_toolpath_extrusions_view(ts.drop_last());
        assert(ts.drop_last().map_values(|t: lo::Toolpath| t@) =~= ts.map_values(|t: lo::Toolpath| t@).drop_last());
    }
}

proof fn lemma_view_extrusions_push(vs: Seq<ToolpathView>, v: ToolpathView)
    ensures
        view_extrusions(vs.push(v)) == match v.0 {
            SegmentKind::Extrude(r) => view_extrusions(vs).push((r, v.1, v.2)),
            SegmentKind::Travel => view_extrusions(vs),
        },
{
    assert(vs.push(v).drop_last() =~= vs);
}

proof fn lemma_moves_extrusions(fs: Seq<(RegionKind, Seq<Point>, i64)>)
    ensures
        view_extrusions(lower_moves(fs)) == nonempty(fs),
    decreases fs.len(),
{
    if fs.len() > 0 {
        lemma_moves_extrusions(fs.drop_last());
        let prev = lower_moves(fs.drop_last());
        let f = fs.last();
        if f.1.len() > 0 {
            let moved = match last_end(fs.drop_last()) {
                Some(e) => if e != f.1[0] {
                    prev.push((SegmentKind::Travel, seq![e, f.1[0]], 0i64, None::<i64>))
                } else {
                    prev
                },
                None => prev,
            };
            match last_end(fs.drop_last()) {
                Some(e) => if e != f.1[0] {
                    lemma_view_extrusions_push(prev, (SegmentKind::Travel, seq![e, f.1[0]], 0i64, None::<i64>));
                },
                None => {},
            }
            assert(view_extrusions(moved) == view_extrusions(prev));
            lemma_view_extrusions_push(moved, (SegmentKind::Extrude(f.0), f.1, f.2, None::<i64>));
        }
    }
}

proof fn lemma_nonempty_concat(a: Seq<(RegionKind, Seq<Point>, i64)>, b: Seq<(RegionKind, Seq<Point>, i64)>)
    ensures
        nonempty(a + b) == nonempty(a) + nonempty(b),
    decreases b.len(),
{
    if b.len() == 0 {
        assert(a + b =~= a);
        assert(nonempty(a) + nonempty(b) =~= nonempty(a));
    } else {
        lemma_nonempty_concat(a, b.drop_last());
        assert((a + b).drop_last() =~= a + b.drop_last());
        if b.last().1.len() > 0 {
            assert(nonempty(a) + nonempty(b.drop_last()).push(b.last()) =~= (nonempty(a) + nonempty(b.drop_last())).push(
                b.last(),
            ));
        }
    }
}

proof fn lemma_kinded_extrusions(kind: RegionKind, fills: Seq<ExtrudePath>)
    ensures
        nonempty(kinded(kind, fills)) == region_extrusions(kind, fills),
    decreases fills.len(),
{
    if fills.len() > 0 {
        lemma_kinded_extrusions(kind, fills.drop_last());
        assert(kinded(kind, fills.drop_last()) =~= kinded(kind, fills).drop_last());
    }
}

proof fn lemma_region_fills_extrusions(regions: Seq<hi::Region>)
    ensures
        nonempty(region_fills(regions)) == layer_extrusions(regions),
    decreases regions.len(),
{
    if regions.len() > 0 {
        lemma_region_fills_extrusions(regions.drop_last());
        lemma_nonempty_concat(region_fills(regions.drop_last()), kinded(regions.last().kind, regions.last().fills@));
        lemma_kinded_extrusions(regions.last().kind, regions.last().fills@);
    }
}

/// Lowering keeps every fill's role: the extruding toolpaths of each lowered layer are, in order,
/// the layer's non-empty fills region by region, each tagged with the role of the region it came
/// from and keeping its points and width; the layer keeps its height.
pub proof fn lemma_lowering_keeps_roles(p: hi::Program, l: lo::Program)
    requires
        is_lowering(p, l),
    ensures
        l.layers@.len() == p.layers@.len(),
        forall|i: int|
            0 <= i < p.layers@.len() ==> (#[trigger] l.layers@[i]).z_um == p.layers@[i].z_um && toolpath_extrusions(
                l.layers@[i].toolpaths@,
            ) == layer_extrusions(p.layers@[i].regions@),
{
    assert forall|i: int| 0 <= i < p.layers@.len() implies (#[trigger] l.layers@[i]).z_um == p.layers@[i].z_um
        && toolpath_extrusions(l.layers@[i].toolpaths@) == layer_extrusions(p.layers@[i].regions@) by {
        assert(is_layer_lowering(p.layers@[i], l.layers@[i]));
        lemma_toolpath_extrusions_view(l.layers@[i].toolpaths@);
        lemma_moves_extrusions(region_fills(p.layers@[i].regions@));
        lemma_region_fills_extrusions(p.layers@[i].regions@);
    }
}

/// A move sequence is continuous: every toolpath has points, each starts where the one before it
/// ends, and every travel is one hop between two different points.
pub open spec fn moves_continuous(ts: Seq<ToolpathView>) -> bool {
    &&& forall|k: int| 0 <= k < ts.len() ==> (#[trigger] ts[k]).1.len() > 0
    &&& forall|k: int| 0 <= k < ts.len() - 1 ==> (#[trigger] ts[k + 1]).1[0] == ts[k].1.last()
    &&& forall|k: int| 0 <= k < ts.len() && (#[trigger] ts[k]).0 is Travel ==> ts[k].1.len() == 2 && ts[k].1[0] != ts[k].1[1]
}

proof fn lemma_moves_shape(fs: Seq<(RegionKind, Seq<Point>, i64)>)
    ensures
        (lower_moves(fs).len() == 0) == (last_end(fs) is None),
        lower_moves(fs).len() > 0 ==> last_end(fs) == Some(lower_moves(fs).last().1.last()),
        moves_continuous(lower_moves(fs)),
    decreases fs.len(),
{
    if fs.len() > 0 {
        lemma_moves_shape(fs.drop_last());
        let prev = lower_moves(fs.drop_last());
        let f = fs.last();
        if f.1.len() > 0 {
            let ex = (SegmentKind::Extrude(f.0), f.1, f.2, None::<i64>);
            match last_end(fs.drop_last()) {
                Some(e) => {
                    if e != f.1[0] {
                        let tr = (SegmentKind::Travel, seq![e, f.1[0]], 0i64, None::<i64>);
                        let m = prev.push(tr);
                        let r = m.push(ex);
                        assert(r == lower_moves(fs));
                        assert forall|k: int| 0 <= k < r.len() - 1 implies (#[trigger] r[k + 1]).1[0] == r[k].1.last() by {
                            if k < prev.len() - 1 {
                                assert(r[k] == prev[k] && r[k + 1] == prev[k + 1]);
                            }
                        }
                        assert forall|k: int| 0 <= k < r.len() implies (#[trigger] r[k]).1.len() > 0 by {
                            if k < prev.len() {
                                assert(r[k] == prev[k]);
                            }
                        }
                        assert forall|k: int| 0 <= k < r.len() && (#[trigger] r[k]).0 is Travel implies r[k].1.len() == 2
                            && r[k].1[0] != r[k].1[1] by {
                            if k < prev.len() {
                                assert(r[k] == prev[k]);
                            }
                        }
                    } else {
                        let r = prev.push(ex);
                        assert(r == lower_moves(fs));
                        assert forall|k: int| 0 <= k < r.len() - 1 implies (#[trigger] r[k + 1]).1[0] == r[k].1.last() by {
                            if k < prev.len() - 1 {
                                assert(r[k] == prev[k] && r[k + 1] == prev[k + 1]);
                            }
                        }
                        assert forall|k: int| 0 <= k < r.len() implies (#[trigger] r[k]).1.len() > 0 by {
                            if k < prev.len() {
                                assert(r[k] == prev[k]);
                            }
                        }
                        assert forall|k: int| 0 <= k < r.len() && (#[trigger] r[k]).0 is Travel implies r[k].1.len() == 2
                            && r[k].1[0] != r[k].1[1] by {
                            if k < prev.len() {
                                assert(r[k] == prev[k]);
                            }
                        }
                    }
                },
                None => {
                    let r = prev.push(ex);
                    assert(r == lower_moves(fs));
                    assert(prev.len() == 0);
                },
            }
        }
    }
}

/// Lowering emits each layer as one continuous move sequence: every toolpath starts where the
/// previous one ended, and a travel is inserted only as a single hop between two different points.
pub proof fn lemma_lowering_is_continuous(p: hi::Program, l: lo::Program)
    requires
        is_lowering(p, l),
    ensures
        forall|i: int| 0 <= i < l.layers@.len() ==> moves_continuous((#[trigger] l.layers@[i]).toolpaths@.map_values(|t: lo::Toolpath| t@)),
{
    assert forall|i: int| 0 <= i < l.layers@.len() implies moves_continuous((#[trigger] l.layers@[i]).toolpaths@.map_values(|t: lo::Toolpath| t@)) by {
        assert(is_layer_lowering(p.layers@[i], l.layers@[i]));
        lemma_moves_shape(region_fills(p.layers@[i].regions@));
    }
}

} // verus!
