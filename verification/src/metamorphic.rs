//! Metamorphic relations over the IR: properties a correct denotation must satisfy under geometric
//! transforms of the input. Here: translation-invariance.
use std::collections::BTreeSet;

use vstd::prelude::*;

use crate::coverage::{canon, centre, covers, eff_res, path_cells, path_covers};
use crate::denote::{cells_equal, denote_lo, dpath, lo_occupancy, paths_cells, view_occupancy, view_paths};
use crate::ir::lo::{self, ToolpathView};
use crate::ir::{Point, Polyline};
use crate::raster::cell_list;

verus! {

broadcast use vstd::laws_cmp::group_laws_cmp;

/// `v` clamped into the `i64` range.
pub open spec fn clamp64(v: int) -> i64 {
    if v < i64::MIN {
        i64::MIN
    } else if v > i64::MAX {
        i64::MAX
    } else {
        v as i64
    }
}

/// A point moved by `(dx, dy)`, each coordinate saturating at the `i64` range.
pub open spec fn shift_point(p: Point, dx: i64, dy: i64) -> Point {
    Point { x: clamp64(p.x + dx), y: clamp64(p.y + dy) }
}

/// A toolpath with every point moved by `(dx, dy)`.
pub open spec fn shift_toolpath(t: ToolpathView, dx: i64, dy: i64) -> ToolpathView {
    (t.0, t.1.map_values(|p: Point| shift_point(p, dx, dy)), t.2, t.3)
}

/// A move plan with every point moved by `(dx, dy)`.
pub open spec fn translate_view(pv: Seq<(i64, Seq<ToolpathView>)>, dx: i64, dy: i64) -> Seq<(i64, Seq<ToolpathView>)> {
    pv.map_values(
        |l: (i64, Seq<ToolpathView>)| (l.0, l.1.map_values(|t: ToolpathView| shift_toolpath(t, dx, dy))),
    )
}

fn sat_add(a: i64, b: i64) -> (r: i64)
    ensures
        r == clamp64(a + b),
{
    let s: i128 = a as i128 + b as i128;
    if s < i64::MIN as i128 {
        i64::MIN
    } else if s > i64::MAX as i128 {
        i64::MAX
    } else {
        s as i64
    }
}

fn translate_points(pts: &Vec<Point>, dx: i64, dy: i64) -> (out: Vec<Point>)
    ensures
        out@ == pts@.map_values(|p: Point| shift_point(p, dx, dy)),
{
    let mut out: Vec<Point> = Vec::new();
    let mut k: usize = 0;
    while k < pts.len()
        invariant
            k <= pts.len(),
            out@ == pts@.take(k as int).map_values(|p: Point| shift_point(p, dx, dy)),
        decreases pts.len() - k,
    {
        let p = pts[k];
        out.push(Point::new(sat_add(p.x, dx), sat_add(p.y, dy)));
        k += 1;
        assert(out@ =~= pts@.take(k as int).map_values(|p: Point| shift_point(p, dx, dy)));
    }
    assert(pts@.take(k as int) =~= pts@);
    out
}

/// Translate every point of a low-level program by `(dx, dy)` microns (saturating at the `i64`
/// range).
pub fn translate(program: &lo::Program, dx: i64, dy: i64) -> (out: lo::Program)
    ensures
        out@ == translate_view(program@, dx, dy),
{
    let mut layers: Vec<lo::Layer> = Vec::new();
    let mut li: usize = 0;
    while li < program.layers.len()
        invariant
            li <= program.layers.len(),
            layers@.map_values(|l: lo::Layer| l@) == translate_view(program@.take(li as int), dx, dy),
        decreases program.layers.len() - li,
    {
        let layer = &program.layers[li];
        let mut tps: Vec<lo::Toolpath> = Vec::new();
        let mut k: usize = 0;
        while k < layer.toolpaths.len()
            invariant
                k <= layer.toolpaths.len(),
                layer == &program.layers@[li as int],
                tps@.map_values(|t: lo::Toolpath| t@) == layer.toolpaths@.take(k as int).map_values(
                    |t: lo::Toolpath| shift_toolpath(t@, dx, dy),
                ),
            decreases layer.toolpaths.len() - k,
        {
            let t = &layer.toolpaths[k];
            let ghost before = tps@.map_values(|t: lo::Toolpath| t@);
            let nt = lo::Toolpath {
                kind: t.kind,
                path: Polyline::new(translate_points(&t.path.points, dx, dy)),
                width_um: t.width_um,
                flow_e: t.flow_e,
            };
            tps.push(nt);
            assert(tps@.map_values(|t: lo::Toolpath| t@) =~= before.push(shift_toolpath(t@, dx, dy)));
            k += 1;
            assert(layer.toolpaths@.take(k as int).map_values(|t: lo::Toolpath| shift_toolpath(t@, dx, dy))
                =~= layer.toolpaths@.take(k - 1).map_values(|t: lo::Toolpath| shift_toolpath(t@, dx, dy)).push(
                shift_toolpath(layer.toolpaths@[k - 1]@, dx, dy),
            ));
        }
        let ghost before = layers@.map_values(|l: lo::Layer| l@);
        let nl = lo::Layer { z_um: layer.z_um, toolpaths: tps };
        proof {
            assert(layer.toolpaths@.take(k as int) =~= layer.toolpaths@);
            assert(nl@.1 =~= layer@.1.map_values(|t: ToolpathView| shift_toolpath(t, dx, dy)));
        }
        layers.push(nl);
        assert(layers@.map_values(|l: lo::Layer| l@) =~= before.push(nl@));
        li += 1;
        assert(translate_view(program@.take(li as int), dx, dy) =~= translate_view(
            program@.take(li - 1),
            dx,
            dy,
        ).push(nl@));
    }
    assert(program@.take(li as int) =~= program@);
    let out = lo::Program { layers };
    assert(out@ =~= translate_view(program@, dx, dy));
    out
}

// ------------------------------------------------------------------------------------------------
// The relation.

/// A cell set moved by whole cells.
pub open spec fn shift_cells(s: Set<(i64, i64)>, cx: i64, cy: i64) -> Set<(i64, i64)> {
    s.map(|c: (i64, i64)| ((c.0 + cx) as i64, (c.1 + cy) as i64))
}

/// Every occupied cell of every layer can be moved by `(cx, cy)` without leaving the `i64` range.
pub open spec fn shift_fits(o: Seq<(i64, i64, Set<(i64, i64)>)>, cx: i64, cy: i64) -> bool {
    forall|l: int, c: (i64, i64)|
        0 <= l < o.len() && #[trigger] o[l].2.contains(c) ==> i64::MIN <= c.0 + cx <= i64::MAX && i64::MIN
            <= c.1 + cy <= i64::MAX
}

/// `moved` is `base` moved by whole cells: same layers, heights and resolutions, cells shifted.
pub open spec fn is_cell_shift(
    base: Seq<(i64, i64, Set<(i64, i64)>)>,
    moved: Seq<(i64, i64, Set<(i64, i64)>)>,
    cx: i64,
    cy: i64,
) -> bool {
    &&& base.len() == moved.len()
    &&& forall|l: int| 0 <= l < base.len() ==> #[trigger] layer_shifted(base[l], moved[l], cx, cy)
}

/// One layer of `moved` is the same layer of `base` moved by whole cells.
pub open spec fn layer_shifted(b: (i64, i64, Set<(i64, i64)>), m: (i64, i64, Set<(i64, i64)>), cx: i64, cy: i64) -> bool {
    m.0 == b.0 && m.1 == b.1 && m.2 == shift_cells(b.2, cx, cy)
}

/// A cell moved by `(cx, cy)`.
pub open spec fn shift_cell(c: (i64, i64), cx: i64, cy: i64) -> (i64, i64) {
    ((c.0 + cx) as i64, (c.1 + cy) as i64)
}

/// The first `k` cells of a list, moved by `(cx, cy)`.
pub open spec fn shifted_prefix(list: Seq<(i64, i64)>, k: int, cx: i64, cy: i64) -> Set<(i64, i64)> {
    Set::new(
        |d: (i64, i64)|
            exists|t: int| 0 <= t < k && d == #[trigger] shift_cell(list[t], cx, cy),
    )
}

fn shifted_set(s: &BTreeSet<(i64, i64)>, cx: i64, cy: i64) -> (out: BTreeSet<(i64, i64)>)
    requires
        forall|c: (i64, i64)|
            #[trigger] s@.contains(c) ==> i64::MIN <= c.0 + cx <= i64::MAX && i64::MIN <= c.1 + cy <= i64::MAX,
    ensures
        out@ == shift_cells(s@, cx, cy),
{
    let list = cell_list(s);
    let mut out: BTreeSet<(i64, i64)> = BTreeSet::new();
    let mut k: usize = 0;
    assert(out@ =~= shifted_prefix(list@, 0, cx, cy));
    while k < list.len()
        invariant
            k <= list.len(),
            list@.to_set() == s@,
            forall|c: (i64, i64)|
                #[trigger] s@.contains(c) ==> i64::MIN <= c.0 + cx <= i64::MAX && i64::MIN <= c.1 + cy <= i64::MAX,
            out@ == shifted_prefix(list@, k as int, cx, cy),
        decreases list.len() - k,
    {
        let c = list[k];
        proof {
            assert(list@.contains(c));
            assert(s@.contains(c));
        }
        out.insert((c.0 + cx, c.1 + cy));
        proof {
            assert forall|d: (i64, i64)| #[trigger] out@.contains(d) <==> shifted_prefix(list@, k + 1, cx, cy).contains(d) by {
                if d == shift_cell(c, cx, cy) {
                    assert(list@[k as int] == c);
                }
                if shifted_prefix(list@, k + 1, cx, cy).contains(d) {
                    let t = choose|t: int| 0 <= t < k + 1 && d == #[trigger] shift_cell(list@[t], cx, cy);
                    if t < k {
                        assert(shifted_prefix(list@, k as int, cx, cy).contains(d));
                    }
                }
                if shifted_prefix(list@, k as int, cx, cy).contains(d) {
                    let t = choose|t: int| 0 <= t < k && d == #[trigger] shift_cell(list@[t], cx, cy);
                    assert(0 <= t < k + 1);
                }
            }
            assert(out@ =~= shifted_prefix(list@, k + 1, cx, cy));
        }
        k += 1;
    }
    proof {
        let f = |c: (i64, i64)| ((c.0 + cx) as i64, (c.1 + cy) as i64);
        assert forall|d: (i64, i64)| #[trigger] out@.contains(d) <==> s@.map(f).contains(d) by {
            if out@.contains(d) {
                let t = choose|t: int| 0 <= t < k && d == #[trigger] shift_cell(list@[t], cx, cy);
                assert(list@.contains(list@[t]));
                assert(s@.contains(list@[t]));
                assert(d == f(list@[t]));
            }
            if s@.map(f).contains(d) {
                let c = choose|c: (i64, i64)| s@.contains(c) && f(c) == d;
                assert(list@.to_set().contains(c));
                assert(list@.contains(c));
                let t = choose|t: int| 0 <= t < list@.len() && list@[t] == c;
                assert(d == shift_cell(list@[t], cx, cy));
            }
        }
        assert(out@ =~= s@.map(f));
    }
    out
}

/// Translation-invariance: translating the program by an exact whole number of raster cells must
/// shift the occupancy by exactly that many cells and change nothing else. Returns whether the
/// occupancy of the translated program is the base occupancy moved by `(cells_x, cells_y)`.
pub fn translation_invariant(program: &lo::Program, cells_x: i64, cells_y: i64, resolution_um: i64) -> (ok: bool)
    requires
        i64::MIN <= cells_x * eff_res(resolution_um as int) <= i64::MAX,
        i64::MIN <= cells_y * eff_res(resolution_um as int) <= i64::MAX,
        shift_fits(lo_occupancy(program.layers@, eff_res(resolution_um as int)), cells_x, cells_y),
    ensures
        ok == is_cell_shift(
            view_occupancy(program@, eff_res(resolution_um as int)),
            view_occupancy(
                translate_view(
                    program@,
                    (cells_x * eff_res(resolution_um as int)) as i64,
                    (cells_y * eff_res(resolution_um as int)) as i64,
                ),
                eff_res(resolution_um as int),
            ),
            cells_x,
            cells_y,
        ),
{
    let r: i64 = if resolution_um < 1 { 1 } else { resolution_um };
    let base = denote_lo(program, r);
    let moved_prog = translate(program, cells_x * r, cells_y * r);
    let moved = denote_lo(&moved_prog, r);
    let ghost rr = eff_res(resolution_um as int);
    proof {
        crate::denote::lemma_lo_occupancy_view(*program, rr);
        crate::denote::lemma_lo_occupancy_view(moved_prog, rr);
        assert(eff_res(r as int) == rr);
        assert(r as int == rr);
        assert((cells_x * rr) as i64 == cells_x * r);
        assert((cells_y * rr) as i64 == cells_y * r);
        assert(moved_prog@ == translate_view(program@, (cells_x * rr) as i64, (cells_y * rr) as i64));
    }
    if base.layers.len() != moved.layers.len() {
        assert(base@.len() != moved@.len());
        return false;
    }
    let mut k: usize = 0;
    while k < base.layers.len()
        invariant
            k <= base.layers.len(),
            base.layers.len() == moved.layers.len(),
            base@ == view_occupancy(program@, rr),
            moved@ == view_occupancy(moved_prog@, rr),
            rr == eff_res(resolution_um as int),
            moved_prog@ == translate_view(program@, (cells_x * rr) as i64, (cells_y * rr) as i64),
            shift_fits(base@, cells_x, cells_y),
            forall|l: int| 0 <= l < k ==> #[trigger] layer_shifted(base@[l], moved@[l], cells_x, cells_y),
        decreases base.layers.len() - k,
    {
        let b = &base.layers[k];
        let m = &moved.layers[k];
        proof {
            assert(base@[k as int] == b@);
            assert(moved@[k as int] == m@);
            assert forall|c: (i64, i64)| #[trigger] b.cells@.contains(c) implies i64::MIN <= c.0 + cells_x
                <= i64::MAX && i64::MIN <= c.1 + cells_y <= i64::MAX by {
                assert(base@[k as int].2.contains(c));
            }
        }
        let sh = shifted_set(&b.cells, cells_x, cells_y);
        if b.z_um != m.z_um || b.resolution_um != m.resolution_um || !cells_equal(&m.cells, &sh) {
            assert(!layer_shifted(base@[k as int], moved@[k as int], cells_x, cells_y));
            return false;
        }
        assert(layer_shifted(base@[k as int], moved@[k as int], cells_x, cells_y));
        k += 1;
    }
    true
}

// ------------------------------------------------------------------------------------------------
// Why the relation holds: coverage depends only on the offset between a cell centre and a segment.

/// Moving a segment by whole cells moves the cells it covers by the same number of cells.
pub proof fn lemma_covers_translate(i: int, j: int, p: Point, q: Point, w: int, res: int, cx: int, cy: int)
    requires
        ({
            let r = eff_res(res);
            &&& i64::MIN <= p.x + cx * r <= i64::MAX
            &&& i64::MIN <= p.y + cy * r <= i64::MAX
            &&& i64::MIN <= q.x + cx * r <= i64::MAX
            &&& i64::MIN <= q.y + cy * r <= i64::MAX
        }),
    ensures
        ({
            let r = eff_res(res);
            let p2 = Point { x: (p.x + cx * r) as i64, y: (p.y + cy * r) as i64 };
            let q2 = Point { x: (q.x + cx * r) as i64, y: (q.y + cy * r) as i64 };
            covers(i + cx, j + cy, p2, q2, w, res) == covers(i, j, p, q, w, res)
        }),
{
    let r = eff_res(res);
    let p2 = Point { x: (p.x + cx * r) as i64, y: (p.y + cy * r) as i64 };
    let q2 = Point { x: (q.x + cx * r) as i64, y: (q.y + cy * r) as i64 };
    let (a, b) = canon(p, q);
    let (a2, b2) = canon(p2, q2);
    assert(a2.x == a.x + cx * r && a2.y == a.y + cy * r);
    assert(b2.x == b.x + cx * r && b2.y == b.y + cy * r);
    assert(centre(i + cx, r) - a2.x == centre(i, r) - a.x) by (nonlinear_arith)
        requires
            a2.x == a.x + cx * r,
    ;
    assert(centre(j + cy, r) - a2.y == centre(j, r) - a.y) by (nonlinear_arith)
        requires
            a2.y == a.y + cy * r,
    ;
}

/// A polyline moved by whole cells covers exactly the moved cells.
pub proof fn lemma_path_translate(pts: Seq<Point>, w: int, res: int, cx: int, cy: int, i: int, j: int)
    requires
        forall|k: int|
            0 <= k < pts.len() ==> i64::MIN <= #[trigger] pts[k].x + cx * eff_res(res) <= i64::MAX && i64::MIN
                <= pts[k].y + cy * eff_res(res) <= i64::MAX,
    ensures
        path_covers(
            pts.map_values(|p: Point| Point { x: (p.x + cx * eff_res(res)) as i64, y: (p.y + cy * eff_res(res)) as i64 }),
            i + cx,
            j + cy,
            w,
            res,
        ) == path_covers(pts, i, j, w, res),
{
    let r = eff_res(res);
    let moved = pts.map_values(|p: Point| Point { x: (p.x + cx * r) as i64, y: (p.y + cy * r) as i64 });
    if pts.len() == 1 {
        lemma_covers_translate(i, j, pts[0], pts[0], w, res, cx, cy);
    } else {
        if path_covers(pts, i, j, w, res) {
            let k = choose|k: int| 0 <= k < pts.len() - 1 && #[trigger] covers(i, j, pts[k], pts[k + 1], w, res);
            lemma_covers_translate(i, j, pts[k], pts[k + 1], w, res, cx, cy);
            assert(covers(i + cx, j + cy, moved[k], moved[k + 1], w, res));
        }
        if path_covers(moved, i + cx, j + cy, w, res) {
            let k = choose|k: int|
                0 <= k < moved.len() - 1 && #[trigger] covers(i + cx, j + cy, moved[k], moved[k + 1], w, res);
            lemma_covers_translate(i, j, pts[k], pts[k + 1], w, res, cx, cy);
            assert(covers(i, j, pts[k], pts[k + 1], w, res));
        }
    }
}


// ------------------------------------------------------------------------------------------------
// Whole-program relations.

/// Every point of the move plan stays in the `i64` range when moved by `(dx, dy)`.
pub open spec fn shift_in_range(pv: Seq<(i64, Seq<ToolpathView>)>, dx: int, dy: int) -> bool {
    forall|l: int, t: int, k: int|
        0 <= l < pv.len() && 0 <= t < pv[l].1.len() && 0 <= k < pv[l].1[t].1.len() ==> i64::MIN
            <= #[trigger] pv[l].1[t].1[k].x + dx <= i64::MAX && i64::MIN <= pv[l].1[t].1[k].y + dy <= i64::MAX
}

/// A path list with every point moved by `(dx, dy)`.
pub open spec fn shift_paths(ps: Seq<(Seq<Point>, i64)>, dx: int, dy: int) -> Seq<(Seq<Point>, i64)> {
    ps.map_values(
        |x: (Seq<Point>, i64)| (x.0.map_values(|p: Point| Point { x: (p.x + dx) as i64, y: (p.y + dy) as i64 }), x.1),
    )
}

proof fn lemma_view_paths_shift(tps: Seq<ToolpathView>, dx: i64, dy: i64)
    requires
        forall|t: int, k: int|
            0 <= t < tps.len() && 0 <= k < tps[t].1.len() ==> i64::MIN <= #[trigger] tps[t].1[k].x + dx <= i64::MAX
                && i64::MIN <= tps[t].1[k].y + dy <= i64::MAX,
    ensures
        view_paths(tps.map_values(|t: ToolpathView| shift_toolpath(t, dx, dy))) == shift_paths(
            view_paths(tps),
            dx as int,
            dy as int,
        ),
    decreases tps.len(),
{
    let f = |t: ToolpathView| shift_toolpath(t, dx, dy);
    let moved = tps.map_values(f);
    if tps.len() > 0 {
        let init = tps.drop_last();
        assert(moved.drop_last() =~= init.map_values(f));
        assert forall|t: int, k: int|
            0 <= t < init.len() && 0 <= k < init[t].1.len() implies i64::MIN <= #[trigger] init[t].1[k].x + dx
                <= i64::MAX && i64::MIN <= init[t].1[k].y + dy <= i64::MAX by {
            assert(init[t] == tps[t]);
        }
        lemma_view_paths_shift(init, dx, dy);
        let last = tps.last();
        assert(moved.last() == f(last));
        let g = |p: Point| Point { x: (p.x + dx) as i64, y: (p.y + dy) as i64 };
        assert(f(last).1 =~= last.1.map_values(g)) by {
            assert forall|k: int| 0 <= k < last.1.len() implies f(last).1[k] == last.1.map_values(g)[k] by {
                assert(tps[tps.len() - 1].1[k] == last.1[k]);
            }
        }
        if last.0 is Extrude {
            assert(view_paths(tps) == view_paths(init).push(dpath(last.1, last.2)));
            assert(shift_paths(view_paths(tps), dx as int, dy as int) =~= shift_paths(view_paths(init), dx as int, dy as int).push(
                (last.1.map_values(g), last.2),
            ));
        } else {
            assert(view_paths(tps) == view_paths(init));
        }
    } else {
        assert(shift_paths(view_paths(tps), dx as int, dy as int) =~= Seq::<(Seq<Point>, i64)>::empty());
    }
}

proof fn lemma_paths_cells_translate(ps: Seq<(Seq<Point>, i64)>, res: int, cx: int, cy: int, i: int, j: int)
    requires
        forall|t: int, k: int|
            0 <= t < ps.len() && 0 <= k < ps[t].0.len() ==> i64::MIN <= #[trigger] ps[t].0[k].x + cx * eff_res(res)
                <= i64::MAX && i64::MIN <= ps[t].0[k].y + cy * eff_res(res) <= i64::MAX,
        i64::MIN <= i <= i64::MAX,
        i64::MIN <= j <= i64::MAX,
        i64::MIN <= i + cx <= i64::MAX,
        i64::MIN <= j + cy <= i64::MAX,
    ensures
        paths_cells(shift_paths(ps, cx * eff_res(res), cy * eff_res(res)), res).contains(((i + cx) as i64, (j + cy) as i64))
            == paths_cells(ps, res).contains((i as i64, j as i64)),
    decreases ps.len(),
{
    let r = eff_res(res);
    let moved = shift_paths(ps, cx * r, cy * r);
    if ps.len() > 0 {
        let init = ps.drop_last();
        assert(moved.drop_last() =~= shift_paths(init, cx * r, cy * r));
        assert forall|t: int, k: int|
            0 <= t < init.len() && 0 <= k < init[t].0.len() implies i64::MIN <= #[trigger] init[t].0[k].x + cx * r
                <= i64::MAX && i64::MIN <= init[t].0[k].y + cy * r <= i64::MAX by {
            assert(init[t] == ps[t]);
        }
        lemma_paths_cells_translate(init, res, cx, cy, i, j);
        let last = ps.last();
        assert forall|k: int| 0 <= k < last.0.len() implies i64::MIN <= #[trigger] last.0[k].x + cx * eff_res(res)
            <= i64::MAX && i64::MIN <= last.0[k].y + cy * eff_res(res) <= i64::MAX by {
            assert(ps[ps.len() - 1].0[k] == last.0[k]);
        }
        lemma_path_translate(last.0, last.1 as int, res, cx, cy, i, j);
        assert(moved.last() == (
            last.0.map_values(|p: Point| Point { x: (p.x + cx * r) as i64, y: (p.y + cy * r) as i64 }),
            last.1,
        ));
    }
}

/// **Translation invariance (whole-cell).** Moving every point of a move plan by an exact whole
/// number of cells `(cx, cy)` (at the effective resolution, with no coordinate leaving the `i64`
/// range) moves its deposited material by exactly those cells: layer for layer, with the same
/// heights and resolution, cell `(i + cx, j + cy)` is covered afterwards exactly when cell `(i, j)`
/// was covered before.
pub proof fn lemma_translation_invariance(p: Seq<(i64, Seq<ToolpathView>)>, res: int, cx: i64, cy: i64, i: i64, j: i64)
    requires
        i64::MIN <= cx * eff_res(res) <= i64::MAX,
        i64::MIN <= cy * eff_res(res) <= i64::MAX,
        shift_in_range(p, cx * eff_res(res), cy * eff_res(res)),
        i64::MIN <= i + cx <= i64::MAX,
        i64::MIN <= j + cy <= i64::MAX,
    ensures
        ({
            let r = eff_res(res);
            let before = view_occupancy(p, res);
            let after = view_occupancy(translate_view(p, (cx * r) as i64, (cy * r) as i64), res);
            &&& after.len() == before.len()
            &&& forall|l: int|
                0 <= l < before.len() ==> (#[trigger] after[l]).0 == before[l].0 && after[l].1 == before[l].1
                    && after[l].2.contains(((i + cx) as i64, (j + cy) as i64)) == before[l].2.contains((i, j))
        }),
{
    let r = eff_res(res);
    let dx = (cx * r) as i64;
    let dy = (cy * r) as i64;
    let q = translate_view(p, dx, dy);
    let before = view_occupancy(p, res);
    let after = view_occupancy(q, res);
    assert forall|l: int| 0 <= l < before.len() implies (#[trigger] after[l]).0 == before[l].0 && after[l].1
        == before[l].1 && after[l].2.contains(((i + cx) as i64, (j + cy) as i64)) == before[l].2.contains(
        (i, j),
    ) by {
        let tps = p[l].1;
        assert forall|t: int, k: int|
            0 <= t < tps.len() && 0 <= k < tps[t].1.len() implies i64::MIN <= #[trigger] tps[t].1[k].x + dx
                <= i64::MAX && i64::MIN <= tps[t].1[k].y + dy <= i64::MAX by {
            assert(p[l].1[t].1[k] == tps[t].1[k]);
        }
        lemma_view_paths_shift(tps, dx, dy);
        assert(q[l].1 == tps.map_values(|t: ToolpathView| shift_toolpath(t, dx, dy)));
        let ps = view_paths(tps);
        lemma_view_paths_in_range(tps, cx * r, cy * r);
        lemma_paths_cells_translate(ps, res, cx as int, cy as int, i as int, j as int);
    }
}

/// When every point of the toolpaths stays in range after a shift, so does every point of the
/// paths they deposit.
proof fn lemma_view_paths_in_range(tps: Seq<ToolpathView>, dx: int, dy: int)
    requires
        forall|t: int, k: int|
            0 <= t < tps.len() && 0 <= k < tps[t].1.len() ==> i64::MIN <= #[trigger] tps[t].1[k].x + dx <= i64::MAX
                && i64::MIN <= tps[t].1[k].y + dy <= i64::MAX,
    ensures
        forall|t: int, k: int|
            0 <= t < view_paths(tps).len() && 0 <= k < view_paths(tps)[t].0.len() ==> i64::MIN
                <= #[trigger] view_paths(tps)[t].0[k].x + dx <= i64::MAX && i64::MIN <= view_paths(tps)[t].0[k].y + dy
                <= i64::MAX,
    decreases tps.len(),
{
    if tps.len() > 0 {
        let init = tps.drop_last();
        let last = tps.last();
        assert forall|t: int, k: int|
            0 <= t < init.len() && 0 <= k < init[t].1.len() implies i64::MIN <= #[trigger] init[t].1[k].x + dx
                <= i64::MAX && i64::MIN <= init[t].1[k].y + dy <= i64::MAX by {
            assert(init[t] == tps[t]);
        }
        lemma_view_paths_in_range(init, dx, dy);
        let b = view_paths(init);
        let vp = view_paths(tps);
        if last.0 is Extrude {
            assert(vp == b.push(dpath(last.1, last.2)));
        } else {
            assert(vp == b);
        }
        assert forall|t: int, k: int|
            0 <= t < vp.len() && 0 <= k < vp[t].0.len() implies i64::MIN <= #[trigger] vp[t].0[k].x + dx <= i64::MAX
                && i64::MIN <= vp[t].0[k].y + dy <= i64::MAX by {
            if t < b.len() {
                assert(vp[t] == b[t]);
            } else {
                assert(vp[t].0 == last.1);
                assert(tps[tps.len() - 1].1[k] == last.1[k]);
            }
        }
    }
}

/// A move plan with every toolpath's points reversed.
pub open spec fn reverse_view(pv: Seq<(i64, Seq<ToolpathView>)>) -> Seq<(i64, Seq<ToolpathView>)> {
    pv.map_values(
        |l: (i64, Seq<ToolpathView>)| (l.0, l.1.map_values(|t: ToolpathView| (t.0, t.1.reverse(), t.2, t.3))),
    )
}

proof fn lemma_paths_cells_reverse(tps: Seq<ToolpathView>, res: int)
    ensures
        paths_cells(view_paths(tps.map_values(|t: ToolpathView| (t.0, t.1.reverse(), t.2, t.3))), res) == paths_cells(
            view_paths(tps),
            res,
        ),
    decreases tps.len(),
{
    let f = |t: ToolpathView| (t.0, t.1.reverse(), t.2, t.3);
    let rv = tps.map_values(f);
    if tps.len() > 0 {
        let init = tps.drop_last();
        assert(rv.drop_last() =~= init.map_values(f));
        lemma_paths_cells_reverse(init, res);
        let last = tps.last();
        assert(rv.last() == f(last));
        let a = view_paths(init.map_values(f));
        let b = view_paths(init);
        if last.0 is Extrude {
            crate::raster::lemma_path_reversal(last.1, last.2 as int, res);
            assert(view_paths(rv) == a.push(dpath(last.1.reverse(), last.2)));
            assert(view_paths(tps) == b.push(dpath(last.1, last.2)));
            assert(a.push(dpath(last.1.reverse(), last.2)).drop_last() =~= a);
            assert(b.push(dpath(last.1, last.2)).drop_last() =~= b);
            assert(paths_cells(view_paths(rv), res) == paths_cells(a, res).union(
                path_cells(last.1.reverse(), last.2 as int, res),
            ));
            assert(paths_cells(view_paths(tps), res) == paths_cells(b, res).union(path_cells(last.1, last.2 as int, res)));
        } else {
            assert(view_paths(rv) == a);
            assert(view_paths(tps) == b);
        }
    } else {
        assert(rv.len() == 0);
        assert(view_paths(rv) =~= Seq::<(Seq<Point>, i64)>::empty());
        assert(view_paths(tps) =~= Seq::<(Seq<Point>, i64)>::empty());
    }
}

/// **Reversal invariance.** Reversing the point order of every toolpath of a move plan deposits the
/// same material: the occupancy is unchanged, layer for layer.
pub proof fn lemma_reversal_invariance(p: Seq<(i64, Seq<ToolpathView>)>, res: int)
    ensures
        view_occupancy(reverse_view(p), res) == view_occupancy(p, res),
{
    let q = reverse_view(p);
    assert forall|l: int| 0 <= l < p.len() implies #[trigger] view_occupancy(q, res)[l] == view_occupancy(p, res)[l] by {
        lemma_paths_cells_reverse(p[l].1, res);
    }
    assert(view_occupancy(q, res) =~= view_occupancy(p, res));
}

/// Every occupied cell of every layer can be moved back by `(cx, cy)` without leaving the `i64`
/// range.
pub open spec fn unshift_fits(o: Seq<(i64, i64, Set<(i64, i64)>)>, cx: i64, cy: i64) -> bool {
    forall|l: int, d: (i64, i64)|
        0 <= l < o.len() && #[trigger] o[l].2.contains(d) ==> i64::MIN <= d.0 - cx <= i64::MAX && i64::MIN
            <= d.1 - cy <= i64::MAX
}

/// **Translation check passes.** Moving a move plan by a whole number of cells `(cx, cy)` gives
/// exactly the moved occupancy ([`is_cell_shift`], what [`translation_invariant`] tests), whenever
/// no point leaves the `i64` range and every occupied cell, before and after, has its moved (or
/// moved-back) cell in range.
pub proof fn lemma_translation_check_holds(p: Seq<(i64, Seq<ToolpathView>)>, res: int, cx: i64, cy: i64)
    requires
        i64::MIN <= cx * eff_res(res) <= i64::MAX,
        i64::MIN <= cy * eff_res(res) <= i64::MAX,
        shift_in_range(p, cx * eff_res(res), cy * eff_res(res)),
        shift_fits(view_occupancy(p, res), cx, cy),
        unshift_fits(
            view_occupancy(translate_view(p, (cx * eff_res(res)) as i64, (cy * eff_res(res)) as i64), res),
            cx,
            cy,
        ),
    ensures
        is_cell_shift(
            view_occupancy(p, res),
            view_occupancy(translate_view(p, (cx * eff_res(res)) as i64, (cy * eff_res(res)) as i64), res),
            cx,
            cy,
        ),
{
    let r = eff_res(res);
    let before = view_occupancy(p, res);
    let after = view_occupancy(translate_view(p, (cx * r) as i64, (cy * r) as i64), res);
    assert forall|l: int| 0 <= l < before.len() implies #[trigger] layer_shifted(before[l], after[l], cx, cy) by {
        let f = |c: (i64, i64)| ((c.0 + cx) as i64, (c.1 + cy) as i64);
        assert forall|d: (i64, i64)| after[l].2.contains(d) implies #[trigger] shift_cells(before[l].2, cx, cy).contains(
            d,
        ) by {
            assert(after[l].2.contains(d));
            let i = (d.0 - cx) as i64;
            let j = (d.1 - cy) as i64;
            lemma_translation_invariance(p, res, cx, cy, i, j);
            assert(((i + cx) as i64, (j + cy) as i64) == d);
            assert(before[l].2.contains((i, j)));
            assert(f((i, j)) == d);
        }
        assert forall|c: (i64, i64)| #[trigger] shift_cells(before[l].2, cx, cy).contains(c) implies after[l].2.contains(
            c,
        ) by {
            let c0 = choose|c0: (i64, i64)| before[l].2.contains(c0) && f(c0) == c;
            assert(before[l].2.contains(c0));
            lemma_translation_invariance(p, res, cx, cy, c0.0, c0.1);
        }
        assert(after[l].2 =~= shift_cells(before[l].2, cx, cy));
        lemma_translation_invariance(p, res, cx, cy, 0, 0);
    }
    lemma_translation_invariance(p, res, cx, cy, 0, 0);
}

} // verus!
