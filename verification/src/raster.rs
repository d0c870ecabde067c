//! Rasterizing swept paths: marking every cell a segment or a polyline covers.
//!
//! A segment is scanned over the index box of its bounding box grown by half the bead plus one
//! resolution; every cell of that box is decided exactly by [`crate::coverage`], and no covered cell
//! lies outside it, so the marked set is exactly [`segment_cells`].
use std::collections::BTreeSet;

use vstd::prelude::*;
use vstd::std_specs::cmp::OrdSpec;
use vstd::std_specs::iter::IteratorSpec;

use crate::coverage::{
    canon, canon_seg, cell_covered, centre, covers, eff_res, eff_width, lemma_covered_near,
    lemma_floor_bounds, path_cells, path_covers, scan_range, segment_cells, abs, gap,
};
use crate::ir::{Point, Polyline};

verus! {

broadcast use vstd::laws_cmp::group_laws_cmp;

/// The covered cells of a segment that a row-major scan has passed before row `j`, column `i`.
pub open spec fn seg_upto(p: Point, q: Point, width: int, res: int, j: int, i: int) -> Set<(i64, i64)> {
    Set::new(
        |c: (i64, i64)|
            segment_cells(p, q, width, res).contains(c) && (c.1 < j || (c.1 == j && c.0 < i)),
    )
}

/// The scan box of a segment along one axis, before division: its coordinate range grown by `pad`.
pub open spec fn box_lo(c1: int, c2: int, pad: int) -> int {
    (if c1 <= c2 { c1 } else { c2 }) - pad
}

pub open spec fn box_hi(c1: int, c2: int, pad: int) -> int {
    (if c1 >= c2 { c1 } else { c2 }) + pad
}

/// A cell index between `lo / r` and `hi / r` has its centre within `(lo - r, hi + r/2]`.
proof fn lemma_centre_bound(i: int, r: int, lo: int, hi: int)
    requires
        r >= 1,
        lo / r <= i <= hi / r,
    ensures
        lo - r < centre(i, r) <= hi + r / 2,
{
    let q = lo / r;
    assert(lo == r * q + lo % r && 0 <= lo % r < r) by {
        vstd::arithmetic::div_mod::lemma_fundamental_div_mod(lo, r);
        vstd::arithmetic::div_mod::lemma_mod_bound(lo, r);
    }
    assert(i * r >= q * r) by (nonlinear_arith)
        requires
            i >= q,
            r >= 1,
    ;
    assert(r * q == q * r) by (nonlinear_arith);
    let q2 = hi / r;
    assert(hi == r * q2 + hi % r && 0 <= hi % r < r) by {
        vstd::arithmetic::div_mod::lemma_fundamental_div_mod(hi, r);
        vstd::arithmetic::div_mod::lemma_mod_bound(hi, r);
    }
    assert(i * r <= q2 * r) by (nonlinear_arith)
        requires
            i <= q2,
            r >= 1,
    ;
    assert(r * q2 == q2 * r) by (nonlinear_arith);
}

/// Every cell a segment covers lies in its scan box.
proof fn lemma_in_box(i: int, j: int, p: Point, q: Point, width: int, res: int)
    requires
        covers(i, j, p, q, width, res),
    ensures
        ({
            let (a, b) = canon(p, q);
            let w = eff_width(width);
            let r = eff_res(res);
            let pad = w / 2 + r + 1;
            &&& box_lo(a.x as int, b.x as int, pad) / r <= i <= box_hi(a.x as int, b.x as int, pad) / r
            &&& box_lo(a.y as int, b.y as int, pad) / r <= j <= box_hi(a.y as int, b.y as int, pad) / r
        }),
{
    let (a, b) = canon(p, q);
    let w = eff_width(width);
    let r = eff_res(res);
    let pad = w / 2 + r + 1;
    let cx = centre(i, r);
    let cy = centre(j, r);
    lemma_covered_near(cx - a.x, cy - a.y, b.x - a.x, b.y - a.y, w, r);
    let gx = gap(cx - a.x, b.x - a.x);
    let gy = gap(cy - a.y, b.y - a.y);
    assert(gx <= pad && gy <= pad);
    assert(box_lo(a.x as int, b.x as int, pad) <= i * r + r / 2 <= box_hi(a.x as int, b.x as int, pad));
    assert(box_lo(a.y as int, b.y as int, pad) <= j * r + r / 2 <= box_hi(a.y as int, b.y as int, pad));
    lemma_floor_bounds(i, r, r / 2, box_lo(a.x as int, b.x as int, pad), box_hi(a.x as int, b.x as int, pad));
    lemma_floor_bounds(j, r, r / 2, box_lo(a.y as int, b.y as int, pad), box_hi(a.y as int, b.y as int, pad));
}

/// Mark every cell the segment `p`-`q` covers (laid down at `width`, at resolution `res`) into
/// `cells`. The marked set depends on the segment only through its canonical endpoint order, so it
/// is the same forward and reversed.
pub fn mark_segment(cells: &mut BTreeSet<(i64, i64)>, p: Point, q: Point, width: i64, res: i64)
    ensures
        final(cells)@ == old(cells)@.union(segment_cells(p, q, width as int, res as int)),
{
    let (a, b) = canon_seg(p, q);
    let w: i64 = if width < 0 { 0 } else { width };
    let r: i64 = if res < 1 { 1 } else { res };
    let pad: i128 = (w / 2) as i128 + r as i128 + 1;
    let (ci0, ci1) = scan_range(a.x, b.x, pad, r);
    let (cj0, cj1) = scan_range(a.y, b.y, pad, r);
    let ghost seg = segment_cells(p, q, width as int, res as int);
    let ghost init = cells@;
    let ghost xlo = box_lo(a.x as int, b.x as int, pad as int);
    let ghost xhi = box_hi(a.x as int, b.x as int, pad as int);
    proof {
        assert forall|c: (i64, i64)| #[trigger] seg.contains(c) implies cj0 <= c.1 <= cj1 && ci0 <= c.0
            <= ci1 by {
            lemma_in_box(c.0 as int, c.1 as int, p, q, width as int, res as int);
        }
        vstd::arithmetic::div_mod::lemma_div_is_ordered(
            box_lo(a.y as int, b.y as int, pad as int),
            box_hi(a.y as int, b.y as int, pad as int),
            r as int,
        );
        vstd::arithmetic::div_mod::lemma_div_is_ordered(xlo, xhi, r as int);
        assert(seg_upto(p, q, width as int, res as int, cj0 as int, i64::MIN as int) =~= Set::empty());
        assert(cells@ =~= init.union(seg_upto(p, q, width as int, res as int, cj0 as int, i64::MIN as int)));
    }
    let mut j: i128 = cj0 as i128;
    while j <= cj1 as i128
        invariant
            cj0 <= j <= cj1 + 1,
            ci0 <= ci1,
            (a, b) == canon(p, q),
            w == eff_width(width as int),
            r == eff_res(res as int),
            pad == w / 2 + r + 1,
            seg == segment_cells(p, q, width as int, res as int),
            forall|c: (i64, i64)| #[trigger]
                seg.contains(c) ==> cj0 <= c.1 <= cj1 && ci0 <= c.0 <= ci1,
            xlo == box_lo(a.x as int, b.x as int, pad as int),
            xhi == box_hi(a.x as int, b.x as int, pad as int),
            ci0 == if xlo / (r as int) < i64::MIN { i64::MIN as int } else { xlo / (r as int) },
            ci1 == if xhi / (r as int) > i64::MAX { i64::MAX as int } else { xhi / (r as int) },
            cj0 == ({
                let ylo = box_lo(a.y as int, b.y as int, pad as int);
                if ylo / (r as int) < i64::MIN { i64::MIN as int } else { ylo / (r as int) }
            }),
            cj1 == ({
                let yhi = box_hi(a.y as int, b.y as int, pad as int);
                if yhi / (r as int) > i64::MAX { i64::MAX as int } else { yhi / (r as int) }
            }),
            cells@ == init.union(seg_upto(p, q, width as int, res as int, j as int, i64::MIN as int)),
        decreases cj1 + 1 - j,
    {
        let jj = j as i64;
        let ghost jrow = seg_upto(p, q, width as int, res as int, jj as int, i64::MIN as int);
        proof {
            assert(seg_upto(p, q, width as int, res as int, jj as int, ci0 as int) =~= jrow);
        }
        let mut i: i128 = ci0 as i128;
        while i <= ci1 as i128
            invariant
                ci0 <= i <= ci1 + 1,
                cj0 <= jj <= cj1,
                (a, b) == canon(p, q),
                w == eff_width(width as int),
                r == eff_res(res as int),
                pad == w / 2 + r + 1,
                xlo == box_lo(a.x as int, b.x as int, pad as int),
                xhi == box_hi(a.x as int, b.x as int, pad as int),
                ci0 == if xlo / (r as int) < i64::MIN { i64::MIN as int } else { xlo / (r as int) },
                ci1 == if xhi / (r as int) > i64::MAX { i64::MAX as int } else { xhi / (r as int) },
                cj0 == ({
                    let ylo = box_lo(a.y as int, b.y as int, pad as int);
                    if ylo / (r as int) < i64::MIN { i64::MIN as int } else { ylo / (r as int) }
                }),
                cj1 == ({
                    let yhi = box_hi(a.y as int, b.y as int, pad as int);
                    if yhi / (r as int) > i64::MAX { i64::MAX as int } else { yhi / (r as int) }
                }),
                cells@ == init.union(seg_upto(p, q, width as int, res as int, jj as int, i as int)),
            decreases ci1 + 1 - i,
        {
            let ii = i as i64;
            proof {
                lemma_centre_bound(ii as int, r as int, xlo, xhi);
                let ylo = box_lo(a.y as int, b.y as int, pad as int);
                let yhi = box_hi(a.y as int, b.y as int, pad as int);
                lemma_centre_bound(jj as int, r as int, ylo, yhi);
            }
            let hit = cell_covered(ii, jj, a, b, w, r);
            if hit {
                cells.insert((ii, jj));
            }
            proof {
                assert(hit == covers(ii as int, jj as int, p, q, width as int, res as int));
                assert(cells@ =~= init.union(
                    seg_upto(p, q, width as int, res as int, jj as int, i + 1),
                ));
            }
            i = i + 1;
        }
        proof {
            assert(seg_upto(p, q, width as int, res as int, jj as int, i as int) =~= seg_upto(
                p,
                q,
                width as int,
                res as int,
                jj + 1,
                i64::MIN as int,
            ));
        }
        j = j + 1;
    }
    proof {
        assert(seg_upto(p, q, width as int, res as int, j as int, i64::MIN as int) =~= seg);
    }
}

} // verus!

verus! {

/// Lexicographic order on cell coordinates.
pub open spec fn lex_lt(a: (i64, i64), b: (i64, i64)) -> bool {
    a.0 < b.0 || (a.0 == b.0 && a.1 < b.1)
}

/// `q` lists the cells of `s` once each, in increasing lexicographic order.
pub open spec fn sorted_enum(q: Seq<(i64, i64)>, s: Set<(i64, i64)>) -> bool {
    &&& q.to_set() == s
    &&& q.no_duplicates()
    &&& forall|i: int, j: int| 0 <= i < j < q.len() ==> #[trigger] lex_lt(q[i], q[j])
}

proof fn lemma_increasing_at<K: Ord>(s: Seq<K>, i: int, j: int)
    requires
        vstd::std_specs::btree::increasing_seq(s),
        vstd::laws_cmp::obeys_cmp::<K>(),
        0 <= i < j < s.len(),
    ensures
        s[i].cmp_spec(&s[j]) is Less,
{
    broadcast use vstd::std_specs::btree::group_btree_axioms;

}

/// The iteration order of a set of cells is the lexicographic one.
proof fn lemma_increasing_lex(items: Seq<&(i64, i64)>)
    requires
        vstd::std_specs::btree::increasing_seq(items),
    ensures
        forall|i: int, j: int| 0 <= i < j < items.len() ==> #[trigger] lex_lt(*items[i], *items[j]),
{
    broadcast use vstd::std_specs::btree::group_btree_axioms;

    assert(vstd::laws_cmp::obeys_cmp::<&(i64, i64)>());
    assert forall|i: int, j: int| 0 <= i < j < items.len() implies #[trigger] lex_lt(*items[i], *items[j]) by {
        lemma_increasing_at(items, i, j);
    }
}

/// The cells of a set as a list, in increasing order, each once.
pub fn cell_list(s: &BTreeSet<(i64, i64)>) -> (v: Vec<(i64, i64)>)
    ensures
        sorted_enum(v@, s@),
        v@ == ordered_cells(s@),
        v@.len() == s@.len(),
{
    broadcast use vstd::std_specs::btree::group_btree_axioms;

    let ghost items = IteratorSpec::remaining(&vstd::std_specs::btree::spec_btree_keys_iter(s));
    let mut v: Vec<(i64, i64)> = Vec::new();
    for c in it: s.iter()
        invariant
            it.seq() == items,
            v@ == items.take(it.index() as int).map_values(|r: &(i64, i64)| *r),
    {
        v.push(*c);
    }
    proof {
        assert(v@ =~= items.map_values(|r: &(i64, i64)| *r));
        assert(items.unref() =~= items.map_values(|r: &(i64, i64)| *r));
        lemma_increasing_lex(items);
        assert forall|i: int, j: int| 0 <= i < j < v@.len() implies #[trigger] lex_lt(v@[i], v@[j]) by {
            assert(v@[i] == *items[i] && v@[j] == *items[j]);
            assert(lex_lt(*items[i], *items[j]));
        }
        lemma_ordered_cells(v@, s@);
    }
    v
}

} // verus!

verus! {

/// The cells covered by the first `k` segments of a chain of points.
pub open spec fn prefix_cells(pts: Seq<Point>, k: int, width: int, res: int) -> Set<(i64, i64)> {
    Set::new(
        |c: (i64, i64)|
            exists|m: int|
                0 <= m < k && #[trigger] covers(c.0 as int, c.1 as int, pts[m], pts[m + 1], width, res),
    )
}

/// Mark every cell the polyline covers (laid down at `width`, at resolution `res`) into `cells`.
/// A single point marks a dot; an empty polyline marks nothing.
pub fn mark_path(cells: &mut BTreeSet<(i64, i64)>, poly: &Polyline, width: i64, res: i64)
    ensures
        final(cells)@ == old(cells)@.union(path_cells(poly.points@, width as int, res as int)),
{
    let pts = &poly.points;
    let n = pts.len();
    let ghost init = cells@;
    let ghost all = path_cells(pts@, width as int, res as int);
    if n == 0 {
        assert(all =~= Set::empty());
        assert(cells@ =~= init.union(all));
        return;
    }
    if n == 1 {
        mark_segment(cells, pts[0], pts[0], width, res);
        assert(segment_cells(pts@[0], pts@[0], width as int, res as int) =~= all);
        return;
    }
    let mut k: usize = 0;
    assert(prefix_cells(pts@, 0, width as int, res as int) =~= Set::empty());
    while k + 1 < n
        invariant
            n == pts@.len(),
            n >= 2,
            k + 1 <= n,
            pts == &poly.points,
            cells@ == init.union(prefix_cells(pts@, k as int, width as int, res as int)),
        decreases n - k,
    {
        mark_segment(cells, pts[k], pts[k + 1], width, res);
        proof {
            let pc = prefix_cells(pts@, k + 1, width as int, res as int);
            let sc = segment_cells(pts@[k as int], pts@[k + 1], width as int, res as int);
            assert forall|c: (i64, i64)| #[trigger] pc.contains(c) <==> prefix_cells(
                pts@,
                k as int,
                width as int,
                res as int,
            ).contains(c) || sc.contains(c) by {
                if sc.contains(c) {
                    assert(covers(c.0 as int, c.1 as int, pts@[k as int], pts@[k + 1], width as int, res as int));
                }
            }
            assert(cells@ =~= init.union(pc));
        }
        k = k + 1;
    }
    proof {
        let pc = prefix_cells(pts@, k as int, width as int, res as int);
        assert forall|c: (i64, i64)| #[trigger] pc.contains(c) <==> all.contains(c) by {
            if pc.contains(c) {
                let m = choose|m: int|
                    0 <= m < k && #[trigger] covers(c.0 as int, c.1 as int, pts@[m], pts@[m + 1], width as int, res as int);
                assert(path_covers(pts@, c.0 as int, c.1 as int, width as int, res as int));
            }
        }
        assert(pc =~= all);
    }
}

/// The grid cells a single polyline covers at `resolution_um` when laid down at `width_um`.
pub fn polyline_cells(poly: &Polyline, width_um: i64, resolution_um: i64) -> (cells: BTreeSet<(i64, i64)>)
    ensures
        cells@ == path_cells(poly.points@, width_um as int, resolution_um as int),
{
    let mut cells: BTreeSet<(i64, i64)> = BTreeSet::new();
    mark_path(&mut cells, poly, width_um, resolution_um);
    assert(cells@ =~= path_cells(poly.points@, width_um as int, resolution_um as int));
    cells
}

} // verus!

verus! {

proof fn lemma_sorted_enum_drop_last(q: Seq<(i64, i64)>, s: Set<(i64, i64)>)
    requires
        sorted_enum(q, s),
        q.len() > 0,
    ensures
        sorted_enum(q.drop_last(), s.remove(q.last())),
        s.contains(q.last()),
        forall|x: (i64, i64)| #[trigger] s.contains(x) && x != q.last() ==> lex_lt(x, q.last()),
{
    let d = q.drop_last();
    let m = q.last();
    assert(q.contains(m));
    assert forall|x: (i64, i64)| #[trigger] d.to_set().contains(x) <==> s.remove(m).contains(x) by {
        if d.to_set().contains(x) {
            assert(d.contains(x));
            let k = choose|k: int| 0 <= k < d.len() && d[k] == x;
            assert(q[k] == x);
            assert(q.contains(x));
            assert(lex_lt(q[k], q[q.len() - 1]));
        }
        if s.remove(m).contains(x) {
            assert(q.to_set().contains(x));
            assert(q.contains(x));
            let k = choose|k: int| 0 <= k < q.len() && q[k] == x;
            assert(k != q.len() - 1);
            assert(d[k] == x);
            assert(d.contains(x));
        }
    }
    assert(d.to_set() =~= s.remove(m));
    assert forall|i: int, j: int| 0 <= i < j < d.len() implies #[trigger] lex_lt(d[i], d[j]) by {
        assert(lex_lt(q[i], q[j]));
    }
    assert forall|x: (i64, i64)| #[trigger] s.contains(x) && x != m implies lex_lt(x, m) by {
        assert(q.to_set().contains(x));
        assert(q.contains(x));
        let k = choose|k: int| 0 <= k < q.len() && q[k] == x;
        assert(lex_lt(q[k], q[q.len() - 1]));
    }
}

/// A set of cells has exactly one increasing enumeration.
pub proof fn lemma_sorted_enum_unique(q1: Seq<(i64, i64)>, q2: Seq<(i64, i64)>, s: Set<(i64, i64)>)
    requires
        sorted_enum(q1, s),
        sorted_enum(q2, s),
    ensures
        q1 == q2,
    decreases q1.len(),
{
    if q1.len() == 0 || q2.len() == 0 {
        if q1.len() > 0 {
            assert(q1.contains(q1[0]));
            assert(s.contains(q1[0]));
            assert(q2.contains(q1[0]));
        }
        if q2.len() > 0 {
            assert(q2.contains(q2[0]));
            assert(s.contains(q2[0]));
            assert(q1.contains(q2[0]));
        }
        assert(q1 =~= q2);
    } else {
        lemma_sorted_enum_drop_last(q1, s);
        lemma_sorted_enum_drop_last(q2, s);
        let m1 = q1.last();
        let m2 = q2.last();
        if m1 != m2 {
            assert(lex_lt(m2, m1));
            assert(lex_lt(m1, m2));
        }
        lemma_sorted_enum_unique(q1.drop_last(), q2.drop_last(), s.remove(m1));
        assert(q1 =~= q1.drop_last().push(m1));
        assert(q2 =~= q2.drop_last().push(m2));
    }
}

/// The increasing enumeration of a finite set of cells.
pub open spec fn ordered_cells(s: Set<(i64, i64)>) -> Seq<(i64, i64)> {
    choose|q: Seq<(i64, i64)>| sorted_enum(q, s)
}

/// A list in increasing order is the enumeration of its cells.
pub proof fn lemma_ordered_cells(q: Seq<(i64, i64)>, s: Set<(i64, i64)>)
    requires
        sorted_enum(q, s),
    ensures
        ordered_cells(s) == q,
{
    lemma_sorted_enum_unique(ordered_cells(s), q, s);
}

} // verus!

verus! {

/// The canonical endpoint order does not depend on the direction of the segment.
pub proof fn lemma_canon_symmetric(p: Point, q: Point)
    ensures
        canon(p, q) == canon(q, p),
{
}

/// Reversing a segment does not change the cells it covers.
pub proof fn lemma_segment_reversal(p: Point, q: Point, width: int, res: int)
    ensures
        segment_cells(p, q, width, res) == segment_cells(q, p, width, res),
{
    lemma_canon_symmetric(p, q);
    assert(segment_cells(p, q, width, res) =~= segment_cells(q, p, width, res));
}

/// Reversing a polyline does not change the material it deposits: the cells covered forward and
/// backward are the same.
pub proof fn lemma_path_reversal(pts: Seq<Point>, width: int, res: int)
    ensures
        path_cells(pts.reverse(), width, res) == path_cells(pts, width, res),
{
    let rev = pts.reverse();
    let n = pts.len();
    assert forall|c: (i64, i64)| #[trigger] path_cells(rev, width, res).contains(c) <==> path_cells(
        pts,
        width,
        res,
    ).contains(c) by {
        let (i, j) = (c.0 as int, c.1 as int);
        if n == 1 {
            assert(rev[0] == pts[0]);
        } else {
            if path_covers(rev, i, j, width, res) {
                let k = choose|k: int| 0 <= k < rev.len() - 1 && #[trigger] covers(i, j, rev[k], rev[k + 1], width, res);
                let m = n - 2 - k;
                lemma_canon_symmetric(rev[k], rev[k + 1]);
                assert(rev[k] == pts[m + 1] && rev[k + 1] == pts[m]);
                assert(covers(i, j, pts[m], pts[m + 1], width, res));
            }
            if path_covers(pts, i, j, width, res) {
                let k = choose|k: int| 0 <= k < pts.len() - 1 && #[trigger] covers(i, j, pts[k], pts[k + 1], width, res);
                let m = n - 2 - k;
                lemma_canon_symmetric(pts[k], pts[k + 1]);
                assert(rev[m] == pts[k + 1] && rev[m + 1] == pts[k]);
                assert(covers(i, j, rev[m], rev[m + 1], width, res));
            }
        }
    }
    assert(path_cells(rev, width, res) =~= path_cells(pts, width, res));
}

} // verus!
