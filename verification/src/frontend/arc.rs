//! Circular arcs (G2/G3) flattened to chord polylines, in integer nanometres.
//!
//! The start vector is turned about the centre by a fixed rational rotation whose cosine and sine
//! come from a Pythagorean triple, so every step is exact up to one nanometre of rounding. The step
//! angle is chosen from the radius so that the chord sag stays near 20 µm, and the walk stops as
//! soon as the commanded end direction falls inside the next step's wedge.
use vstd::prelude::*;

use super::gcode::isqrt;
use crate::ir::Point;

verus! {

/// Vectors (nm) beyond this magnitude are not flattened: the arc is taken as a straight chord.
/// Products of two such coordinates still fit in `i128`.
pub const ARC_LIMIT_NM: i128 = 4_000_000_000_000_000_000;

/// Centres (nm) are kept below this magnitude.
pub const CENTRE_LIMIT: i128 = 0x1000_0000_0000_0000_0000_0000_0000_0000;

/// The most chords an arc is flattened into.
pub const ARC_MAX_STEPS: usize = 4096;

/// Within the flattening range.
pub open spec fn small(v: int) -> bool {
    -ARC_LIMIT_NM <= v <= ARC_LIMIT_NM
}

/// The z-component of the cross product of two plane vectors.
pub open spec fn cross(ax: int, ay: int, bx: int, by: int) -> int {
    ax * by - ay * bx
}

/// The dot product of two plane vectors.
pub open spec fn dot(ax: int, ay: int, bx: int, by: int) -> int {
    ax * bx + ay * by
}

proof fn lemma_prod_bound(a: int, b: int)
    requires
        small(a),
        small(b),
    ensures
        -ARC_LIMIT_NM * ARC_LIMIT_NM <= a * b <= ARC_LIMIT_NM * ARC_LIMIT_NM,
{
    assert(-ARC_LIMIT_NM * ARC_LIMIT_NM <= a * b <= ARC_LIMIT_NM * ARC_LIMIT_NM) by (nonlinear_arith)
        requires
            -ARC_LIMIT_NM <= a <= ARC_LIMIT_NM,
            -ARC_LIMIT_NM <= b <= ARC_LIMIT_NM,
    ;
}

fn is_small(v: i128) -> (r: bool)
    ensures
        r == small(v as int),
{
    -ARC_LIMIT_NM <= v && v <= ARC_LIMIT_NM
}

fn cross_of(ax: i128, ay: i128, bx: i128, by: i128) -> (r: i128)
    requires
        small(ax as int),
        small(ay as int),
        small(bx as int),
        small(by as int),
    ensures
        r == cross(ax as int, ay as int, bx as int, by as int),
{
    proof {
        lemma_prod_bound(ax as int, by as int);
        lemma_prod_bound(ay as int, bx as int);
    }
    ax * by - ay * bx
}

fn dot_of(ax: i128, ay: i128, bx: i128, by: i128) -> (r: i128)
    requires
        small(ax as int),
        small(ay as int),
        small(bx as int),
        small(by as int),
    ensures
        r == dot(ax as int, ay as int, bx as int, by as int),
{
    proof {
        lemma_prod_bound(ax as int, bx as int);
        lemma_prod_bound(ay as int, by as int);
    }
    ax * bx + ay * by
}

/// Whether direction `w` lies in the wedge swept from `v` (inclusive) to `n` (exclusive), turning
/// counter-clockwise when `ccw`, else clockwise. Used only for wedges narrower than a right angle.
pub open spec fn in_wedge(vx: int, vy: int, wx: int, wy: int, nx: int, ny: int, ccw: bool) -> bool {
    &&& dot(vx, vy, wx, wy) > 0
    &&& if ccw {
        cross(vx, vy, wx, wy) >= 0 && cross(wx, wy, nx, ny) > 0
    } else {
        cross(vx, vy, wx, wy) <= 0 && cross(wx, wy, nx, ny) < 0
    }
}

fn wedge(vx: i128, vy: i128, wx: i128, wy: i128, nx: i128, ny: i128, ccw: bool) -> (r: bool)
    requires
        small(vx as int),
        small(vy as int),
        small(wx as int),
        small(wy as int),
        small(nx as int),
        small(ny as int),
    ensures
        r == in_wedge(vx as int, vy as int, wx as int, wy as int, nx as int, ny as int, ccw),
{
    let d = dot_of(vx, vy, wx, wy);
    let c1 = cross_of(vx, vy, wx, wy);
    let c2 = cross_of(wx, wy, nx, ny);
    if ccw {
        d > 0 && c1 >= 0 && c2 > 0
    } else {
        d > 0 && c1 <= 0 && c2 < 0
    }
}

/// Division truncating toward zero, by a positive divisor.
pub open spec fn sdiv_spec(n: int, d: int) -> int {
    if n >= 0 {
        n / d
    } else {
        -((-n) / d)
    }
}

fn sdiv(n: i128, d: i128) -> (r: i128)
    requires
        n > i128::MIN,
        d > 0,
    ensures
        r == sdiv_spec(n as int, d as int),
        -(if n >= 0 { n as int } else { -n }) <= r <= (if n >= 0 { n as int } else { -n }),
{
    if n >= 0 {
        assert(n / d <= n) by (nonlinear_arith)
            requires
                n >= 0,
                d > 0,
        ;
        n / d
    } else {
        let ghost nn: int = -(n as int);
        assert(nn / (d as int) <= nn) by (nonlinear_arith)
            requires
                nn >= 0,
                d > 0,
        ;
        -((-n) / d)
    }
}

/// Nanometres to whole microns, rounded half away from zero.
pub open spec fn nm_to_um_spec(v: int) -> int {
    if v >= 0 {
        (v + 500) / 1000
    } else {
        -((-v + 500) / 1000)
    }
}

/// Whole microns that a point coordinate may take.
pub open spec fn um_fits(v: int) -> bool {
    -9_000_000_000_000_000_000 < v < 9_000_000_000_000_000_000
}

/// A point in nanometres as a micron `Point`, when it is representable.
fn to_point(x: i128, y: i128) -> (r: Option<Point>)
    requires
        -2 * CENTRE_LIMIT < x < 2 * CENTRE_LIMIT,
        -2 * CENTRE_LIMIT < y < 2 * CENTRE_LIMIT,
    ensures
        r is Some <==> um_fits(nm_to_um_spec(x as int)) && um_fits(nm_to_um_spec(y as int)),
        r matches Some(p) ==> p.x == nm_to_um_spec(x as int) && p.y == nm_to_um_spec(y as int),
{
    let ux: i128 = if x >= 0 { (x + 500) / 1000 } else { -((-x + 500) / 1000) };
    let uy: i128 = if y >= 0 { (y + 500) / 1000 } else { -((-y + 500) / 1000) };
    if -9_000_000_000_000_000_000 < ux && ux < 9_000_000_000_000_000_000 && -9_000_000_000_000_000_000 < uy
        && uy < 9_000_000_000_000_000_000 {
        Some(Point::new(ux as i64, uy as i64))
    } else {
        None
    }
}

/// `r` is the integer square root of `n`.
pub open spec fn is_isqrt(n: int, r: int) -> bool {
    0 <= r && r * r <= n < (r + 1) * (r + 1)
}

/// The integer square root of `n`.
pub open spec fn isqrt_spec(n: int) -> int {
    choose|r: int| is_isqrt(n, r)
}

pub(crate) proof fn lemma_isqrt_unique(n: int, r: int)
    requires
        is_isqrt(n, r),
    ensures
        isqrt_spec(n) == r,
{
    let q = isqrt_spec(n);
    assert(is_isqrt(n, q));
    if q < r {
        assert((q + 1) * (q + 1) <= r * r) by (nonlinear_arith)
            requires
                0 <= q < r,
        ;
    } else if q > r {
        assert((r + 1) * (r + 1) <= q * q) by (nonlinear_arith)
            requires
                0 <= r < q,
        ;
    }
}

/// One step of the rational rotation with parameter `m` (cosine `(m²-1)/(m²+1)`, sine
/// `2m/(m²+1)`), each coordinate truncated toward zero.
pub open spec fn rot_step(vx: int, vy: int, m: int, ccw: bool) -> (int, int) {
    let a = m * m - 1;
    let b = 2 * m;
    let h = m * m + 1;
    if ccw {
        (sdiv_spec(a * vx - b * vy, h), sdiv_spec(b * vx + a * vy, h))
    } else {
        (sdiv_spec(a * vx + b * vy, h), sdiv_spec(a * vy - b * vx, h))
    }
}

/// The chord points of the walk from the vector `(vx, vy)` (step `k`) about the centre: each step
/// turns the vector once and, unless the turned vector leaves the flattening range, the end
/// direction `(wx, wy)` lies in the step's wedge (not checked on the first step of a full circle),
/// or the point is not representable, emits the turned point rounded to microns.
pub open spec fn arc_chords(
    vx: int,
    vy: int,
    wx: int,
    wy: int,
    cx: int,
    cy: int,
    m: int,
    ccw: bool,
    full: bool,
    k: int,
) -> Seq<Point>
    decreases ARC_MAX_STEPS - k,
{
    if k < 0 || k >= ARC_MAX_STEPS {
        Seq::empty()
    } else {
        let (nx, ny) = rot_step(vx, vy, m, ccw);
        if !(small(nx) && small(ny)) {
            Seq::empty()
        } else if !(k == 0 && full) && in_wedge(vx, vy, wx, wy, nx, ny, ccw) {
            Seq::empty()
        } else if !(um_fits(nm_to_um_spec(cx + nx)) && um_fits(nm_to_um_spec(cy + ny))) {
            Seq::empty()
        } else {
            seq![Point { x: nm_to_um_spec(cx + nx) as i64, y: nm_to_um_spec(cy + ny) as i64 }] + arc_chords(
                nx,
                ny,
                wx,
                wy,
                cx,
                cy,
                m,
                ccw,
                full,
                k + 1,
            )
        }
    }
}

/// The rotation parameter for a radius of `r2` nm² squared: about one step per 20 µm of sag,
/// at most 1300.
pub open spec fn arc_param(r2: int) -> int {
    let m = isqrt_spec(isqrt_spec(r2) / 1000 / 40) + 1;
    if m > 1300 {
        1300
    } else {
        m
    }
}

/// The flattened arc: the chord points of the walk followed by `end`, or just `[end]` for a
/// degenerate arc.
pub open spec fn flatten_spec(start: Point, end: Point, cx: int, cy: int, ccw: bool) -> Seq<Point> {
    let vx0 = start.x * 1000 - cx;
    let vy0 = start.y * 1000 - cy;
    let wx = end.x * 1000 - cx;
    let wy = end.y * 1000 - cy;
    if !(small(vx0) && small(vy0) && small(wx) && small(wy)) {
        seq![end]
    } else if vx0 * vx0 + vy0 * vy0 < 1_000_000 {
        seq![end]
    } else {
        let full = cross(vx0, vy0, wx, wy) == 0 && dot(vx0, vy0, wx, wy) > 0;
        arc_chords(vx0, vy0, wx, wy, cx, cy, arc_param(vx0 * vx0 + vy0 * vy0), ccw, full, 0).push(end)
    }
}

/// Flatten the arc from `start` to `end` about the centre (`cx`, `cy`, nanometres) into chord
/// points, `start` excluded and `end` included, turning counter-clockwise when `ccw` (G3) and
/// clockwise otherwise (G2). Equal start and end directions make a full circle. A degenerate arc
/// (radius under a micron, or beyond the flattening range) is the straight chord `[end]`.
pub fn flatten_arc(start: Point, end: Point, cx: i128, cy: i128, ccw: bool) -> (pts: Vec<Point>)
    requires
        -CENTRE_LIMIT < cx < CENTRE_LIMIT,
        -CENTRE_LIMIT < cy < CENTRE_LIMIT,
    ensures
        pts@ == flatten_spec(start, end, cx as int, cy as int, ccw),
        1 <= pts@.len() <= ARC_MAX_STEPS + 1,
        pts@.last() == end,
{
    let vx0 = start.x as i128 * 1000 - cx;
    let vy0 = start.y as i128 * 1000 - cy;
    let wx = end.x as i128 * 1000 - cx;
    let wy = end.y as i128 * 1000 - cy;
    if !(is_small(vx0) && is_small(vy0) && is_small(wx) && is_small(wy)) {
        return vec![end];
    }
    proof {
        lemma_prod_bound(vx0 as int, vx0 as int);
        lemma_prod_bound(vy0 as int, vy0 as int);
    }
    let r2: i128 = vx0 * vx0 + vy0 * vy0;
    if r2 < 1_000_000 {
        return vec![end];
    }
    let r_nm = isqrt(r2 as u128);
    let inner = isqrt(r_nm / 1000 / 40);
    proof {
        lemma_isqrt_unique(r2 as int, r_nm as int);
        lemma_isqrt_unique((r_nm / 1000 / 40) as int, inner as int);
    }
    let mut m: u128 = inner + 1;
    if m > 1300 {
        m = 1300;
    }
    let m: i128 = m as i128;
    assert(m == arc_param(r2 as int));
    assert(m * m <= 1_690_000) by (nonlinear_arith)
        requires
            1 <= m <= 1300,
    ;
    let a: i128 = m * m - 1;
    let b: i128 = 2 * m;
    let h: i128 = m * m + 1;
    let full = cross_of(vx0, vy0, wx, wy) == 0 && dot_of(vx0, vy0, wx, wy) > 0;
    let ghost total = arc_chords(vx0 as int, vy0 as int, wx as int, wy as int, cx as int, cy as int, m as int, ccw, full, 0);
    let mut pts: Vec<Point> = Vec::new();
    let mut vx = vx0;
    let mut vy = vy0;
    let mut k: usize = 0;
    assert(pts@ + total =~= total);
    while k < ARC_MAX_STEPS
        invariant
            k <= ARC_MAX_STEPS,
            pts@.len() == k,
            pts@ + arc_chords(vx as int, vy as int, wx as int, wy as int, cx as int, cy as int, m as int, ccw, full, k as int)
                == total,

            small(vx as int),
            small(vy as int),
            small(wx as int),
            small(wy as int),
            1 <= m <= 1300,
            a == m * m - 1,
            b == 2 * m,
            h == m * m + 1,
            -CENTRE_LIMIT < cx < CENTRE_LIMIT,
            -CENTRE_LIMIT < cy < CENTRE_LIMIT,
        ensures
            k <= ARC_MAX_STEPS,
            pts@.len() == k,
            pts@ == total,
        decreases ARC_MAX_STEPS - k,
    {
        assert(0 <= a <= 1_690_000 && 0 < b <= 2600 && 0 < h <= 1_690_001) by (nonlinear_arith)
            requires
                1 <= m <= 1300,
                a == m * m - 1,
                b == 2 * m,
                h == m * m + 1,
        ;
        assert(-1_690_000 * ARC_LIMIT_NM <= a * vx <= 1_690_000 * ARC_LIMIT_NM) by (nonlinear_arith)
            requires
                0 <= a <= 1_690_000,
                small(vx as int),
        ;
        assert(-1_690_000 * ARC_LIMIT_NM <= a * vy <= 1_690_000 * ARC_LIMIT_NM) by (nonlinear_arith)
            requires
                0 <= a <= 1_690_000,
                small(vy as int),
        ;
        assert(-2600 * ARC_LIMIT_NM <= b * vx <= 2600 * ARC_LIMIT_NM) by (nonlinear_arith)
            requires
                0 <= b <= 2600,
                small(vx as int),
        ;
        assert(-2600 * ARC_LIMIT_NM <= b * vy <= 2600 * ARC_LIMIT_NM) by (nonlinear_arith)
            requires
                0 <= b <= 2600,
                small(vy as int),
        ;
        let (nx, ny) = if ccw {
            (sdiv(a * vx - b * vy, h), sdiv(b * vx + a * vy, h))
        } else {
            (sdiv(a * vx + b * vy, h), sdiv(a * vy - b * vx, h))
        };
        let ghost rest = arc_chords(vx as int, vy as int, wx as int, wy as int, cx as int, cy as int, m as int, ccw, full, k as int);
        assert((nx as int, ny as int) == rot_step(vx as int, vy as int, m as int, ccw));
        if !(is_small(nx) && is_small(ny)) {
            assert(rest == Seq::<Point>::empty());
            assert(pts@ + rest =~= pts@);
            break;
        }
        if !(k == 0 && full) && wedge(vx, vy, wx, wy, nx, ny, ccw) {
            assert(rest == Seq::<Point>::empty());
            assert(pts@ + rest =~= pts@);
            break;
        }
        let p = match to_point(cx + nx, cy + ny) {
            Some(p) => p,
            None => {
                assert(rest == Seq::<Point>::empty());
                assert(pts@ + rest =~= pts@);
                break;
            },
        };
        let ghost next = arc_chords(nx as int, ny as int, wx as int, wy as int, cx as int, cy as int, m as int, ccw, full, k + 1);
        assert(rest == seq![p] + next);
        let ghost before = pts@;
        pts.push(p);
        assert(pts@ + next =~= before + rest);
        vx = nx;
        vy = ny;
        k += 1;
    }
    pts.push(end);
    pts
}

/// The arc centre (nanometres) for the R form: on the chord's perpendicular bisector, at
/// `start + (chord ± (q/d)·normal) / 2` where `d` is the chord length and `q = √(4r² − d²)`, roots
/// rounded down and quotients truncated toward zero; the side follows the arc direction and the
/// sign of R. `None` when the chord is shorter than a micron, the radius cannot span it, or the
/// geometry is beyond the flattening range.
pub open spec fn arc_centre_spec(start: Point, end: Point, r: int, ccw: bool) -> Option<(int, int)> {
    let sx = start.x * 1000;
    let sy = start.y * 1000;
    let x = end.x * 1000 - sx;
    let y = end.y * 1000 - sy;
    let r_nm = sdiv_spec(r, 1000);
    let d2 = x * x + y * y;
    let disc = 4 * (r_nm * r_nm) - d2;
    if !(small(x) && small(y) && small(r_nm)) || d2 < 1_000_000 || disc < 0 {
        None
    } else {
        let q = isqrt_spec(disc);
        let dd = isqrt_spec(d2);
        let yh = sdiv_spec(y * q, dd);
        let xh = sdiv_spec(x * q, dd);
        if ccw != (r < 0) {
            Some((sx + sdiv_spec(x - yh, 2), sy + sdiv_spec(y + xh, 2)))
        } else {
            Some((sx + sdiv_spec(x + yh, 2), sy + sdiv_spec(y - xh, 2)))
        }
    }
}

/// The arc centre (nanometres) from the R (radius, in 10⁻⁹ mm) form, following grbl's
/// construction: positive R selects the minor arc, negative the major. `None` when the chord is
/// shorter than a micron, the radius cannot span it, or the geometry is beyond the flattening range.
pub fn arc_center_from_r(start: Point, end: Point, r: i128, ccw: bool) -> (c: Option<(i128, i128)>)
    requires
        -0x1000_0000_0000_0000_0000_0000_0000_0000 < r < 0x1000_0000_0000_0000_0000_0000_0000_0000,
    ensures
        match c {
            Some((cx, cy)) => arc_centre_spec(start, end, r as int, ccw) == Some((cx as int, cy as int)),
            None => arc_centre_spec(start, end, r as int, ccw) is None,
        },
        c matches Some((cx, cy)) ==> -CENTRE_LIMIT < cx < CENTRE_LIMIT && -CENTRE_LIMIT < cy < CENTRE_LIMIT,
{
    let sx = start.x as i128 * 1000;
    let sy = start.y as i128 * 1000;
    let x = end.x as i128 * 1000 - sx;
    let y = end.y as i128 * 1000 - sy;
    let r_nm = sdiv(r, 1000);
    if !(is_small(x) && is_small(y) && is_small(r_nm)) {
        return None;
    }
    proof {
        lemma_prod_bound(x as int, x as int);
        lemma_prod_bound(y as int, y as int);
        lemma_prod_bound(r_nm as int, r_nm as int);
    }
    let d2: i128 = x * x + y * y;
    if d2 < 1_000_000 {
        return None;
    }
    let disc: i128 = 4 * (r_nm * r_nm) - d2;
    if disc < 0 {
        return None;
    }
    let q = isqrt(disc as u128);
    let dd = isqrt(d2 as u128);
    proof {
        lemma_isqrt_unique(disc as int, q as int);
        lemma_isqrt_unique(d2 as int, dd as int);
    }
    assert(dd > 0) by (nonlinear_arith)
        requires
            dd * dd <= d2 < (dd + 1) * (dd + 1),
            d2 >= 1_000_000,
    ;
    assert(q <= 8_000_000_000_000_000_000) by (nonlinear_arith)
        requires
            q * q <= disc,
            disc <= 4 * ARC_LIMIT_NM * ARC_LIMIT_NM,
            q >= 0,
    ;
    let q: i128 = q as i128;
    let dd: i128 = dd as i128;
    assert(-ARC_LIMIT_NM * 8_000_000_000_000_000_000 <= y * q <= ARC_LIMIT_NM * 8_000_000_000_000_000_000)
        by (nonlinear_arith)
        requires
            small(y as int),
            0 <= q <= 8_000_000_000_000_000_000,
    ;
    assert(-ARC_LIMIT_NM * 8_000_000_000_000_000_000 <= x * q <= ARC_LIMIT_NM * 8_000_000_000_000_000_000)
        by (nonlinear_arith)
        requires
            small(x as int),
            0 <= q <= 8_000_000_000_000_000_000,
    ;
    let yh = sdiv(y * q, dd);
    let xh = sdiv(x * q, dd);
    // grbl: h = -sqrt(disc)/d, negated for a counter-clockwise arc and again for negative R.
    let positive = ccw != (r < 0);
    let (ox, oy) = if positive {
        (sdiv(x - yh, 2), sdiv(y + xh, 2))
    } else {
        (sdiv(x + yh, 2), sdiv(y - xh, 2))
    };
    Some((sx + ox, sy + oy))
}

/// The squared length of the segment between two micron points, in nm².
pub open spec fn seg_len2_nm(a: Point, b: Point) -> int {
    ((b.x - a.x) * (b.x - a.x) + (b.y - a.y) * (b.y - a.y)) * 1_000_000
}

/// The length (nm, rounded down) of the segment between two micron points, when its square fits in
/// a `u128`.
pub fn seg_len_nm(a: Point, b: Point) -> (r: Option<u128>)
    ensures
        r is None <==> seg_len2_nm(a, b) > u128::MAX,
        r matches Some(v) ==> v * v <= seg_len2_nm(a, b) < (v + 1) * (v + 1),
{
    let dx = b.x as i128 - a.x as i128;
    let dy = b.y as i128 - a.y as i128;
    let ux: u128 = if dx >= 0 { dx as u128 } else { (-dx) as u128 };
    let uy: u128 = if dy >= 0 { dy as u128 } else { (-dy) as u128 };
    assert(ux < 0x1_0000_0000_0000_0000 && uy < 0x1_0000_0000_0000_0000);
    assert(ux * ux < 0x1_0000_0000_0000_0000_0000_0000_0000_0000) by (nonlinear_arith)
        requires
            ux < 0x1_0000_0000_0000_0000,
    ;
    assert(uy * uy < 0x1_0000_0000_0000_0000_0000_0000_0000_0000) by (nonlinear_arith)
        requires
            uy < 0x1_0000_0000_0000_0000,
    ;
    assert(ux * ux == dx * dx && uy * uy == dy * dy) by (nonlinear_arith)
        requires
            ux == dx || ux == -dx,
            uy == dy || uy == -dy,
    ;
    let sx = ux * ux;
    let sy = uy * uy;
    if sx > u128::MAX - sy {
        assert((sx + sy) * 1_000_000 > u128::MAX) by (nonlinear_arith)
            requires
                sx + sy > u128::MAX,
        ;
        return None;
    }
    let s = sx + sy;
    if s > u128::MAX / 1_000_000 {
        assert(s * 1_000_000 > u128::MAX) by (nonlinear_arith)
            requires
                s > u128::MAX / 1_000_000,
        ;
        return None;
    }
    assert(s * 1_000_000 <= u128::MAX) by (nonlinear_arith)
        requires
            s <= u128::MAX / 1_000_000,
    ;
    Some(isqrt(s * 1_000_000))
}

} // verus!
