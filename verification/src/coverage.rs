//! The coverage kernel of the denotation: which raster cells a swept segment touches.
//!
//! A cell `(i, j)` at resolution `r` has centre `(i·r + r/2, j·r + r/2)` (integer halving). It is
//! covered by a segment laid down at width `w` when the distance from its centre to the segment is
//! at most `w/2 + r/√2` (half the bead plus the cell's circumradius) — conservative coverage, so a
//! touched cell is never missed. The decision is made exactly over the integers for every `i64`
//! input: squared distances are rationals `num/den`, and the comparison against the irrational
//! reach is reduced to a sign test that never leaves integer arithmetic.
use vstd::prelude::*;

use crate::ir::Point;
use crate::wide::{
    add256, add512, b128, b256, le256, le512, lemma_consts, lemma_u256_range, lemma_u512_range, mul128,
    mul256, sub256, sub512, u256_from, u256_zero, u512_from, U256, U512,
};

verus! {

/// Negative widths are malformed and treated as zero.
pub open spec fn eff_width(w: int) -> int {
    if w < 0 { 0 } else { w }
}

/// Resolutions below one micron are treated as one micron.
pub open spec fn eff_res(r: int) -> int {
    if r < 1 { 1 } else { r }
}

/// Coordinate of the centre of cell `i` at resolution `r`.
pub open spec fn centre(i: int, r: int) -> int {
    i * r + r / 2
}

/// Canonical (direction-independent) endpoint order for a segment: lexicographic on `(x, y)`.
pub open spec fn canon(p: Point, q: Point) -> (Point, Point) {
    if p.x < q.x || (p.x == q.x && p.y <= q.y) {
        (p, q)
    } else {
        (q, p)
    }
}

/// Squared distance, as `(num, den)` with `den > 0`, from the point at offset `(ax, ay)` from a
/// segment's start to that segment, whose direction vector is `(dx, dy)`.
pub open spec fn dist2_rel(ax: int, ay: int, dx: int, dy: int) -> (int, int) {
    let len2 = dx * dx + dy * dy;
    let dot = ax * dx + ay * dy;
    if len2 == 0 || dot <= 0 {
        (ax * ax + ay * ay, 1)
    } else if dot >= len2 {
        ((ax - dx) * (ax - dx) + (ay - dy) * (ay - dy), 1)
    } else {
        ((ax * dy - ay * dx) * (ax * dy - ay * dx), len2)
    }
}

/// `n <= √2 · m`, for `m >= 0`.
pub open spec fn le_sqrt2(n: int, m: int) -> bool {
    n <= 0 || n * n <= 2 * m * m
}

/// `4 · num/den <= (w + √2·r)²`, i.e. the distance `√(num/den)` is at most `w/2 + r/√2`.
pub open spec fn within_reach(num: int, den: int, w: int, r: int) -> bool {
    le_sqrt2(4 * num - (w * w + 2 * r * r) * den, 2 * w * r * den)
}

/// Whether cell `(i, j)` is covered by segment `p`-`q` laid down at `width`, at resolution `res`.
pub open spec fn covers(i: int, j: int, p: Point, q: Point, width: int, res: int) -> bool {
    let (a, b) = canon(p, q);
    let r = eff_res(res);
    let d = dist2_rel(centre(i, r) - a.x, centre(j, r) - a.y, b.x - a.x, b.y - a.y);
    within_reach(d.0, d.1, eff_width(width), r)
}

/// The cells one segment covers.
pub open spec fn segment_cells(p: Point, q: Point, width: int, res: int) -> Set<(i64, i64)> {
    Set::new(|c: (i64, i64)| covers(c.0 as int, c.1 as int, p, q, width, res))
}

/// Whether a polyline (a single point is a dot) covers a cell.
pub open spec fn path_covers(pts: Seq<Point>, i: int, j: int, width: int, res: int) -> bool {
    if pts.len() == 1 {
        covers(i, j, pts[0], pts[0], width, res)
    } else {
        exists|k: int| 0 <= k < pts.len() - 1 && #[trigger] covers(i, j, pts[k], pts[k + 1], width, res)
    }
}

/// The cells a polyline covers when laid down at `width`, at resolution `res`.
pub open spec fn path_cells(pts: Seq<Point>, width: int, res: int) -> Set<(i64, i64)> {
    Set::new(|c: (i64, i64)| path_covers(pts, c.0 as int, c.1 as int, width, res))
}

// ------------------------------------------------------------------------------------------------
// Algebra behind the exact decision.

/// `2m² - n²` changes sign under one step of the continued-fraction expansion of √2.
proof fn lemma_sqrt2_step(n: int, m: int)
    ensures
        2 * m * m - n * n == -(2 * (n - m) * (n - m) - (2 * m - n) * (2 * m - n)),
{
    assert(2 * m * m - n * n == -(2 * (n - m) * (n - m) - (2 * m - n) * (2 * m - n)))
        by (nonlinear_arith);
}

/// `n² <= 2m²` for non-negative 512-bit `n`, `m`, decided without squaring: the pair is reduced
/// along the continued fraction of √2 until one of the two easy cases `n <= m`, `n >= 2m` holds.
pub fn sqrt2_dominates(n0: U512, m0: U512) -> (b: bool)
    requires
        n0@ < b256() * b128(),
        m0@ < b256() * b128(),
    ensures
        b == (n0@ * n0@ <= 2 * m0@ * m0@),
{
    let mut n = n0;
    let mut m = m0;
    let mut flip = false;
    proof {
        lemma_u512_range(n0);
        lemma_u512_range(m0);
        lemma_consts();
    }
    loop
        invariant
            0 <= n@ < b256() * b128(),
            0 <= m@ < b256() * b128(),
            b256() == b128() * b128(),
            b128() > 4,
            2 * m0@ * m0@ - n0@ * n0@ == if flip {
                -(2 * m@ * m@ - n@ * n@)
            } else {
                2 * m@ * m@ - n@ * n@
            },
        decreases n@ + m@,
    {
        if le512(n, m) {
            // 2m² - n² >= m² >= 0, and it is 0 only for m = n = 0.
            proof {
                assert(2 * m@ * m@ - n@ * n@ >= m@ * m@) by (nonlinear_arith)
                    requires
                        0 <= n@ <= m@,
                ;
                assert(m@ * m@ >= 0) by (nonlinear_arith);
                if m@ > 0 {
                    assert(m@ * m@ > 0) by (nonlinear_arith)
                        requires
                            m@ > 0,
                    ;
                }
            }
            if !flip {
                return true;
            }
            // flipped: the original sign is -(2m² - n²) <= 0, >= 0 only when it is 0.
            let zero = u512_from(u256_zero());
            return le512(m, zero);
        }
        proof {
            assert(b256() * b128() * 2 < b256() * b256()) by (nonlinear_arith)
                requires
                    b256() == b128() * b128(),
                    b128() > 4,
            ;
        }
        let two_m = add512(m, m);
        if le512(two_m, n) {
            // n >= 2m and n > m >= 0: 2m² - n² < 0.
            proof {
                assert(2 * m@ * m@ - n@ * n@ < 0) by (nonlinear_arith)
                    requires
                        0 <= m@ < n@,
                        2 * m@ <= n@,
                ;
            }
            return flip;
        }
        // m < n < 2m
        let n1 = sub512(two_m, n);
        let m1 = sub512(n, m);
        proof {
            lemma_sqrt2_step(n@, m@);
        }
        n = n1;
        m = m1;
        flip = !flip;
    }
}

// ------------------------------------------------------------------------------------------------
// Signed products on magnitudes.

pub open spec fn abs(x: int) -> int {
    if x < 0 { -x } else { x }
}

/// `|x|` of an `i128` as a `u128` (exact, also for `i128::MIN`).
pub(crate) fn abs128(x: i128) -> (r: u128)
    ensures
        r == abs(x as int),
{
    if x >= 0 {
        x as u128
    } else if x == i128::MIN {
        0x8000_0000_0000_0000_0000_0000_0000_0000u128
    } else {
        (-x) as u128
    }
}

proof fn lemma_abs_mul(x: int, y: int)
    ensures
        abs(x) * abs(y) == abs(x * y),
        (x * y >= 0) == ((x >= 0 && y >= 0) || (x <= 0 && y <= 0)) || x * y == 0,
{
    if x >= 0 && y >= 0 {
        assert(x * y >= 0) by (nonlinear_arith)
            requires
                x >= 0,
                y >= 0,
        ;
    } else if x < 0 && y < 0 {
        assert(abs(x) * abs(y) == x * y) by (nonlinear_arith)
            requires
                x < 0,
                y < 0,
                abs(x) == -x,
                abs(y) == -y,
        ;
        assert(x * y > 0) by (nonlinear_arith)
            requires
                x < 0,
                y < 0,
        ;
    } else if x < 0 {
        assert(abs(x) * abs(y) == -(x * y)) by (nonlinear_arith)
            requires
                x < 0,
                y >= 0,
                abs(x) == -x,
                abs(y) == y,
        ;
        assert(x * y <= 0) by (nonlinear_arith)
            requires
                x < 0,
                y >= 0,
        ;
    } else {
        assert(abs(x) * abs(y) == -(x * y)) by (nonlinear_arith)
            requires
                x >= 0,
                y < 0,
                abs(x) == x,
                abs(y) == -y,
        ;
        assert(x * y <= 0) by (nonlinear_arith)
            requires
                x >= 0,
                y < 0,
        ;
    }
}

/// A signed 256-bit value: `(negative, magnitude)`.
pub open spec fn sval(s: (bool, U256)) -> int {
    if s.0 { -s.1@ } else { s.1@ }
}

/// Exact signed product of two `i128` values.
pub(crate) fn smul(x: i128, y: i128) -> (r: (bool, U256))
    ensures
        sval(r) == x * y,
{
    let p = mul128(abs128(x), abs128(y));
    proof {
        lemma_abs_mul(x as int, y as int);
    }
    let neg = (x < 0 && y > 0) || (x > 0 && y < 0);
    proof {
        if neg {
            if x < 0 {
                assert(x * y < 0) by (nonlinear_arith)
                    requires
                        x < 0,
                        y > 0,
                ;
            } else {
                assert(x * y < 0) by (nonlinear_arith)
                    requires
                        x > 0,
                        y < 0,
                ;
            }
        } else {
            if x == 0 || y == 0 {
                assert(x * y == 0) by (nonlinear_arith)
                    requires
                        x == 0 || y == 0,
                ;
            }
        }
    }
    (neg, p)
}

/// Exact signed difference `x - y` of two signed 256-bit values of magnitude below 2^255.
pub(crate) fn ssub(x: (bool, U256), y: (bool, U256)) -> (r: (bool, U256))
    requires
        x.1@ < b128() * b128() / 2,
        y.1@ < b128() * b128() / 2,
    ensures
        sval(r) == sval(x) - sval(y),
{
    proof {
        lemma_consts();
    }
    if x.0 != y.0 {
        // x - y = x + (-y): same sign as x, magnitudes add.
        (x.0, add256(x.1, y.1))
    } else if le256(y.1, x.1) {
        (x.0, sub256(x.1, y.1))
    } else {
        (!x.0, sub256(y.1, x.1))
    }
}

/// Exact signed sum `x + y` of two signed 256-bit values of magnitude below 2^255.
fn sadd(x: (bool, U256), y: (bool, U256)) -> (r: (bool, U256))
    requires
        x.1@ < b128() * b128() / 2,
        y.1@ < b128() * b128() / 2,
    ensures
        sval(r) == sval(x) + sval(y),
{
    ssub(x, (!y.0, y.1))
}

/// Whether a signed value is `<= 0`.
pub(crate) fn snonpos(x: (bool, U256)) -> (b: bool)
    ensures
        b == (sval(x) <= 0),
{
    proof {
        lemma_u256_range(x.1);
    }
    x.0 || le256(x.1, u256_zero())
}


proof fn lemma_mag(x: int, y: int, bx: int, by: int)
    requires
        abs(x) < bx,
        abs(y) < by,
    ensures
        abs(x * y) < bx * by,
        abs(x * y) == abs(x) * abs(y),
{
    lemma_abs_mul(x, y);
    assert(abs(x) * abs(y) < bx * by) by (nonlinear_arith)
        requires
            0 <= abs(x) < bx,
            0 <= abs(y) < by,
    ;
}

proof fn lemma_nonneg_mag(s: (bool, U256))
    requires
        sval(s) >= 0,
    ensures
        s.1@ == sval(s),
{
    lemma_u256_range(s.1);
}

pub open spec fn two_pow(k: nat) -> int
    decreases k,
{
    if k == 0 { 1 } else { 2 * two_pow((k - 1) as nat) }
}

/// Exact decision of `covers` for one cell, given the canonical segment `a`-`b`, effective width
/// `w >= 0` and effective resolution `r >= 1`. Requires the cell centre to lie within 2^66 of `a`
/// on both axes (true for every cell a segment's bounding box scan visits).
pub(crate) fn cell_covered(i: i64, j: i64, a: Point, b: Point, w: i64, r: i64) -> (res: bool)
    requires
        w >= 0,
        r >= 1,
        abs(centre(i as int, r as int) - a.x) < 0x4_0000_0000_0000_0000,
        abs(centre(j as int, r as int) - a.y) < 0x4_0000_0000_0000_0000,
    ensures
        res == ({
            let d = dist2_rel(
                centre(i as int, r as int) - a.x,
                centre(j as int, r as int) - a.y,
                b.x - a.x,
                b.y - a.y,
            );
            within_reach(d.0, d.1, w as int, r as int)
        }),
{
    let rr = r as i128;
    proof {
        assert(i * rr <= 0x8000_0000_0000_0000 * 0x8000_0000_0000_0000) by (nonlinear_arith)
            requires
                -0x8000_0000_0000_0000 <= i < 0x8000_0000_0000_0000,
                1 <= rr < 0x8000_0000_0000_0000,
        ;
        assert(i * rr >= -0x8000_0000_0000_0000 * 0x8000_0000_0000_0000) by (nonlinear_arith)
            requires
                -0x8000_0000_0000_0000 <= i < 0x8000_0000_0000_0000,
                1 <= rr < 0x8000_0000_0000_0000,
        ;
        assert(j * rr <= 0x8000_0000_0000_0000 * 0x8000_0000_0000_0000) by (nonlinear_arith)
            requires
                -0x8000_0000_0000_0000 <= j < 0x8000_0000_0000_0000,
                1 <= rr < 0x8000_0000_0000_0000,
        ;
        assert(j * rr >= -0x8000_0000_0000_0000 * 0x8000_0000_0000_0000) by (nonlinear_arith)
            requires
                -0x8000_0000_0000_0000 <= j < 0x8000_0000_0000_0000,
                1 <= rr < 0x8000_0000_0000_0000,
        ;
    }
    let cx: i128 = (i as i128) * rr + rr / 2;
    let cy: i128 = (j as i128) * rr + rr / 2;
    let ax: i128 = cx - a.x as i128;
    let ay: i128 = cy - a.y as i128;
    let dx: i128 = b.x as i128 - a.x as i128;
    let dy: i128 = b.y as i128 - a.y as i128;
    proof {
        lemma_consts();
        lemma_mag(dx as int, dx as int, 0x2_0000_0000_0000_0000int, 0x2_0000_0000_0000_0000int);
        lemma_mag(dy as int, dy as int, 0x2_0000_0000_0000_0000int, 0x2_0000_0000_0000_0000int);
        lemma_mag(ax as int, dx as int, 0x4_0000_0000_0000_0000int, 0x2_0000_0000_0000_0000int);
        lemma_mag(ay as int, dy as int, 0x4_0000_0000_0000_0000int, 0x2_0000_0000_0000_0000int);
        lemma_mag(ax as int, dy as int, 0x4_0000_0000_0000_0000int, 0x2_0000_0000_0000_0000int);
        lemma_mag(ay as int, dx as int, 0x4_0000_0000_0000_0000int, 0x2_0000_0000_0000_0000int);
        lemma_mag(ax as int, ax as int, 0x4_0000_0000_0000_0000int, 0x4_0000_0000_0000_0000int);
        lemma_mag(ay as int, ay as int, 0x4_0000_0000_0000_0000int, 0x4_0000_0000_0000_0000int);
        assert(0x4_0000_0000_0000_0000int * 0x4_0000_0000_0000_0000int < b128() * b128() / 8);
        assert(0x4_0000_0000_0000_0000int * 0x2_0000_0000_0000_0000int < b128() * b128() / 8);
        assert(0x2_0000_0000_0000_0000int * 0x2_0000_0000_0000_0000int < b128() * b128() / 8);
    }
    let len2 = sadd(smul(dx, dx), smul(dy, dy));
    let dot = sadd(smul(ax, dx), smul(ay, dy));
    let ghost glen2: int = dx * dx + dy * dy;
    let ghost gdot: int = ax * dx + ay * dy;
    assert(sval(len2) == glen2);
    assert(sval(dot) == gdot);
    proof {
        assert(glen2 >= 0) by (nonlinear_arith)
            requires
                glen2 == dx * dx + dy * dy,
        ;
        lemma_nonneg_mag(len2);
    }
    let len2_zero = le256(len2.1, u256_zero());
    // Squared distance as (num, den), num < 2^270 and den < 2^132.
    let num: U512;
    let den: U256;
    if len2_zero || snonpos(dot) {
        let sq = sadd(smul(ax, ax), smul(ay, ay));
        proof {
            assert(ax * ax + ay * ay >= 0) by (nonlinear_arith);
            lemma_nonneg_mag(sq);
        }
        num = u512_from(sq.1);
        den = u256_from(1);
        proof {
            assert(sq.1@ <= 4 * 0x4_0000_0000_0000_0000int * 0x4_0000_0000_0000_0000int * 0x2_0000_0000_0000_0000int * 0x2_0000_0000_0000_0000int) by (nonlinear_arith)
                requires
                    sq.1@ == ax * ax + ay * ay,
                    abs(ax * ax) < 0x4_0000_0000_0000_0000int * 0x4_0000_0000_0000_0000int,
                    abs(ay * ay) < 0x4_0000_0000_0000_0000int * 0x4_0000_0000_0000_0000int,
                    0x2_0000_0000_0000_0000int > 1000,
            ;
        }
    } else {
        let past = ssub(len2, dot);
        if snonpos(past) {
            let ex: i128 = ax - dx;
            let ey: i128 = ay - dy;
            proof {
                lemma_mag(ex as int, ex as int, 0x4_0000_0000_0000_0000int + 0x2_0000_0000_0000_0000int, 0x4_0000_0000_0000_0000int + 0x2_0000_0000_0000_0000int);
                lemma_mag(ey as int, ey as int, 0x4_0000_0000_0000_0000int + 0x2_0000_0000_0000_0000int, 0x4_0000_0000_0000_0000int + 0x2_0000_0000_0000_0000int);
                assert((0x4_0000_0000_0000_0000int + 0x2_0000_0000_0000_0000int) * (0x4_0000_0000_0000_0000int + 0x2_0000_0000_0000_0000int) < b128() * b128() / 8);
            }
            let sq = sadd(smul(ex, ex), smul(ey, ey));
            proof {
                assert(ex * ex + ey * ey >= 0) by (nonlinear_arith);
                lemma_nonneg_mag(sq);
            }
            num = u512_from(sq.1);
            den = u256_from(1);
            proof {
                assert(sq.1@ <= 4 * 0x4_0000_0000_0000_0000int * 0x4_0000_0000_0000_0000int * 0x2_0000_0000_0000_0000int * 0x2_0000_0000_0000_0000int) by (nonlinear_arith)
                    requires
                        sq.1@ == ex * ex + ey * ey,
                        abs(ex * ex) < (0x4_0000_0000_0000_0000int + 0x2_0000_0000_0000_0000int) * (0x4_0000_0000_0000_0000int + 0x2_0000_0000_0000_0000int),
                        abs(ey * ey) < (0x4_0000_0000_0000_0000int + 0x2_0000_0000_0000_0000int) * (0x4_0000_0000_0000_0000int + 0x2_0000_0000_0000_0000int),
                        0x4_0000_0000_0000_0000int > 0x2_0000_0000_0000_0000int > 1000,
                ;
            }
        } else {
            let cr = ssub(smul(ax, dy), smul(ay, dx));
            proof {
                lemma_u256_range(cr.1);
                assert(abs(ax * dy - ay * dx) < 2 * 0x4_0000_0000_0000_0000int * 0x2_0000_0000_0000_0000int);
                assert(cr.1@ == abs(ax * dy - ay * dx));
            }
            num = mul256(cr.1, cr.1);
            den = len2.1;
            proof {
                assert(cr.1@ * cr.1@ == (ax * dy - ay * dx) * (ax * dy - ay * dx)) by (nonlinear_arith)
                    requires
                        cr.1@ == abs(ax * dy - ay * dx),
                ;
                assert(cr.1@ * cr.1@ <= 4 * 0x4_0000_0000_0000_0000int * 0x4_0000_0000_0000_0000int * 0x2_0000_0000_0000_0000int * 0x2_0000_0000_0000_0000int) by (nonlinear_arith)
                    requires
                        0 <= cr.1@ < 2 * 0x4_0000_0000_0000_0000int * 0x2_0000_0000_0000_0000int,
                ;
            }
        }
    }
    let ghost d = dist2_rel(ax as int, ay as int, dx as int, dy as int);
    assert(num@ == d.0 && den@ == d.1);
    // Bounds for the final comparison.
    proof {
        lemma_u256_range(den);
        assert(den@ < 2 * 0x2_0000_0000_0000_0000int * 0x2_0000_0000_0000_0000int);
        assert(num@ <= 4 * 0x4_0000_0000_0000_0000int * 0x4_0000_0000_0000_0000int * 0x2_0000_0000_0000_0000int * 0x2_0000_0000_0000_0000int);
        assert(4 * 0x4_0000_0000_0000_0000int * 0x4_0000_0000_0000_0000int * 0x2_0000_0000_0000_0000int
            * 0x2_0000_0000_0000_0000int * 4 < b256() * b256()) by (nonlinear_arith)
            requires
                b256() == b128() * b128(),
                b128() == 0x1_0000_0000_0000_0000_0000_0000_0000_0000int,
        ;
    }
    let ww: u128 = w as u128;
    let ru: u128 = r as u128;
    proof {
        assert(ww * ww + 2 * ru * ru < 0x8000_0000_0000_0000 * 0x8000_0000_0000_0000 * 3) by (nonlinear_arith)
            requires
                0 <= ww < 0x8000_0000_0000_0000,
                0 <= ru < 0x8000_0000_0000_0000,
        ;
        assert(2 * ww * ru < 0x8000_0000_0000_0000 * 0x8000_0000_0000_0000 * 2) by (nonlinear_arith)
            requires
                0 <= ww < 0x8000_0000_0000_0000,
                0 <= ru < 0x8000_0000_0000_0000,
        ;
    }
    let p: u128 = ww * ww + 2 * ru * ru;
    let q: u128 = 2 * ww * ru;
    let four_num = add512(add512(num, num), add512(num, num));
    let pden = mul256(u256_from(p), den);
    proof {
        assert(pden@ == p * den@);
        assert(four_num@ == 4 * num@);
    }
    if le512(four_num, pden) {
        return true;
    }
    let n = sub512(four_num, pden);
    let m = mul256(u256_from(q), den);
    proof {
        assert(n@ <= 16 * 0x4_0000_0000_0000_0000int * 0x4_0000_0000_0000_0000int * 0x2_0000_0000_0000_0000int * 0x2_0000_0000_0000_0000int);
        assert(16 * 0x4_0000_0000_0000_0000int * 0x4_0000_0000_0000_0000int * 0x2_0000_0000_0000_0000int * 0x2_0000_0000_0000_0000int < b256() * b128());
        assert(m@ == q * den@);
        assert(q * den@ <= 0x8000_0000_0000_0000 * 0x8000_0000_0000_0000 * 2 * (2 * 0x2_0000_0000_0000_0000int * 0x2_0000_0000_0000_0000int)) by (nonlinear_arith)
            requires
                0 <= q < 0x8000_0000_0000_0000 * 0x8000_0000_0000_0000 * 2,
                0 <= den@ < 2 * 0x2_0000_0000_0000_0000int * 0x2_0000_0000_0000_0000int,
        ;
        assert(0x8000_0000_0000_0000 * 0x8000_0000_0000_0000 * 2 * (2 * 0x2_0000_0000_0000_0000int * 0x2_0000_0000_0000_0000int) < b256() * b128());
    }
    sqrt2_dominates(n, m)
}


// ------------------------------------------------------------------------------------------------
// Completeness of the bounding-box scan: a covered cell lies within half the bead plus one
// resolution of the segment's bounding box.

/// Distance from `x` to the interval spanned by `0` and `d`.
pub open spec fn gap(x: int, d: int) -> int {
    let lo = if d < 0 { d } else { 0 };
    let hi = if d < 0 { 0 } else { d };
    if x < lo {
        lo - x
    } else if x > hi {
        x - hi
    } else {
        0
    }
}

proof fn lemma_reach_bound(num: int, den: int, w: int, r: int)
    requires
        within_reach(num, den, w, r),
        num >= 0,
        den >= 1,
        w >= 0,
        r >= 1,
    ensures
        4 * num <= (w + 2 * r) * (w + 2 * r) * den,
{
    let p = w * w + 2 * r * r;
    let n = 4 * num - (w * w + 2 * r * r) * den;
    let m = 2 * w * r * den;
    let wrd = w * r * den;
    let rrd = r * r * den;
    assert((w + 2 * r) * (w + 2 * r) * den == p * den + 4 * wrd + 2 * rrd) by (nonlinear_arith)
        requires
            p == w * w + 2 * r * r,
            wrd == w * r * den,
            rrd == r * r * den,
    ;
    assert(m == 2 * wrd) by (nonlinear_arith)
        requires
            m == 2 * w * r * den,
            wrd == w * r * den,
    ;
    assert(wrd >= 0) by (nonlinear_arith)
        requires
            wrd == w * r * den,
            w >= 0,
            r >= 1,
            den >= 1,
    ;
    assert(rrd >= 0) by (nonlinear_arith)
        requires
            rrd == r * r * den,
            r >= 1,
            den >= 1,
    ;
    assert(n == 4 * num - p * den);
    if n > 0 {
        assert(n * n <= 2 * m * m);
        assert(n <= 2 * m) by (nonlinear_arith)
            requires
                n > 0,
                m >= 0,
                n * n <= 2 * m * m,
        ;
    }
}

/// Lagrange's identity in the plane.
proof fn lemma_sq_prod(a: int, b: int)
    ensures
        (a * b) * (a * b) == (a * a) * (b * b),
{
    assert((a * b) * (a * b) == (a * a) * (b * b)) by (nonlinear_arith);
}

proof fn lemma_lagrange(ax: int, ay: int, dx: int, dy: int)
    ensures
        (dx * dx + dy * dy) * (ax * ax + ay * ay) - (ax * dx + ay * dy) * (ax * dx + ay * dy) == (ax
            * dy - ay * dx) * (ax * dy - ay * dx),
{
    let p = ax * dx;
    let q = ay * dy;
    let u = ax * dy;
    let v = ay * dx;
    let xx = ax * ax;
    let yy = ay * ay;
    let ddx = dx * dx;
    let ddy = dy * dy;
    lemma_sq_prod(ax, dx);
    lemma_sq_prod(ay, dy);
    lemma_sq_prod(ax, dy);
    lemma_sq_prod(ay, dx);
    assert((ddx + ddy) * (xx + yy) == ddx * xx + ddx * yy + ddy * xx + ddy * yy) by (nonlinear_arith);
    assert(ddx * xx == xx * ddx && ddx * yy == yy * ddx && ddy * xx == xx * ddy && ddy * yy == yy
        * ddy) by (nonlinear_arith);
    assert((p + q) * (p + q) == p * p + 2 * (p * q) + q * q) by (nonlinear_arith);
    assert((u - v) * (u - v) == u * u - 2 * (u * v) + v * v) by (nonlinear_arith);
    assert(p * q == (ax * ay) * (dx * dy)) by (nonlinear_arith)
        requires
            p == ax * dx,
            q == ay * dy,
    ;
    assert(u * v == (ax * ay) * (dx * dy)) by (nonlinear_arith)
        requires
            u == ax * dy,
            v == ay * dx,
    ;
}

proof fn lemma_sq_diff(x: int, y: int)
    ensures
        (x - y) * (x - y) == x * x - 2 * (x * y) + y * y,
{
    assert((x - y) * (x - y) == x * x - 2 * (x * y) + y * y) by (nonlinear_arith);
}

proof fn lemma_swap4(a: int, b: int, c: int, d: int)
    ensures
        (a * b) * (c * d) == (a * d) * (b * c),
{
    assert((a * b) * (c * d) == (a * d) * (b * c)) by (nonlinear_arith);
}

proof fn lemma_proj_identity(ax: int, ay: int, dx: int, dy: int, l: int, t: int, c2: int)
    requires
        l == dx * dx + dy * dy,
        t == ax * dx + ay * dy,
        l * (ax * ax + ay * ay) - t * t == c2,
    ensures
        (ax * l - t * dx) * (ax * l - t * dx) + (ay * l - t * dy) * (ay * l - t * dy) == l * c2,
{
    let xl = ax * l;
    let tx = t * dx;
    let yl = ay * l;
    let ty = t * dy;
    lemma_sq_diff(xl, tx);
    lemma_sq_diff(yl, ty);
    let ll = l * l;
    let tt = t * t;
    let xx = ax * ax;
    let yy = ay * ay;
    let ddx = dx * dx;
    let ddy = dy * dy;
    lemma_sq_prod(ax, l);
    lemma_sq_prod(t, dx);
    lemma_sq_prod(ay, l);
    lemma_sq_prod(t, dy);
    // xl * tx == (ax * dx) * (l * t)
    lemma_swap4(ax, l, t, dx);
    lemma_swap4(ay, l, t, dy);
    let lt = l * t;
    let pdx = ax * dx;
    let pdy = ay * dy;
    assert(l * t == t * l) by (nonlinear_arith);
    assert(pdx * lt + pdy * lt == t * lt) by (nonlinear_arith)
        requires
            t == pdx + pdy,
    ;
    assert(tt * ddx + tt * ddy == tt * l) by (nonlinear_arith)
        requires
            l == ddx + ddy,
    ;
    assert(xx * ll + yy * ll == (xx + yy) * ll) by (nonlinear_arith);
    assert(t * lt == l * tt) by (nonlinear_arith)
        requires
            lt == l * t,
            tt == t * t,
    ;
    assert((xx + yy) * ll == l * (l * (xx + yy))) by (nonlinear_arith)
        requires
            ll == l * l,
    ;
    assert(l * (l * (xx + yy)) - 2 * (l * tt) + l * tt == l * (l * (xx + yy) - tt))
        by (nonlinear_arith);
}

pub(crate) proof fn lemma_abs_sq(x: int)
    ensures
        abs(x) * abs(x) == x * x,
        abs(x) >= 0,
{
    assert(abs(x) * abs(x) == x * x) by (nonlinear_arith)
        requires
            abs(x) == x || abs(x) == -x,
    ;
}

/// The squared distance bounds the squared gap along one axis: `gap² · den <= num`.
proof fn lemma_gap(ax: int, ay: int, dx: int, dy: int)
    ensures
        ({
            let d = dist2_rel(ax, ay, dx, dy);
            &&& d.1 >= 1
            &&& d.0 >= 0
            &&& gap(ax, dx) * gap(ax, dx) * d.1 <= d.0
        }),
{
    let d = dist2_rel(ax, ay, dx, dy);
    let g = gap(ax, dx);
    let l = dx * dx + dy * dy;
    let t = ax * dx + ay * dy;
    assert(l >= 0) by (nonlinear_arith)
        requires
            l == dx * dx + dy * dy,
    ;
    assert(ay * ay >= 0) by (nonlinear_arith);
    assert((ay - dy) * (ay - dy) >= 0) by (nonlinear_arith);
    lemma_abs_sq(ax);
    lemma_abs_sq(ax - dx);
    if l == 0 || t <= 0 {
        assert(g <= abs(ax));
        assert(g * g <= ax * ax) by (nonlinear_arith)
            requires
                0 <= g <= abs(ax),
                abs(ax) * abs(ax) == ax * ax,
        ;
    } else if t >= l {
        assert(g <= abs(ax - dx));
        assert(g * g <= (ax - dx) * (ax - dx)) by (nonlinear_arith)
            requires
                0 <= g <= abs(ax - dx),
                abs(ax - dx) * abs(ax - dx) == (ax - dx) * (ax - dx),
        ;
    } else {
        let c = ax * dy - ay * dx;
        lemma_lagrange(ax, ay, dx, dy);
        lemma_proj_identity(ax, ay, dx, dy, l, t, c * c);
        let ux = ax * l - t * dx;
        let uy = ay * l - t * dy;
        lemma_abs_sq(ux);
        assert(uy * uy >= 0) by (nonlinear_arith);
        assert(ux * ux <= l * (c * c));
        // |ux| >= l * g: the projection of the point lies within the segment's x-range.
        let lo = if dx < 0 { dx } else { 0 };
        let hi = if dx < 0 { 0 } else { dx };
        assert(t * dx <= l * hi) by (nonlinear_arith)
            requires
                0 < t < l,
                hi == if dx < 0 { 0 } else { dx },
        ;
        assert(t * dx >= l * lo) by (nonlinear_arith)
            requires
                0 < t < l,
                lo == if dx < 0 { dx } else { 0 },
        ;
        if ax > hi {
            assert(ux - l * g == l * hi - t * dx) by (nonlinear_arith)
                requires
                    ux == ax * l - t * dx,
                    g == ax - hi,
            ;
        } else if ax < lo {
            assert(-ux - l * g == t * dx - l * lo) by (nonlinear_arith)
                requires
                    ux == ax * l - t * dx,
                    g == lo - ax,
            ;
        } else {
            assert(g == 0);
            assert(l * g == 0) by (nonlinear_arith)
                requires
                    g == 0,
            ;
        }
        assert(abs(ux) >= l * g);
        assert(l * l * (g * g) <= ux * ux) by (nonlinear_arith)
            requires
                abs(ux) >= l * g,
                l * g >= 0,
                abs(ux) * abs(ux) == ux * ux,
        ;
        assert(g * g * l <= c * c) by (nonlinear_arith)
            requires
                l * l * (g * g) <= l * (c * c),
                l > 0,
        ;
        assert(c * c >= 0) by (nonlinear_arith);
    }
}

/// A covered cell's centre is within half the bead plus one resolution of the segment's box.
pub(crate) proof fn lemma_covered_near(ax: int, ay: int, dx: int, dy: int, w: int, r: int)
    requires
        w >= 0,
        r >= 1,
        ({
            let d = dist2_rel(ax, ay, dx, dy);
            within_reach(d.0, d.1, w, r)
        }),
    ensures
        2 * gap(ax, dx) <= w + 2 * r,
        2 * gap(ay, dy) <= w + 2 * r,
{
    let d = dist2_rel(ax, ay, dx, dy);
    lemma_gap(ax, ay, dx, dy);
    lemma_reach_bound(d.0, d.1, w, r);
    // The same distance with the axes exchanged.
    let e = dist2_rel(ay, ax, dy, dx);
    assert(dy * dy + dx * dx == dx * dx + dy * dy);
    assert(ay * dy + ax * dx == ax * dx + ay * dy);
    assert((ay * dx - ax * dy) * (ay * dx - ax * dy) == (ax * dy - ay * dx) * (ax * dy - ay * dx))
        by (nonlinear_arith);
    assert(e == d);
    lemma_gap(ay, ax, dy, dx);
    let gx = gap(ax, dx);
    let gy = gap(ay, dy);
    let k = (w + 2 * r) * (w + 2 * r);
    assert(2 * gx <= w + 2 * r) by (nonlinear_arith)
        requires
            gx >= 0,
            gx * gx * d.1 <= d.0,
            4 * d.0 <= k * d.1,
            k == (w + 2 * r) * (w + 2 * r),
            d.1 >= 1,
            w + 2 * r > 0,
    ;
    assert(2 * gy <= w + 2 * r) by (nonlinear_arith)
        requires
            gy >= 0,
            gy * gy * d.1 <= d.0,
            4 * d.0 <= k * d.1,
            k == (w + 2 * r) * (w + 2 * r),
            d.1 >= 1,
            w + 2 * r > 0,
    ;
}

/// `lo / r <= i` when `lo <= i·r + h` with `0 <= h < r`; `i <= hi / r` when `i·r + h <= hi`.
pub(crate) proof fn lemma_floor_bounds(i: int, r: int, h: int, lo: int, hi: int)
    requires
        r >= 1,
        0 <= h < r,
        lo <= i * r + h <= hi,
    ensures
        lo / r <= i,
        i <= hi / r,
{
    let q = lo / r;
    assert(lo == r * q + lo % r && 0 <= lo % r < r) by {
        vstd::arithmetic::div_mod::lemma_fundamental_div_mod(lo, r);
        vstd::arithmetic::div_mod::lemma_mod_bound(lo, r);
    }
    assert(q <= i) by (nonlinear_arith)
        requires
            lo == r * q + lo % r,
            0 <= lo % r < r,
            lo <= i * r + h,
            h < r,
            r >= 1,
    ;
    let q2 = hi / r;
    assert(hi == r * q2 + hi % r && 0 <= hi % r < r) by {
        vstd::arithmetic::div_mod::lemma_fundamental_div_mod(hi, r);
        vstd::arithmetic::div_mod::lemma_mod_bound(hi, r);
    }
    assert(i <= q2) by (nonlinear_arith)
        requires
            hi == r * q2 + hi % r,
            0 <= hi % r < r,
            i * r + h <= hi,
            h >= 0,
            r >= 1,
    ;
}

// ------------------------------------------------------------------------------------------------
// Marking the cells of a segment and of a polyline.

/// Canonical endpoint order, executable.
pub fn canon_seg(p: Point, q: Point) -> (r: (Point, Point))
    ensures
        r == canon(p, q),
{
    if p.x < q.x || (p.x == q.x && p.y <= q.y) {
        (p, q)
    } else {
        (q, p)
    }
}

fn min_i64(a: i64, b: i64) -> (m: i64)
    ensures
        m == if a <= b { a } else { b },
{
    if a <= b { a } else { b }
}

fn max_i64(a: i64, b: i64) -> (m: i64)
    ensures
        m == if a >= b { a } else { b },
{
    if a >= b { a } else { b }
}

pub(crate) proof fn lemma_div_range(x: int, r: int)
    requires
        r >= 1,
    ensures
        x >= 0 ==> 0 <= x / r <= x,
        x < 0 ==> x <= x / r < 0,
{
    let q = x / r;
    assert(x == r * q + x % r && 0 <= x % r < r) by {
        vstd::arithmetic::div_mod::lemma_fundamental_div_mod(x, r);
        vstd::arithmetic::div_mod::lemma_mod_bound(x, r);
    }
    assert(x >= 0 ==> 0 <= q <= x) by (nonlinear_arith)
        requires
            x == r * q + x % r,
            0 <= x % r < r,
            r >= 1,
    ;
    assert(x < 0 ==> x <= q < 0) by (nonlinear_arith)
        requires
            x == r * q + x % r,
            0 <= x % r < r,
            r >= 1,
    ;
}

/// First and last cell index along one axis whose centre can be covered, clamped to `i64`.
pub(crate) fn scan_range(c1: i64, c2: i64, pad: i128, r: i64) -> (res: (i64, i64))
    requires
        r >= 1,
        0 <= pad < 0x2_0000_0000_0000_0000,
    ensures
        ({
            let lo = (if c1 <= c2 { c1 } else { c2 }) - pad;
            let hi = (if c1 >= c2 { c1 } else { c2 }) + pad;
            &&& res.0 == if lo / (r as int) < i64::MIN { i64::MIN as int } else { lo / (r as int) }
            &&& res.1 == if hi / (r as int) > i64::MAX { i64::MAX as int } else { hi / (r as int) }
        }),
{
    let lo: i128 = min_i64(c1, c2) as i128 - pad;
    let hi: i128 = max_i64(c1, c2) as i128 + pad;
    let rr = r as i128;
    proof {
        lemma_div_range(lo as int, rr as int);
        lemma_div_range(hi as int, rr as int);
    }
    let qlo = lo.checked_div_euclid(rr).unwrap();
    let qhi = hi.checked_div_euclid(rr).unwrap();
    let a = if qlo < i64::MIN as i128 { i64::MIN } else { qlo as i64 };
    let b = if qhi > i64::MAX as i128 { i64::MAX } else { qhi as i64 };
    (a, b)
}

} // verus!
