//! Exact wide unsigned arithmetic (256 and 512 bits) for the coverage predicate.
//!
//! The rasterizer decides coverage exactly on integer microns, for every `i64` input, which needs
//! intermediate products wider than 128 bits. Values are non-negative and each type carries its
//! mathematical value as a `nat` view.
use vstd::prelude::*;

verus! {

pub open spec fn b64() -> int {
    0x1_0000_0000_0000_0000int
}

pub open spec fn b128() -> int {
    0x1_0000_0000_0000_0000_0000_0000_0000_0000int
}

pub open spec fn b256() -> int {
    b128() * b128()
}

/// A 256-bit unsigned integer: `hi * 2^128 + lo`.
#[derive(Clone, Copy, Debug, PartialEq, Eq, Structural)]
pub struct U256 {
    pub hi: u128,
    pub lo: u128,
}

impl View for U256 {
    type V = int;

    open spec fn view(&self) -> int {
        self.hi * b128() + self.lo
    }
}

/// A 512-bit unsigned integer: `hi * 2^256 + lo`.
#[derive(Clone, Copy, Debug, PartialEq, Eq, Structural)]
pub struct U512 {
    pub hi: U256,
    pub lo: U256,
}

impl View for U512 {
    type V = int;

    open spec fn view(&self) -> int {
        self.hi@ * b256() + self.lo@
    }
}

pub proof fn lemma_u256_range(x: U256)
    ensures
        0 <= x@ < b256(),
{
    lemma_consts();
    assert(x.hi * b128() <= (b128() - 1) * b128()) by (nonlinear_arith)
        requires
            0 <= x.hi < b128(),
            b128() > 0,
    ;
}

pub proof fn lemma_u512_range(x: U512)
    ensures
        0 <= x@,
{
    lemma_u256_range(x.hi);
    lemma_u256_range(x.lo);
    assert(x.hi@ * b256() >= 0) by (nonlinear_arith)
        requires
            x.hi@ >= 0,
            b256() > 0,
    ;
}

pub fn u256_from(x: u128) -> (r: U256)
    ensures
        r@ == x,
{
    U256 { hi: 0, lo: x }
}

pub fn u256_zero() -> (r: U256)
    ensures
        r@ == 0,
{
    U256 { hi: 0, lo: 0 }
}

proof fn lemma_split_mul(a1: int, a0: int, b1: int, b0: int, b: int)
    ensures
        (a1 * b + a0) * (b1 * b + b0) == (a1 * b1) * (b * b) + (a1 * b0 + a0 * b1) * b + a0 * b0,
{
    let x = a1 * b;
    let y = b1 * b;
    assert((x + a0) * (y + b0) == x * y + x * b0 + a0 * y + a0 * b0) by (nonlinear_arith);
    assert(x * y == (a1 * b1) * (b * b)) by (nonlinear_arith)
        requires
            x == a1 * b,
            y == b1 * b,
    ;
    assert(x * b0 == (a1 * b0) * b) by (nonlinear_arith)
        requires
            x == a1 * b,
    ;
    assert(a0 * y == (a0 * b1) * b) by (nonlinear_arith)
        requires
            y == b1 * b,
    ;
    assert((a1 * b0) * b + (a0 * b1) * b == (a1 * b0 + a0 * b1) * b) by (nonlinear_arith);
}

proof fn lemma_dist2(a: int, b: int, c: int, d: int, k: int)
    ensures
        (a + b) * k + (c + d) == (a * k + c) + (b * k + d),
{
    assert((a + b) * k == a * k + b * k) by (nonlinear_arith);
}

pub proof fn lemma_consts()
    ensures
        b128() == b64() * b64(),
        b256() == b128() * b128(),
        (U256 { hi: u128::MAX, lo: u128::MAX })@ == b256() - 1,
{
    assert(0x1_0000_0000_0000_0000_0000_0000_0000_0000int == 0x1_0000_0000_0000_0000int
        * 0x1_0000_0000_0000_0000int) by (nonlinear_arith);
    assert(u128::MAX * b128() + u128::MAX == b128() * b128() - 1) by (nonlinear_arith)
        requires
            u128::MAX == b128() - 1,
    ;
}

proof fn lemma_prod_bound(x: int, y: int, bx: int, by: int)
    requires
        0 <= x < bx,
        0 <= y < by,
    ensures
        0 <= x * y < bx * by,
        x * y <= (bx - 1) * (by - 1),
{
    assert(0 <= x * y) by (nonlinear_arith)
        requires
            0 <= x,
            0 <= y,
    ;
    assert(x * y <= (bx - 1) * (by - 1)) by (nonlinear_arith)
        requires
            0 <= x <= bx - 1,
            0 <= y <= by - 1,
    ;
    assert((bx - 1) * (by - 1) < bx * by) by (nonlinear_arith)
        requires
            bx >= 1,
            by >= 1,
    ;
}

/// Exact product of two 128-bit values.
pub fn mul128(a: u128, b: u128) -> (r: U256)
    ensures
        r@ == a * b,
{
    let m: u128 = 0x1_0000_0000_0000_0000;
    let a1 = a / m;
    let a0 = a % m;
    let b1 = b / m;
    let b0 = b % m;
    assert(a == a1 * b64() + a0);
    assert(b == b1 * b64() + b0);
    proof {
        lemma_prod_bound(a0 as int, b0 as int, b64(), b64());
        lemma_prod_bound(a0 as int, b1 as int, b64(), b64());
        lemma_prod_bound(a1 as int, b0 as int, b64(), b64());
        lemma_prod_bound(a1 as int, b1 as int, b64(), b64());
    }
    let p00: u128 = a0 * b0;
    let p01: u128 = a0 * b1;
    let p10: u128 = a1 * b0;
    let p11: u128 = a1 * b1;
    let t: u128 = p00 / m + p01 % m + p10 % m;
    let lo: u128 = p00 % m + (t % m) * m;
    let hi: u128 = p11 + p01 / m + p10 / m + t / m;
    proof {
        lemma_split_mul(a1 as int, a0 as int, b1 as int, b0 as int, b64());
        lemma_consts();
        assert(p00 == (p00 / m) * b64() + p00 % m);
        assert(p01 == (p01 / m) * b64() + p01 % m);
        assert(p10 == (p10 / m) * b64() + p10 % m);
        assert(t == (t / m) * b64() + t % m);
        assert((a1 * b1) * (b64() * b64()) == p11 * b128());
        assert(hi * b128() + lo == a * b);
    }
    U256 { hi, lo }
}

/// Sum of two 256-bit values that does not overflow.
pub fn add256(x: U256, y: U256) -> (r: U256)
    requires
        x@ + y@ < b256(),
    ensures
        r@ == x@ + y@,
{
    let max: u128 = u128::MAX;
    if x.lo <= max - y.lo {
        proof {
            assert(x.hi + y.hi < b128()) by (nonlinear_arith)
                requires
                    x.hi * b128() + x.lo + y.hi * b128() + y.lo < b128() * b128(),
                    x.lo >= 0,
                    y.lo >= 0,
            ;
            lemma_consts();
        }
        U256 { hi: x.hi + y.hi, lo: x.lo + y.lo }
    } else {
        proof {
            lemma_consts();
            assert(x.hi + y.hi + 1 < b128()) by (nonlinear_arith)
                requires
                    x.hi * b128() + x.lo + y.hi * b128() + y.lo < b128() * b128(),
                    x.lo + y.lo >= b128(),
            ;
        }
        U256 { hi: x.hi + y.hi + 1, lo: x.lo - (max - y.lo) - 1 }
    }
}

/// Difference of two 256-bit values, `x >= y`.
pub fn sub256(x: U256, y: U256) -> (r: U256)
    requires
        x@ >= y@,
    ensures
        r@ == x@ - y@,
{
    if x.lo >= y.lo {
        proof {
            assert(x.hi >= y.hi) by (nonlinear_arith)
                requires
                    x.hi * b128() + x.lo >= y.hi * b128() + y.lo,
                    x.lo < b128(),
                    y.lo >= 0,
            ;
        }
        U256 { hi: x.hi - y.hi, lo: x.lo - y.lo }
    } else {
        proof {
            assert(x.hi >= y.hi + 1) by (nonlinear_arith)
                requires
                    x.hi * b128() + x.lo >= y.hi * b128() + y.lo,
                    x.lo < y.lo,
            ;
        }
        let max: u128 = u128::MAX;
        U256 { hi: x.hi - y.hi - 1, lo: (max - y.lo) + x.lo + 1 }
    }
}

/// `x <= y` on 256-bit values.
pub fn le256(x: U256, y: U256) -> (b: bool)
    ensures
        b == (x@ <= y@),
{
    proof {
        if x.hi < y.hi {
            assert(x@ < y@) by (nonlinear_arith)
                requires
                    x.hi < y.hi,
                    0 <= x.lo < b128(),
                    0 <= y.lo,
                    x@ == x.hi * b128() + x.lo,
                    y@ == y.hi * b128() + y.lo,
            ;
        } else if x.hi > y.hi {
            assert(x@ > y@) by (nonlinear_arith)
                requires
                    x.hi > y.hi,
                    0 <= y.lo < b128(),
                    0 <= x.lo,
                    x@ == x.hi * b128() + x.lo,
                    y@ == y.hi * b128() + y.lo,
            ;
        }
    }
    if x.hi != y.hi {
        x.hi < y.hi
    } else {
        x.lo <= y.lo
    }
}

pub fn u512_from(x: U256) -> (r: U512)
    ensures
        r@ == x@,
{
    U512 { hi: u256_zero(), lo: x }
}

/// Sum of two 512-bit values that does not overflow.
pub fn add512(x: U512, y: U512) -> (r: U512)
    requires
        x@ + y@ < b256() * b256(),
    ensures
        r@ == x@ + y@,
{
    proof {
        lemma_u256_range(x.lo);
        lemma_u256_range(y.lo);
        lemma_u256_range(x.hi);
        lemma_u256_range(y.hi);
    }
    let one = u256_from(1);
    if le256(x.lo, sub256(U256 { hi: u128::MAX, lo: u128::MAX }, y.lo)) {
        proof {
            lemma_consts();
            assert(x.hi@ + y.hi@ < b256()) by (nonlinear_arith)
                requires
                    x.hi@ * b256() + x.lo@ + y.hi@ * b256() + y.lo@ < b256() * b256(),
                    x.lo@ >= 0,
                    y.lo@ >= 0,
            ;
        }
        let h = add256(x.hi, y.hi);
        let l = add256(x.lo, y.lo);
        proof {
            lemma_dist2(x.hi@, y.hi@, x.lo@, y.lo@, b256());
        }
        U512 { hi: h, lo: l }
    } else {
        proof {
            lemma_consts();
            assert(x.hi@ + y.hi@ + 1 < b256()) by (nonlinear_arith)
                requires
                    x.hi@ * b256() + x.lo@ + y.hi@ * b256() + y.lo@ < b256() * b256(),
                    x.lo@ + y.lo@ >= b256(),
            ;
        }
        let top = U256 { hi: u128::MAX, lo: u128::MAX };
        let s = sub256(top, y.lo);
        let lo = sub256(sub256(x.lo, s), one);
        let h = add256(add256(x.hi, y.hi), one);
        proof {
            lemma_dist2(x.hi@, y.hi@, x.lo@, y.lo@, b256());
            assert((x.hi@ + y.hi@ + 1) * b256() == (x.hi@ + y.hi@) * b256() + b256()) by (nonlinear_arith);
        }
        U512 { hi: h, lo }
    }
}

/// Difference of two 512-bit values, `x >= y`.
pub fn sub512(x: U512, y: U512) -> (r: U512)
    requires
        x@ >= y@,
    ensures
        r@ == x@ - y@,
{
    proof {
        lemma_u256_range(x.lo);
        lemma_u256_range(y.lo);
        lemma_u256_range(x.hi);
        lemma_u256_range(y.hi);
    }
    if le256(y.lo, x.lo) {
        proof {
            assert(x.hi@ >= y.hi@) by (nonlinear_arith)
                requires
                    x.hi@ * b256() + x.lo@ >= y.hi@ * b256() + y.lo@,
                    x.lo@ < b256(),
                    y.lo@ >= 0,
            ;
        }
        let h = sub256(x.hi, y.hi);
        let l = sub256(x.lo, y.lo);
        proof {
            lemma_dist2(h@, y.hi@, l@, y.lo@, b256());
        }
        U512 { hi: h, lo: l }
    } else {
        proof {
            assert(x.hi@ >= y.hi@ + 1) by (nonlinear_arith)
                requires
                    x.hi@ * b256() + x.lo@ >= y.hi@ * b256() + y.lo@,
                    x.lo@ < y.lo@,
            ;
            lemma_consts();
        }
        let top = U256 { hi: u128::MAX, lo: u128::MAX };
        let one = u256_from(1);
        let h = sub256(sub256(x.hi, y.hi), one);
        let lo = add256(add256(sub256(top, y.lo), x.lo), one);
        proof {
            lemma_dist2(h@, y.hi@, lo@, y.lo@, b256());
            assert((x.hi@ - 1) * b256() + b256() == x.hi@ * b256()) by (nonlinear_arith);
        }
        U512 { hi: h, lo }
    }
}

/// `x <= y` on 512-bit values.
pub fn le512(x: U512, y: U512) -> (b: bool)
    ensures
        b == (x@ <= y@),
{
    proof {
        lemma_u256_range(x.lo);
        lemma_u256_range(y.lo);
        if x.hi@ < y.hi@ {
            assert(x@ < y@) by (nonlinear_arith)
                requires
                    x.hi@ < y.hi@,
                    0 <= x.lo@ < b256(),
                    0 <= y.lo@,
                    x@ == x.hi@ * b256() + x.lo@,
                    y@ == y.hi@ * b256() + y.lo@,
            ;
        } else if x.hi@ > y.hi@ {
            assert(x@ > y@) by (nonlinear_arith)
                requires
                    x.hi@ > y.hi@,
                    0 <= y.lo@ < b256(),
                    0 <= x.lo@,
                    x@ == x.hi@ * b256() + x.lo@,
                    y@ == y.hi@ * b256() + y.lo@,
            ;
        }
    }
    if x.hi == y.hi {
        le256(x.lo, y.lo)
    } else {
        le256(x.hi, y.hi)
    }
}

/// Exact product of two 256-bit values.
pub fn mul256(a: U256, b: U256) -> (r: U512)
    ensures
        r@ == a@ * b@,
{
    let p00 = mul128(a.lo, b.lo);
    let p01 = mul128(a.lo, b.hi);
    let p10 = mul128(a.hi, b.lo);
    let p11 = mul128(a.hi, b.hi);
    proof {
        lemma_u256_range(p00);
        lemma_u256_range(p01);
        lemma_u256_range(p10);
        lemma_u256_range(p11);
        lemma_prod_bound(a.lo as int, b.lo as int, b128(), b128());
        lemma_prod_bound(a.hi as int, b.hi as int, b128(), b128());
        lemma_prod_bound(a.lo as int, b.hi as int, b128(), b128());
        lemma_prod_bound(a.hi as int, b.lo as int, b128(), b128());
        lemma_consts();
    }
    // t = p00.hi + p01.lo + p10.lo < 3 * 2^128
    let t = add256(add256(u256_from(p00.hi), u256_from(p01.lo)), u256_from(p10.lo));
    let lo = U256 { hi: t.lo, lo: p00.lo };
    proof {
        assert(t@ < 3 * b128());
        assert(t.hi < 3) by (nonlinear_arith)
            requires
                t.hi * b128() + t.lo < 3 * b128(),
                t.lo >= 0,
        ;
        // p11 <= (2^128 - 1)^2 and each high half of a partial product is at most 2^128 - 2, so
        // p11 + p01.hi + p10.hi + t.hi stays below 2^256.
        assert(p11@ <= (b128() - 1) * (b128() - 1));
        assert(p01.hi <= b128() - 2) by (nonlinear_arith)
            requires
                p01.hi * b128() + p01.lo <= (b128() - 1) * (b128() - 1),
                p01.lo >= 0,
                b128() > 4,
        ;
        assert(p10.hi <= b128() - 2) by (nonlinear_arith)
            requires
                p10.hi * b128() + p10.lo <= (b128() - 1) * (b128() - 1),
                p10.lo >= 0,
                b128() > 4,
        ;
        assert((b128() - 1) * (b128() - 1) + 2 * (b128() - 2) + 2 < b256()) by (nonlinear_arith)
            requires
                b128() > 4,
                b256() == b128() * b128(),
        ;
    }
    let h = add256(add256(add256(p11, u256_from(p01.hi)), u256_from(p10.hi)), u256_from(t.hi));
    proof {
        lemma_split_mul(a.hi as int, a.lo as int, b.hi as int, b.lo as int, b128());
        lemma_consts();
        assert(p01@ == p01.hi * b128() + p01.lo);
        assert(p10@ == p10.hi * b128() + p10.lo);
        assert(p00@ == p00.hi * b128() + p00.lo);
        assert(t@ == t.hi * b128() + t.lo);
        assert(a@ * b@ == p11@ * b256() + (p10@ + p01@) * b128() + p00@);
        assert(h@ * b256() + lo@ == a@ * b@) by (nonlinear_arith)
            requires
                a@ * b@ == p11@ * b256() + (p10@ + p01@) * b128() + p00@,
                p01@ == p01.hi * b128() + p01.lo,
                p10@ == p10.hi * b128() + p10.lo,
                p00@ == p00.hi * b128() + p00.lo,
                t@ == p00.hi + p01.lo + p10.lo,
                t@ == t.hi * b128() + t.lo,
                lo@ == t.lo * b128() + p00.lo,
                h@ == p11@ + p01.hi + p10.hi + t.hi,
                b256() == b128() * b128(),
        ;
    }
    U512 { hi: h, lo }
}

} // verus!
