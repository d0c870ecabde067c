//! FNV-1a, the dependency-free hash behind the library's fingerprints and content digests.
//!
//! The 64-bit form folds whole `u64` words; the 128-bit form folds bytes (content digests) or
//! whole `u64` words (combining layer fingerprints).
use vstd::prelude::*;

verus! {

/// FNV-1a-64 offset basis.
pub const FNV64_OFFSET: u64 = 0xcbf2_9ce4_8422_2325;

/// FNV-1a-64 prime.
pub const FNV64_PRIME: u64 = 0x0000_0100_0000_01b3;

/// FNV-1a-128 offset basis.
pub const FNV128_OFFSET: u128 = 0x6c62_272e_07bb_0142_62b8_2175_6295_c58d;

/// FNV-1a-128 prime.
pub const FNV128_PRIME: u128 = 0x0000_0000_0100_0000_0000_0000_0000_013b;

/// One FNV-1a-64 step over a whole word.
pub open spec fn fnv64_step(h: u64, v: u64) -> u64 {
    vstd::wrapping::u64_specs::wrapping_mul(h ^ v, FNV64_PRIME)
}

/// FNV-1a-64 folded over a word sequence from state `h`.
pub open spec fn fnv64_fold(h: u64, vs: Seq<u64>) -> u64
    decreases vs.len(),
{
    if vs.len() == 0 {
        h
    } else {
        fnv64_step(fnv64_fold(h, vs.drop_last()), vs.last())
    }
}

/// One FNV-1a-128 step over a value widened to 128 bits.
pub open spec fn fnv128_step(h: u128, v: u128) -> u128 {
    vstd::wrapping::u128_specs::wrapping_mul(h ^ v, FNV128_PRIME)
}

/// FNV-1a-128 folded over a sequence of values from state `h`.
pub open spec fn fnv128_fold(h: u128, vs: Seq<u128>) -> u128
    decreases vs.len(),
{
    if vs.len() == 0 {
        h
    } else {
        fnv128_step(fnv128_fold(h, vs.drop_last()), vs.last())
    }
}

/// One executable FNV-1a-64 step.
pub fn fnv64_mix(h: u64, v: u64) -> (r: u64)
    ensures
        r == fnv64_step(h, v),
{
    (h ^ v).wrapping_mul(FNV64_PRIME)
}

/// One executable FNV-1a-128 step.
pub fn fnv128_mix(h: u128, v: u128) -> (r: u128)
    ensures
        r == fnv128_step(h, v),
{
    (h ^ v).wrapping_mul(FNV128_PRIME)
}

/// Folding a sequence extended by one value is one more step.
pub proof fn lemma_fnv64_push(h: u64, vs: Seq<u64>, v: u64)
    ensures
        fnv64_fold(h, vs.push(v)) == fnv64_step(fnv64_fold(h, vs), v),
{
    assert(vs.push(v).drop_last() =~= vs);
}

/// Folding a sequence extended by one value is one more step.
pub proof fn lemma_fnv128_push(h: u128, vs: Seq<u128>, v: u128)
    ensures
        fnv128_fold(h, vs.push(v)) == fnv128_step(fnv128_fold(h, vs), v),
{
    assert(vs.push(v).drop_last() =~= vs);
}

/// Folding a concatenation folds the second part from the state the first part leaves.
pub proof fn lemma_fnv128_concat(h: u128, a: Seq<u128>, b: Seq<u128>)
    ensures
        fnv128_fold(h, a + b) == fnv128_fold(fnv128_fold(h, a), b),
    decreases b.len(),
{
    if b.len() == 0 {
        assert(a + b =~= a);
    } else {
        lemma_fnv128_concat(h, a, b.drop_last());
        assert((a + b).drop_last() =~= a + b.drop_last());
    }
}

} // verus!
