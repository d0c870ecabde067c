//! Content digests: SHA-256 of byte strings, written as lowercase hex.
use sha2::{Digest, Sha256};
use vstd::prelude::*;

use crate::hash::{hex_char, hex_digit, push_char};

verus! {

/// The SHA-256 digest of a byte string (32 bytes).
pub uninterp spec fn sha256_digest(bytes: Seq<u8>) -> Seq<u8>;

/// SHA-256 of a byte string.
///
/// Calls `sha2::Sha256::digest`. Claimed: the 32 digest bytes are a function of the input bytes
/// alone.
#[verifier::external_body]
fn sha256(bytes: &[u8]) -> (d: Vec<u8>)
    ensures
        d@ == sha256_digest(bytes@),
        d@.len() == 32,
{
    Sha256::digest(bytes).to_vec()
}

/// Two lowercase hex digits per byte, most significant nibble first.
pub open spec fn hex_bytes(b: Seq<u8>) -> Seq<char>
    decreases b.len(),
{
    if b.len() == 0 {
        Seq::empty()
    } else {
        hex_bytes(b.drop_last()).push(hex_digit((b.last() / 16) as u128)).push(hex_digit((b.last() % 16) as u128))
    }
}

/// Lowercase hex of a byte string.
pub fn hex_string(bytes: &Vec<u8>) -> (s: String)
    ensures
        s@ == hex_bytes(bytes@),
        s@.len() == 2 * bytes@.len(),
{
    let mut s = String::new();
    let mut k: usize = 0;
    while k < bytes.len()
        invariant
            k <= bytes.len(),
            s@ == hex_bytes(bytes@.take(k as int)),
            s@.len() == 2 * k,
        decreases bytes.len() - k,
    {
        let b = bytes[k];
        push_char(&mut s, hex_char((b / 16) as u128));
        push_char(&mut s, hex_char((b % 16) as u128));
        proof {
            assert(bytes@.take(k + 1).drop_last() =~= bytes@.take(k as int));
        }
        k += 1;
    }
    assert(bytes@.take(k as int) =~= bytes@);
    s
}

/// Lowercase-hex SHA-256 of a byte string: 64 characters.
pub fn sha256_hex(bytes: &[u8]) -> (s: String)
    ensures
        s@ == hex_bytes(sha256_digest(bytes@)),
        s@.len() == 64,
{
    let d = sha256(bytes);
    hex_string(&d)
}

} // verus!
