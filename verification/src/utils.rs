//! The rolling checksum being inverted, and conversion of solution rows
//! back into byte strings.

use vstd::prelude::*;
use crate::bits::BitRow;
use crate::bits::{bits_of, get_bit, row_len};

verus! {

/// `h` rotated left by six bit positions within 32 bits.
pub open spec fn rotl6(h: u32) -> u32 {
    (h << 6u32) | (h >> 26u32)
}

/// The checksum of a byte string: starting from zero, each byte is XORed
/// into the accumulator after rotating the accumulator left by six.
pub open spec fn spec_sta_hash(s: Seq<u8>) -> u32
    decreases s.len(),
{
    if s.len() == 0 {
        0u32
    } else {
        rotl6(spec_sta_hash(s.drop_last())) ^ (s.last() as u32)
    }
}

/// Compute the rolling checksum of a byte string.
pub fn sta_hash(bytes: &[u8]) -> (r: u32)
    ensures
        r == spec_sta_hash(bytes@),
{
    let mut h: u32 = 0;
    let mut i: usize = 0;
    while i < bytes.len()
        invariant
            i <= bytes@.len(),
            h == spec_sta_hash(bytes@.take(i as int)),
        decreases bytes@.len() - i,
    {
        let c = bytes[i];
        h = ((h << 6u32) | (h >> 26u32)) ^ (c as u32);
        i += 1;
        proof {
            assert(bytes@.take(i as int).drop_last() =~= bytes@.take(i - 1));
            assert(bytes@.take(i as int).last() == bytes@[i - 1]);
        }
    }
    proof {
        assert(bytes@.take(bytes@.len() as int) =~= bytes@);
    }
    h
}

/// One term of a byte: the power of two for bit `j` when that bit is set.
pub open spec fn bit_term(s: Seq<bool>, k: int, j: int, pw: u8) -> u8 {
    if s[8 * k + j] {
        pw
    } else {
        0u8
    }
}

/// The byte assembled from eight consecutive bits of a row, lowest bit first.
pub open spec fn byte_at(s: Seq<bool>, k: int) -> u8 {
    (bit_term(s, k, 0, 1) + bit_term(s, k, 1, 2) + bit_term(s, k, 2, 4) + bit_term(s, k, 3, 8)
        + bit_term(s, k, 4, 16) + bit_term(s, k, 5, 32) + bit_term(s, k, 6, 64) + bit_term(
        s,
        k,
        7,
        128,
    )) as u8
}

/// Repack a row of bits into bytes, eight bits per byte, bit `8*k + j`
/// becoming bit `j` of byte `k`.
pub fn bits_as_byte_slice(bits: &BitRow) -> (r: Vec<u8>)
    requires
        bits_of(*bits).len() % 8 == 0,
    ensures
        r@.len() == bits_of(*bits).len() / 8,
        forall|k: int| 0 <= k < r@.len() ==> r@[k] == byte_at(bits_of(*bits), k),
{
    let total = row_len(bits);
    let n = total / 8;
    let mut r: Vec<u8> = Vec::new();
    let mut k: usize = 0;
    while k < n
        invariant
            bits_of(*bits).len() % 8 == 0,
            total == bits_of(*bits).len(),
            n == total / 8,
            k <= n,
            r@.len() == k,
            forall|q: int| 0 <= q < k ==> r@[q] == byte_at(bits_of(*bits), q),
        decreases n - k,
    {
        let mut b: u8 = 0;
        if get_bit(bits, 8 * k + 0) {
            b = b + 1;
        }
        if get_bit(bits, 8 * k + 1) {
            b = b + 2;
        }
        if get_bit(bits, 8 * k + 2) {
            b = b + 4;
        }
        if get_bit(bits, 8 * k + 3) {
            b = b + 8;
        }
        if get_bit(bits, 8 * k + 4) {
            b = b + 16;
        }
        if get_bit(bits, 8 * k + 5) {
            b = b + 32;
        }
        if get_bit(bits, 8 * k + 6) {
            b = b + 64;
        }
        if get_bit(bits, 8 * k + 7) {
            b = b + 128;
        }
        r.push(b);
        k += 1;
    }
    r
}

} // verus!
