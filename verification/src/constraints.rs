//! Generators of linear constraint rows over GF(2).
//!
//! A system over an unknown string of `n` bytes works on `8*n` boolean
//! unknowns, bit `8*i + j` being bit `j` of byte `i`. Every row has
//! `8*n + 1` bits: the first `8*n` are XOR coefficients over the unknowns,
//! the last is the constant term. A row is satisfied by an assignment when
//! the XOR of the selected unknowns equals the constant bit.

use vstd::prelude::*;
use crate::bits::{BitRow, bits_of, zero_row, set_bit};

verus! {

/// Width of a row over `n` unknown bytes: one coefficient per unknown bit,
/// plus the augmented constant column.
pub open spec fn row_width(n: nat) -> nat {
    8 * n + 1
}

/// Bit `k` of a 32-bit word, lowest bit first.
pub open spec fn u32_bit(v: u32, k: int) -> bool {
    (v >> (k as u32)) & 1 == 1
}

/// Bit `b` of a byte, lowest bit first.
pub open spec fn u8_bit(v: u8, b: int) -> bool {
    ((v as u32) >> (b as u32)) & 1 == 1
}

/// The hash bit that bit `j` of byte `i` lands on when the rotate-xor
/// recurrence is unrolled over a string of `n` bytes.
pub open spec fn hash_bit_pos(n: nat, i: int, j: int) -> int {
    (6 * (n - 1 - i) + j) % 32
}

/// Row `k` of the checksum system: coefficient `8*i + j` is set exactly when
/// bit `j` of byte `i` lands on hash bit `k`; the constant column holds bit
/// `k` of the target hash.
pub open spec fn hash_row(n: nat, hash: u32, k: int) -> Seq<bool> {
    Seq::new(
        row_width(n),
        |p: int|
            if p == 8 * n {
                u32_bit(hash, k)
            } else {
                hash_bit_pos(n, p / 8, p % 8) == k
            },
    )
}

/// A hash row whose coefficients are only filled in for unknown bits
/// below `done`; the stable intermediate shape of the generator's loops.
pub open spec fn hash_row_upto(n: nat, hash: u32, k: int, done: int) -> Seq<bool> {
    Seq::new(
        row_width(n),
        |p: int|
            if p == 8 * n {
                u32_bit(hash, k)
            } else if p < done {
                hash_bit_pos(n, p / 8, p % 8) == k
            } else {
                false
            },
    )
}

/// System of equations for the unknown string having a specific checksum.
///
/// Thirty-two rows, one per hash bit, each listing exactly the unknown bits
/// that XOR together into that hash bit, with the matching bit of the target
/// as the constant.
pub fn sta_hash(n: usize, hash: u32) -> (r: Vec<BitRow>)
    requires
        8 * n + 1 <= usize::MAX,
    ensures
        r@.len() == 32,
        forall|k: int| 0 <= k < 32 ==> bits_of(r@[k]) == hash_row(n as nat, hash, k),
{
    let mut r: Vec<BitRow> = Vec::new();
    let mut k: usize = 0;
    while k < 32
        invariant
            8 * n + 1 <= usize::MAX,
            k <= 32,
            r@.len() == k,
            forall|q: int| 0 <= q < k ==> bits_of(r@[q]) == hash_row_upto(n as nat, hash, q, 0),
        decreases 32 - k,
    {
        let mut row = zero_row(8 * n + 1);
        if (hash >> (k as u32)) & 1 == 1 {
            set_bit(&mut row, 8 * n, true);
        }
        proof {
            assert(bits_of(row) =~= hash_row_upto(n as nat, hash, k as int, 0));
        }
        r.push(row);
        k += 1;
    }
    let mut i: usize = 0;
    while i < n
        invariant
            8 * n + 1 <= usize::MAX,
            i <= n,
            r@.len() == 32,
            forall|q: int|
                0 <= q < 32 ==> bits_of(r@[q]) == hash_row_upto(n as nat, hash, q, 8 * i as int),
        decreases n - i,
    {
        let mut j: usize = 0;
        while j < 8
            invariant
                8 * n + 1 <= usize::MAX,
                i < n,
                j <= 8,
                r@.len() == 32,
                forall|q: int|
                    0 <= q < 32 ==> bits_of(r@[q]) == hash_row_upto(
                        n as nat,
                        hash,
                        q,
                        8 * i + j as int,
                    ),
            decreases 8 - j,
        {
            let hash_pos = (6 * (n - i - 1) + j) % 32;
            let ghost pre = r@;
            set_bit(&mut r[hash_pos], 8 * i + j, true);
            proof {
                let pos = 8 * i + j as int;
                assert(pos / 8 == i && pos % 8 == j) by (nonlinear_arith)
                    requires
                        0 <= j < 8,
                        0 <= i,
                        pos == 8 * i + j,
                ;
                assert(hash_bit_pos(n as nat, pos / 8, pos % 8) == hash_pos as int);
                assert forall|q: int| 0 <= q < 32 implies bits_of(r@[q]) == hash_row_upto(
                    n as nat,
                    hash,
                    q,
                    pos + 1,
                ) by {
                    if q == hash_pos as int {
                        assert(bits_of(r@[q]) =~= hash_row_upto(n as nat, hash, q, pos + 1));
                    } else {
                        assert(bits_of(r@[q]) == bits_of(pre[q]));
                        assert(bits_of(pre[q]) =~= hash_row_upto(n as nat, hash, q, pos + 1));
                    }
                }
            }
            j += 1;
        }
        i += 1;
    }
    proof {
        assert forall|q: int| 0 <= q < 32 implies bits_of(r@[q]) == hash_row(
            n as nat,
            hash,
            q,
        ) by {
            assert(bits_of(r@[q]) =~= hash_row(n as nat, hash, q));
        }
    }
    r
}

/// The bits of a byte string, eight per byte, lowest bit of each byte
/// first: the assignment of the unknowns that the string itself makes.
pub open spec fn string_bits(s: Seq<u8>) -> Seq<bool> {
    Seq::new(8 * s.len(), |p: int| u8_bit(s[p / 8], p % 8))
}

/// A row forcing the top bit of byte `i` to zero.
pub open spec fn top_bit_row(n: nat, i: int) -> Seq<bool> {
    Seq::new(row_width(n), |p: int| p == 8 * i + 7)
}

/// A row forcing bits five and six of byte `i` to differ.
pub open spec fn excl_bits_row(n: nat, i: int) -> Seq<bool> {
    Seq::new(row_width(n), |p: int| p == 8 * i + 5 || p == 8 * i + 6 || p == 8 * n)
}

/// A row forcing bit six of byte `i` to one.
pub open spec fn bit6_row(n: nat, i: int) -> Seq<bool> {
    Seq::new(row_width(n), |p: int| p == 8 * i + 6 || p == 8 * n)
}

/// Row `b` of a fixed-byte constraint: bit `b` of byte `idx` must equal bit
/// `b` of `value`.
pub open spec fn fixed_bit_row(n: nat, idx: int, value: u8, b: int) -> Seq<bool> {
    Seq::new(
        row_width(n),
        |p: int|
            if p == 8 * n {
                u8_bit(value, b)
            } else {
                p == 8 * idx + b
            },
    )
}

/// System of equations approximating that each listed byte lies in the
/// printable range 32..96: its top bit is zero, and its bits five and six
/// differ. Necessary but not sufficient; exact range checks belong to the
/// caller's enumeration-time filter.
pub fn approx_uppercase_alphanumeric(n: usize, indices: &[usize]) -> (r: Vec<BitRow>)
    requires
        8 * n + 1 <= usize::MAX,
        forall|q: int| 0 <= q < indices@.len() ==> indices@[q] < n,
    ensures
        r@.len() == 2 * indices@.len(),
        forall|q: int|
            0 <= q < indices@.len() ==> bits_of(r@[q]) == top_bit_row(n as nat, indices@[q] as int),
        forall|q: int|
            0 <= q < indices@.len() ==> bits_of(r@[indices@.len() + q]) == excl_bits_row(
                n as nat,
                indices@[q] as int,
            ),
{
    let mut r: Vec<BitRow> = Vec::new();
    let mut t: usize = 0;
    while t < indices.len()
        invariant
            8 * n + 1 <= usize::MAX,
            forall|q: int| 0 <= q < indices@.len() ==> indices@[q] < n,
            t <= indices@.len(),
            r@.len() == t,
            forall|q: int|
                0 <= q < t ==> bits_of(r@[q]) == top_bit_row(n as nat, indices@[q] as int),
        decreases indices@.len() - t,
    {
        let i = indices[t];
        let mut row = zero_row(8 * n + 1);
        set_bit(&mut row, 8 * i + 7, true);
        proof {
            assert(bits_of(row) =~= top_bit_row(n as nat, i as int));
        }
        r.push(row);
        t += 1;
    }
    let mut t2: usize = 0;
    while t2 < indices.len()
        invariant
            8 * n + 1 <= usize::MAX,
            forall|q: int| 0 <= q < indices@.len() ==> indices@[q] < n,
            t2 <= indices@.len(),
            r@.len() == indices@.len() + t2,
            forall|q: int|
                0 <= q < indices@.len() ==> bits_of(r@[q]) == top_bit_row(
                    n as nat,
                    indices@[q] as int,
                ),
            forall|q: int|
                0 <= q < t2 ==> bits_of(r@[indices@.len() + q]) == excl_bits_row(
                    n as nat,
                    indices@[q] as int,
                ),
        decreases indices@.len() - t2,
    {
        let i = indices[t2];
        let mut row = zero_row(8 * n + 1);
        set_bit(&mut row, 8 * i + 5, true);
        set_bit(&mut row, 8 * i + 6, true);
        set_bit(&mut row, 8 * n, true);
        proof {
            assert(bits_of(row) =~= excl_bits_row(n as nat, i as int));
        }
        r.push(row);
        t2 += 1;
    }
    r
}

/// System of equations approximating that each listed byte lies in the
/// alphabetic range 64..96: the printable approximation strengthened by
/// requiring bit six to be one.
pub fn approx_uppercase_alphabetic(n: usize, indices: &[usize]) -> (r: Vec<BitRow>)
    requires
        8 * n + 1 <= usize::MAX,
        forall|q: int| 0 <= q < indices@.len() ==> indices@[q] < n,
    ensures
        r@.len() == 3 * indices@.len(),
        forall|q: int|
            0 <= q < indices@.len() ==> bits_of(r@[q]) == top_bit_row(n as nat, indices@[q] as int),
        forall|q: int|
            0 <= q < indices@.len() ==> bits_of(r@[indices@.len() + q]) == excl_bits_row(
                n as nat,
                indices@[q] as int,
            ),
        forall|q: int|
            0 <= q < indices@.len() ==> bits_of(r@[2 * indices@.len() + q]) == bit6_row(
                n as nat,
                indices@[q] as int,
            ),
{
    let mut r = approx_uppercase_alphanumeric(n, indices);
    let mut t: usize = 0;
    while t < indices.len()
        invariant
            8 * n + 1 <= usize::MAX,
            forall|q: int| 0 <= q < indices@.len() ==> indices@[q] < n,
            t <= indices@.len(),
            r@.len() == 2 * indices@.len() + t,
            forall|q: int|
                0 <= q < indices@.len() ==> bits_of(r@[q]) == top_bit_row(
                    n as nat,
                    indices@[q] as int,
                ),
            forall|q: int|
                0 <= q < indices@.len() ==> bits_of(r@[indices@.len() + q]) == excl_bits_row(
                    n as nat,
                    indices@[q] as int,
                ),
            forall|q: int|
                0 <= q < t ==> bits_of(r@[2 * indices@.len() + q]) == bit6_row(
                    n as nat,
                    indices@[q] as int,
                ),
        decreases indices@.len() - t,
    {
        let i = indices[t];
        let mut row = zero_row(8 * n + 1);
        set_bit(&mut row, 8 * i + 6, true);
        set_bit(&mut row, 8 * n, true);
        proof {
            assert(bits_of(row) =~= bit6_row(n as nat, i as int));
        }
        r.push(row);
        t += 1;
    }
    r
}

/// Linear equations for the byte at `idx` being exactly `value`: eight rows,
/// each pinning one bit of that byte to the matching bit of `value`.
pub fn byte(n: usize, idx: usize, value: u8) -> (r: Vec<BitRow>)
    requires
        8 * n + 1 <= usize::MAX,
        idx < n,
    ensures
        r@.len() == 8,
        forall|b: int| 0 <= b < 8 ==> bits_of(r@[b]) == fixed_bit_row(n as nat, idx as int, value, b),
{
    let mut r: Vec<BitRow> = Vec::new();
    let mut b: usize = 0;
    while b < 8
        invariant
            8 * n + 1 <= usize::MAX,
            idx < n,
            b <= 8,
            r@.len() == b,
            forall|q: int|
                0 <= q < b ==> bits_of(r@[q]) == fixed_bit_row(n as nat, idx as int, value, q),
        decreases 8 - b,
    {
        let mut row = zero_row(8 * n + 1);
        set_bit(&mut row, 8 * idx + b, true);
        if ((value as u32) >> (b as u32)) & 1 == 1 {
            set_bit(&mut row, 8 * n, true);
        }
        proof {
            assert(bits_of(row) =~= fixed_bit_row(n as nat, idx as int, value, b as int));
        }
        r.push(row);
        b += 1;
    }
    r
}

} // verus!
