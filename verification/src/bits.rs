//! Fixed-length bit rows, backed by `bitvec`'s `BitBox`.
//!
//! A row is a boxed sequence of bits; its mathematical content is the
//! sequence of booleans `bits_of(row)`. All access from verified code goes
//! through the small trusted wrappers below, whose contracts state what the
//! corresponding `bitvec` operations do bit for bit.

use vstd::prelude::*;
use bitvec::boxed::BitBox;

verus! {

/// A fixed-length row of bits. Verus sees it only through `bits_of` and
/// the trusted wrappers below; the backing store is bitvec's `BitBox`.
#[verifier::external_body]
pub struct BitRow {
    inner: BitBox,
}

/// The bits a row holds, lowest index first.
pub uninterp spec fn bits_of(b: BitRow) -> Seq<bool>;

/// Relies on bitvec's `BitVec::repeat` and `into_boxed_bitslice`:
/// a freshly allocated row of `len` bits, all zero.
#[verifier::external_body]
pub fn zero_row(len: usize) -> (r: BitRow)
    ensures
        bits_of(r) == Seq::new(len as nat, |i: int| false),
{
    BitRow { inner: bitvec::vec::BitVec::repeat(false, len).into_boxed_bitslice() }
}

/// Relies on bitvec's `Index<usize>` for bit slices: the bit at `i`.
#[verifier::external_body]
pub fn get_bit(b: &BitRow, i: usize) -> (r: bool)
    requires
        i < bits_of(*b).len(),
    ensures
        r == bits_of(*b)[i as int],
{
    b.inner[i]
}

/// Relies on bitvec's `BitSlice::set`: writes one bit, leaving the rest.
#[verifier::external_body]
pub(crate) fn set_bit(b: &mut BitRow, i: usize, v: bool)
    requires
        i < bits_of(*old(b)).len(),
    ensures
        bits_of(*final(b)) == bits_of(*old(b)).update(i as int, v),
{
    b.inner.set(i, v);
}

/// Relies on bitvec's `len`: the number of bits the row holds.
#[verifier::external_body]
pub fn row_len(b: &BitRow) -> (r: usize)
    ensures
        r == bits_of(*b).len(),
{
    b.inner.len()
}

/// Relies on bitvec's `Clone` for `BitBox`: an identical copy.
#[verifier::external_body]
pub(crate) fn clone_row(b: &BitRow) -> (r: BitRow)
    ensures
        bits_of(r) == bits_of(*b),
{
    BitRow { inner: b.inner.clone() }
}

/// Pointwise exclusive or of two rows of equal length.
pub open spec fn seq_xor(a: Seq<bool>, b: Seq<bool>) -> Seq<bool> {
    Seq::new(a.len(), |i: int| a[i] != b[i])
}

/// Relies on bitvec's `BitXorAssign<&BitBox>`: XORs `src` into `dst`,
/// bit by bit over equal lengths.
#[verifier::external_body]
pub(crate) fn xor_row(dst: &mut BitRow, src: &BitRow)
    requires
        bits_of(*old(dst)).len() == bits_of(*src).len(),
    ensures
        bits_of(*final(dst)) == seq_xor(bits_of(*old(dst)), bits_of(*src)),
{
    dst.inner ^= &src.inner;
}

/// Relies on std's `<[T]>::swap`: exchanges the rows at `a` and `b`.
#[verifier::external_body]
pub(crate) fn swap_rows(m: &mut Vec<BitRow>, a: usize, b: usize)
    requires
        a < old(m)@.len(),
        b < old(m)@.len(),
    ensures
        final(m)@ == old(m)@.update(a as int, old(m)@[b as int]).update(
            b as int,
            old(m)@[a as int],
        ),
{
    m.swap(a, b);
}

/// Whether two rows hold the same bits.
pub fn rows_equal(a: &BitRow, b: &BitRow) -> (r: bool)
    ensures
        r == (bits_of(*a) == bits_of(*b)),
{
    let la = row_len(a);
    let lb = row_len(b);
    if la != lb {
        proof {
            assert(bits_of(*a) != bits_of(*b));
        }
        return false;
    }
    let mut i: usize = 0;
    while i < la
        invariant
            la == bits_of(*a).len(),
            la == bits_of(*b).len(),
            i <= la,
            forall|k: int| 0 <= k < i ==> bits_of(*a)[k] == bits_of(*b)[k],
        decreases la - i,
    {
        if get_bit(a, i) != get_bit(b, i) {
            return false;
        }
        i += 1;
    }
    proof {
        assert(bits_of(*a) =~= bits_of(*b));
    }
    true
}

} // verus!
