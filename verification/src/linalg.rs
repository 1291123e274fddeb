//! Gauss-Jordan elimination over GF(2) and extraction of the affine basis
//! of a solved system.
//!
//! A matrix is an ordered sequence of rows of one width `w`; an assignment
//! of the `w - 1` unknowns satisfies it when it satisfies every row. The
//! reducer rewrites the matrix in place by row swaps and row XORs only,
//! which provably keeps the set of satisfying assignments unchanged.

use vstd::prelude::*;
use vstd::arithmetic::div_mod::{
    lemma_fundamental_div_mod,
    lemma_mod_multiples_vanish,
    lemma_small_mod,
};
use crate::constraints::{fixed_bit_row, hash_bit_pos, hash_row, string_bits, u8_bit, u32_bit};
use crate::utils::spec_sta_hash;
use crate::bits::{
    BitRow,
    bits_of,
    seq_xor,
    zero_row,
    get_bit,
    set_bit,
    row_len,
    clone_row,
    xor_row,
    swap_rows,
};

verus! {

/// The mathematical content of a matrix: each row's bits.
pub open spec fn mat_bits(m: Seq<BitRow>) -> Seq<Seq<bool>> {
    m.map_values(|r: BitRow| bits_of(r))
}

/// Every row holds exactly `w` bits.
pub open spec fn uniform_width(m: Seq<BitRow>, w: nat) -> bool {
    forall|k: int| 0 <= k < m.len() ==> #[trigger] bits_of(m[k]).len() == w
}

/// XOR of the first `k` products `row[p] && x[p]`: the partial dot product
/// of a row's coefficients with an assignment, over GF(2).
pub open spec fn dotp(row: Seq<bool>, x: Seq<bool>, k: int) -> bool
    decreases k,
{
    if k <= 0 {
        false
    } else {
        dotp(row, x, k - 1) != (row[k - 1] && x[k - 1])
    }
}

/// An assignment satisfies a row when the XOR of the unknowns selected by
/// its coefficients equals its constant bit.
pub open spec fn row_sat(row: Seq<bool>, x: Seq<bool>) -> bool {
    dotp(row, x, x.len() as int) == row[x.len() as int]
}

/// An assignment satisfies a matrix when it satisfies every row.
pub open spec fn mat_sat(m: Seq<Seq<bool>>, x: Seq<bool>) -> bool {
    forall|k: int| 0 <= k < m.len() ==> #[trigger] row_sat(m[k], x)
}

/// Two matrices of width `w` have exactly the same satisfying assignments.
pub open spec fn same_solutions(a: Seq<Seq<bool>>, b: Seq<Seq<bool>>, w: nat) -> bool {
    forall|x: Seq<bool>| x.len() == w - 1 ==> (mat_sat(a, x) <==> #[trigger] mat_sat(b, x))
}

/// The dot product distributes over the XOR of two rows.
proof fn lemma_dotp_xor(a: Seq<bool>, b: Seq<bool>, x: Seq<bool>, k: int)
    requires
        a.len() == b.len(),
        k <= a.len(),
    ensures
        dotp(seq_xor(a, b), x, k) == (dotp(a, x, k) != dotp(b, x, k)),
    decreases k,
{
    if k > 0 {
        lemma_dotp_xor(a, b, x, k - 1);
    }
}

/// Exchanging two rows keeps the satisfying assignments.
proof fn lemma_swap_same_solutions(m: Seq<Seq<bool>>, a: int, b: int, w: nat)
    requires
        0 <= a < m.len(),
        0 <= b < m.len(),
    ensures
        same_solutions(m, m.update(a, m[b]).update(b, m[a]), w),
{
    let m2 = m.update(a, m[b]).update(b, m[a]);
    assert forall|x: Seq<bool>| x.len() == w - 1 implies (mat_sat(m, x) <==> mat_sat(m2, x)) by {
        if mat_sat(m, x) {
            assert forall|k: int| 0 <= k < m2.len() implies row_sat(m2[k], x) by {
                if k == b {
                    assert(row_sat(m[a], x));
                } else if k == a {
                    assert(row_sat(m[b], x));
                } else {
                    assert(row_sat(m[k], x));
                }
            }
        }
        if mat_sat(m2, x) {
            assert forall|k: int| 0 <= k < m.len() implies row_sat(m[k], x) by {
                if k == b {
                    assert(row_sat(m2[a], x));
                } else if k == a {
                    assert(row_sat(m2[b], x));
                } else {
                    assert(row_sat(m2[k], x));
                }
            }
        }
    }
}

/// Replacing row `t` by its XOR with a distinct row `s` keeps the
/// satisfying assignments.
proof fn lemma_xor_update_same_solutions(m: Seq<Seq<bool>>, t: int, s: int, w: nat)
    requires
        0 <= t < m.len(),
        0 <= s < m.len(),
        t != s,
        m[t].len() == w,
        m[s].len() == w,
        w >= 1,
    ensures
        same_solutions(m, m.update(t, seq_xor(m[t], m[s])), w),
{
    let m2 = m.update(t, seq_xor(m[t], m[s]));
    assert forall|x: Seq<bool>| x.len() == w - 1 implies (mat_sat(m, x) <==> mat_sat(m2, x)) by {
        lemma_dotp_xor(m[t], m[s], x, (w - 1) as int);
        assert(seq_xor(m[t], m[s])[w - 1] == (m[t][w - 1] != m[s][w - 1]));
        if mat_sat(m, x) {
            assert(row_sat(m[t], x));
            assert(row_sat(m[s], x));
            assert forall|k: int| 0 <= k < m2.len() implies row_sat(m2[k], x) by {
                if k != t {
                    assert(row_sat(m[k], x));
                }
            }
        }
        if mat_sat(m2, x) {
            assert(row_sat(m2[t], x));
            assert(row_sat(m2[s], x));
            assert(row_sat(m[s], x));
            assert(row_sat(m[t], x));
            assert forall|k: int| 0 <= k < m.len() implies row_sat(m[k], x) by {
                if k != t {
                    assert(row_sat(m2[k], x));
                }
            }
        }
    }
}

/// Column `col` is clean for the basis walk: if the cursor row pins it as
/// a pivot, no other row holds that column; otherwise no row from the
/// cursor on holds it. This is the shape the reducer's elimination leaves
/// behind, column by column.
pub open spec fn col_clean(m: Seq<Seq<bool>>, col: int) -> bool {
    if !is_free_col(m, col) {
        forall|k: int| 0 <= k < m.len() && k != cursor(m, col) ==> !(#[trigger] m[k])[col]
    } else {
        forall|k: int| cursor(m, col) <= k < m.len() ==> !(#[trigger] m[k])[col]
    }
}

/// A matrix of width `w` is in reduced form when every coefficient column
/// is clean. Reducing such a matrix again changes nothing.
pub open spec fn reduced_form(m: Seq<Seq<bool>>, w: int) -> bool {
    forall|col: int| 0 <= col < w - 1 ==> #[trigger] col_clean(m, col)
}


/// The walk's cursor stays within the rows.
proof fn lemma_cursor_bounds(m: Seq<Seq<bool>>, a: int)
    ensures
        0 <= cursor(m, a) <= m.len(),
    decreases a,
{
    if a > 0 {
        lemma_cursor_bounds(m, a - 1);
    }
}

/// The walk's cursor never moves backwards along the columns.
proof fn lemma_cursor_monotone(m: Seq<Seq<bool>>, a: int, b: int)
    requires
        0 <= a <= b,
    ensures
        cursor(m, a) <= cursor(m, b),
    decreases b - a,
{
    if b > a {
        lemma_cursor_monotone(m, a, b - 1);
    }
}

/// Below the row the cursor has reached, a clean prefix of columns holds
/// no bits at all.
proof fn lemma_clean_zeros(m: Seq<Seq<bool>>, col: int, j: int)
    requires
        0 <= col,
        forall|c: int| 0 <= c < col ==> #[trigger] col_clean(m, c),
        cursor(m, col) <= j,
    ensures
        forall|k: int, c: int| j <= k < m.len() && 0 <= c < col ==> !(#[trigger] m[k][c]),
{
    assert forall|k: int, c: int| j <= k < m.len() && 0 <= c < col implies !(m[k])[c] by {
        lemma_cursor_monotone(m, c + 1, col);
        lemma_cursor_bounds(m, c);
        assert(col_clean(m, c));
        if !is_free_col(m, c) {
            assert(cursor(m, c + 1) == cursor(m, c) + 1);
            assert(k != cursor(m, c));
        } else {
            assert(cursor(m, c + 1) == cursor(m, c));
            assert(k >= cursor(m, c));
        }
    }
}

/// Two matrices that agree on the rows above `j` in the columns before
/// `col`, and hold only zeros from row `j` on there, walk the same cursor
/// and keep the same clean columns.
proof fn lemma_walk_preserved(m1: Seq<Seq<bool>>, m2: Seq<Seq<bool>>, j: int, col: int)
    requires
        m1.len() == m2.len(),
        0 <= j <= m1.len(),
        0 <= col,
        forall|k: int, c: int|
            0 <= k < j && 0 <= c < col ==> #[trigger] m1[k][c] == #[trigger] m2[k][c],
        forall|k: int, c: int| j <= k < m1.len() && 0 <= c < col ==> !(#[trigger] m1[k][c]),
        forall|k: int, c: int| j <= k < m1.len() && 0 <= c < col ==> !(#[trigger] m2[k][c]),
        forall|c: int| 0 <= c < col ==> #[trigger] col_clean(m1, c),
        forall|c: int| 0 <= c <= col ==> #[trigger] cursor(m1, c) <= j,
    ensures
        forall|c: int| 0 <= c <= col ==> #[trigger] cursor(m2, c) == cursor(m1, c),
        forall|c: int| 0 <= c < col ==> #[trigger] col_clean(m2, c),
    decreases col,
{
    if col > 0 {
        lemma_walk_preserved(m1, m2, j, col - 1);
        let c1 = cursor(m1, col - 1);
        lemma_cursor_bounds(m1, col - 1);
        assert(cursor(m2, col - 1) == c1);
        if c1 < m1.len() {
            assert(m1[c1][col - 1] == m2[c1][col - 1]);
        }
        assert(cursor(m2, col) == cursor(m1, col));
        assert(col_clean(m1, col - 1));
        if !is_free_col(m1, col - 1) {
            assert(m1[c1][col - 1]);
            assert(c1 < j);
            assert(!is_free_col(m2, col - 1));
            assert forall|k: int| 0 <= k < m2.len() && k != cursor(m2, col - 1) implies !(
            m2[k])[col - 1] by {
                assert(!m1[k][col - 1]);
            }
        } else {
            assert(is_free_col(m2, col - 1));
            assert forall|k: int| cursor(m2, col - 1) <= k < m2.len() implies !(m2[k])[col
                - 1] by {
                assert(!m1[k][col - 1]);
            }
        }
        assert(col_clean(m2, col - 1));
        assert forall|c: int| 0 <= c <= col implies #[trigger] cursor(m2, c) == cursor(m1, c) by {}
        assert forall|c: int| 0 <= c < col implies #[trigger] col_clean(m2, c) by {}
    }
}

/// Once the cursor has consumed every row, every later column is clean.
proof fn lemma_saturated_clean(m: Seq<Seq<bool>>, col: int, col2: int)
    requires
        0 <= col <= col2,
        cursor(m, col) == m.len(),
    ensures
        cursor(m, col2) == m.len(),
        forall|c: int| col <= c < col2 ==> #[trigger] col_clean(m, c),
    decreases col2 - col,
{
    if col2 > col {
        assert(cursor(m, col + 1) == m.len());
        assert(is_free_col(m, col));
        assert(col_clean(m, col));
        lemma_saturated_clean(m, col + 1, col2);
    }
}

/// Compute the reduced row echelon form of an augmented binary matrix in
/// place, by row swaps and row XORs only. The set of satisfying assignments
/// is unchanged, every row keeps its width, and the result is in reduced
/// form; a matrix already in reduced form comes back exactly as it was, so
/// reduction is idempotent.
pub fn z2_rref(mat: &mut Vec<BitRow>)
    requires
        old(mat)@.len() > 0 ==> uniform_width(old(mat)@, bits_of(old(mat)@[0]).len()) && bits_of(
            old(mat)@[0],
        ).len() >= 1,
    ensures
        final(mat)@.len() == old(mat)@.len(),
        old(mat)@.len() > 0 ==> uniform_width(final(mat)@, bits_of(old(mat)@[0]).len()),
        old(mat)@.len() > 0 ==> same_solutions(
            mat_bits(old(mat)@),
            mat_bits(final(mat)@),
            bits_of(old(mat)@[0]).len(),
        ),
        old(mat)@.len() > 0 && reduced_form(
            mat_bits(old(mat)@),
            bits_of(old(mat)@[0]).len() as int,
        ) ==> final(mat)@ == old(mat)@,
        old(mat)@.len() > 0 ==> reduced_form(
            mat_bits(final(mat)@),
            bits_of(old(mat)@[0]).len() as int,
        ),
{
    let rows = mat.len();
    if rows == 0 {
        return ;
    }
    let w = row_len(&mat[0]);
    let ghost w0 = w as nat;
    let ghost m0 = mat_bits(old(mat)@);
    let ghost red = reduced_form(m0, w as int);
    let mut i: usize = 0;
    let mut j: usize = 0;
    while i < w - 1 && j < rows
        invariant
            rows == mat@.len(),
            rows == old(mat)@.len(),
            rows > 0,
            w == w0,
            w0 == bits_of(old(mat)@[0]).len(),
            w >= 1,
            uniform_width(mat@, w0),
            j <= rows,
            same_solutions(mat_bits(old(mat)@), mat_bits(mat@), w0),
            m0 == mat_bits(old(mat)@),
            red == reduced_form(m0, w as int),
            red ==> mat@ == old(mat)@,
            red ==> (j == cursor(m0, i as int) || (j > 0 && j == cursor(m0, i as int) + 1
                && !is_free_col(m0, i as int))),
            i <= w - 1,
            forall|c: int| 0 <= c < i ==> #[trigger] col_clean(mat_bits(mat@), c),
            (j == cursor(mat_bits(mat@), i as int)) || (j > 0 && j == cursor(
                mat_bits(mat@),
                i as int,
            ) + 1 && !is_free_col(mat_bits(mat@), i as int) && col_clean(mat_bits(mat@), i as int)),
        decreases (w - 1 - i) + (rows - j),
    {
        let mut p: usize = j;
        let mut found: bool = false;
        let mut k: usize = j;
        while k < rows && !found
            invariant
                j <= k <= rows,
                rows == mat@.len(),
                uniform_width(mat@, w0),
                i < w - 1,
                w0 == w,
                found ==> j <= p < rows,
                forall|q: int| j <= q < k ==> !(#[trigger] bits_of(mat@[q]))[i as int],
                found ==> p == k && bits_of(mat@[p as int])[i as int],
            decreases (rows - k) + (if found {
                0int
            } else {
                1int
            }),
        {
            if get_bit(&mat[k], i) {
                p = k;
                found = true;
            } else {
                k += 1;
            }
        }
        if found {
            proof {
                if red {
                    assert(bits_of(mat@[p as int])[i as int]);
                    assert(mat_bits(mat@) == m0);
                    assert(m0[p as int] == bits_of(mat@[p as int]));
                    assert(col_clean(m0, i as int));
                    if j == cursor(m0, i as int) + 1 && !is_free_col(m0, i as int) {
                        assert(m0[p as int][i as int] && p != cursor(m0, i as int));
                        assert(false);
                    }
                    assert(j == cursor(m0, i as int));
                    if is_free_col(m0, i as int) {
                        assert(m0[p as int][i as int] && p >= cursor(m0, i as int));
                        assert(false);
                    }
                    assert(p == j) by {
                        if p != j {
                            assert(m0[p as int][i as int] && p != cursor(m0, i as int));
                        }
                    }
                }
                let mcur = mat_bits(mat@);
                assert(mcur[p as int] == bits_of(mat@[p as int]));
                if j == cursor(mcur, i as int) + 1 && !is_free_col(mcur, i as int) && col_clean(
                    mcur,
                    i as int,
                ) {
                    assert(mcur[p as int][i as int]);
                    assert(p != cursor(mcur, i as int));
                    assert(false);
                }
                assert(j == cursor(mcur, i as int));
            }
            let ghost pre_swap = mat@;
            swap_rows(mat, j, p);
            proof {
                lemma_swap_same_solutions(mat_bits(pre_swap), j as int, p as int, w0);
                assert(mat_bits(mat@) =~= mat_bits(pre_swap).update(
                    j as int,
                    mat_bits(pre_swap)[p as int],
                ).update(p as int, mat_bits(pre_swap)[j as int]));
                if red {
                    assert(mat@ =~= old(mat)@);
                }
                let m1 = mat_bits(pre_swap);
                let m2 = mat_bits(mat@);
                lemma_cursor_bounds(m1, i as int);
                assert forall|c: int| 0 <= c <= i as int implies #[trigger] cursor(m1, c)
                    <= j as int by {
                    lemma_cursor_monotone(m1, c, i as int);
                }
                lemma_clean_zeros(m1, i as int, j as int);
                assert forall|k: int, c: int|
                    0 <= k < j as int && 0 <= c < i as int implies #[trigger] m1[k][c]
                    == #[trigger] m2[k][c] by {
                    assert(m2[k] == m1[k]);
                }
                assert forall|k: int, c: int|
                    j as int <= k < m2.len() && 0 <= c < i as int implies !(#[trigger] m2[k][c]) by {
                    if k == j as int {
                        assert(m2[k] == m1[p as int]);
                    } else if k == p as int {
                        assert(m2[k] == m1[j as int]);
                    } else {
                        assert(m2[k] == m1[k]);
                    }
                }
                lemma_walk_preserved(m1, m2, j as int, i as int);
                assert(cursor(m2, i as int) == j);
                assert(m2[j as int] == m1[p as int]);
                assert(bits_of(mat@[j as int])[i as int]);
            }
            let piv = clone_row(&mat[j]);
            let mut k2: usize = 0;
            while k2 < rows
                invariant
                    rows == mat@.len(),
                    rows == old(mat)@.len(),
                    uniform_width(mat@, w0),
                    j < rows,
                    w >= 1,
                    w0 == w,
                    i < w - 1,
                    bits_of(mat@[j as int]) == bits_of(piv),
                    bits_of(piv).len() == w0,
                    same_solutions(mat_bits(old(mat)@), mat_bits(mat@), w0),
                    k2 <= rows,
                    m0 == mat_bits(old(mat)@),
                    red == reduced_form(m0, w as int),
                    red ==> mat@ == old(mat)@,
                    red ==> (j == cursor(m0, i as int) && !is_free_col(m0, i as int)),
                    forall|c: int| 0 <= c < i ==> #[trigger] col_clean(mat_bits(mat@), c),
                    cursor(mat_bits(mat@), i as int) == j,
                    bits_of(piv)[i as int],
                    forall|q: int|
                        0 <= q < k2 && q != j ==> !(#[trigger] bits_of(mat@[q]))[i as int],
                decreases rows - k2,
            {
                if k2 != j {
                    if get_bit(&mat[k2], i) {
                        proof {
                            if red {
                                assert(bits_of(mat@[k2 as int])[i as int]);
                                assert(mat_bits(mat@) == m0);
                                assert(m0[k2 as int] == bits_of(mat@[k2 as int]));
                                assert(col_clean(m0, i as int));
                                assert(m0[k2 as int][i as int] && k2 != cursor(m0, i as int));
                                assert(false);
                            }
                        }
                        let ghost pre = mat@;
                        let mut row = clone_row(&mat[k2]);
                        xor_row(&mut row, &piv);
                        mat[k2] = row;
                        proof {
                            lemma_xor_update_same_solutions(mat_bits(pre), k2 as int, j as int, w0);
                            assert(mat_bits(mat@) =~= mat_bits(pre).update(
                                k2 as int,
                                seq_xor(mat_bits(pre)[k2 as int], mat_bits(pre)[j as int]),
                            ));
                            let m1 = mat_bits(pre);
                            let m2 = mat_bits(mat@);
                            lemma_cursor_bounds(m1, i as int);
                            assert forall|c: int| 0 <= c <= i as int implies #[trigger] cursor(
                                m1,
                                c,
                            ) <= j as int by {
                                lemma_cursor_monotone(m1, c, i as int);
                            }
                            lemma_clean_zeros(m1, i as int, j as int);
                            assert forall|k: int, c: int|
                                0 <= k < j as int && 0 <= c < i as int implies #[trigger] m1[k][c]
                                == #[trigger] m2[k][c] by {
                                if k == k2 as int {
                                    assert(!m1[j as int][c]);
                                    assert(m2[k][c] == (m1[k2 as int][c] != m1[j as int][c]));
                                } else {
                                    assert(m2[k] == m1[k]);
                                }
                            }
                            assert forall|k: int, c: int|
                                j as int <= k < m2.len() && 0 <= c < i as int implies !(
                            #[trigger] m2[k][c]) by {
                                if k == k2 as int {
                                    assert(!m1[k2 as int][c] && !m1[j as int][c]);
                                    assert(m2[k][c] == (m1[k2 as int][c] != m1[j as int][c]));
                                } else {
                                    assert(m2[k] == m1[k]);
                                }
                            }
                            lemma_walk_preserved(m1, m2, j as int, i as int);
                            assert(m1[j as int] == bits_of(piv));
                            assert(m2[k2 as int][i as int] == (m1[k2 as int][i as int]
                                != m1[j as int][i as int]));
                            assert(!bits_of(mat@[k2 as int])[i as int]);
                        }
                    }
                }
                k2 += 1;
            }
            proof {
                let curm = mat_bits(mat@);
                assert(curm[j as int] == bits_of(mat@[j as int]));
                assert(curm[j as int][i as int]);
                assert(!is_free_col(curm, i as int));
                assert forall|q: int|
                    0 <= q < curm.len() && q != cursor(curm, i as int) implies !curm[q][i as int] by {
                    assert(!bits_of(mat@[q])[i as int]);
                }
                assert(col_clean(curm, i as int));
            }
            j += 1;
        } else {
            proof {
                if red {
                    assert(mat_bits(mat@) == m0);
                    assert(col_clean(m0, i as int));
                    if j == cursor(m0, i as int) && !is_free_col(m0, i as int) {
                        let c = cursor(m0, i as int);
                        assert(m0[c][i as int]);
                        assert(m0[c] == bits_of(mat@[c]));
                        assert(bits_of(mat@[c])[i as int]);
                        assert(false);
                    }
                    assert(cursor(m0, i + 1) == cursor(m0, i as int) + (
                    if !is_free_col(m0, i as int) {
                        1int
                    } else {
                        0int
                    }));
                }
                let curm = mat_bits(mat@);
                if j == cursor(curm, i as int) {
                    lemma_cursor_bounds(curm, i as int);
                    assert(!bits_of(mat@[j as int])[i as int]);
                    assert(curm[j as int] == bits_of(mat@[j as int]));
                    assert(is_free_col(curm, i as int));
                    assert forall|q: int|
                        cursor(curm, i as int) <= q < curm.len() implies !curm[q][i as int] by {
                        assert(!bits_of(mat@[q])[i as int]);
                    }
                    assert(col_clean(curm, i as int));
                    assert(cursor(curm, i + 1) == cursor(curm, i as int));
                } else {
                    assert(col_clean(curm, i as int));
                    assert(cursor(curm, i + 1) == cursor(curm, i as int) + 1);
                    assert(cursor(curm, i + 1) == j);
                }
                assert forall|c: int| 0 <= c < i + 1 implies #[trigger] col_clean(
                    mat_bits(mat@),
                    c,
                ) by {}
            }
            i += 1;
        }
    }
    proof {
        let curm = mat_bits(mat@);
        assert(curm.len() == rows);
        if i < w - 1 {
            if j == cursor(curm, i as int) {
                lemma_saturated_clean(curm, i as int, w as int - 1);
            } else {
                assert(col_clean(curm, i as int));
                assert(cursor(curm, i + 1) == cursor(curm, i as int) + 1);
                lemma_saturated_clean(curm, i + 1, w as int - 1);
            }
        }
        assert forall|c: int| 0 <= c < w as int - 1 implies #[trigger] col_clean(curm, c) by {}
        assert(reduced_form(curm, w as int));
    }
}


/// A dot product with at most one position where row and assignment are
/// both set reduces to that position's product.
proof fn lemma_dotp_single(row: Seq<bool>, x: Seq<bool>, k: int, p: int)
    requires
        forall|c: int| 0 <= c < k && c != p ==> !((#[trigger] row[c]) && x[c]),
    ensures
        dotp(row, x, k) == (0 <= p < k && row[p] && x[p]),
    decreases k,
{
    if k > 0 {
        lemma_dotp_single(row, x, k - 1, p);
    }
}

/// Every row the cursor has passed was consumed as the pivot of exactly
/// one column.
proof fn lemma_cursor_hits(m: Seq<Seq<bool>>, col: int, k: int)
    requires
        0 <= col,
        0 <= k < cursor(m, col),
    ensures
        exists|c: int|
            0 <= c < col && #[trigger] cursor(m, c) == k && !is_free_col(m, c) && cursor(m, c + 1)
                == k + 1,
    decreases col,
{
    if col > 0 {
        if cursor(m, col - 1) <= k {
            assert(cursor(m, col - 1) == k && cursor(m, col) == k + 1 && !is_free_col(
                m,
                col - 1,
            ));
        } else {
            lemma_cursor_hits(m, col - 1, k);
        }
    }
}

/// The assignment that sets every free variable to zero and reads each
/// pivot column's value off that pivot row's constant.
spec fn particular_solution(m: Seq<Seq<bool>>, w: int) -> Seq<bool> {
    Seq::new(
        (w - 1) as nat,
        |c: int|
            if !is_free_col(m, c) {
                m[cursor(m, c)][w - 1]
            } else {
                false
            },
    )
}

/// For a reduced matrix, the absence of a contradiction row is exactly
/// solvability: some assignment satisfies the system if and only if no row
/// beyond the last pivot demands that zero equal one.
pub proof fn lemma_reduced_consistent_iff_solvable(m: Seq<Seq<bool>>, w: int)
    requires
        w >= 1,
        m.len() > 0,
        forall|k: int| 0 <= k < m.len() ==> #[trigger] m[k].len() == w,
        reduced_form(m, w),
    ensures
        (exists|x: Seq<bool>| x.len() == w - 1 && mat_sat(m, x)) <==> !has_contradiction(m, w),
{
    let cw = cursor(m, w - 1);
    lemma_cursor_bounds(m, w - 1);
    if has_contradiction(m, w) {
        let k = choose|k: int| cw <= k < m.len() && #[trigger] m[k][w - 1];
        assert forall|x: Seq<bool>| x.len() == w - 1 implies !mat_sat(m, x) by {
            assert forall|c: int| 0 <= c < w - 1 && c != w implies !((m[k])[c] && x[c]) by {
                lemma_cursor_monotone(m, c + 1, w - 1);
                lemma_cursor_bounds(m, c);
                assert(col_clean(m, c));
                if !is_free_col(m, c) {
                    assert(cursor(m, c + 1) == cursor(m, c) + 1);
                    assert(k != cursor(m, c));
                } else {
                    assert(cursor(m, c + 1) == cursor(m, c));
                    assert(k >= cursor(m, c));
                }
            }
            lemma_dotp_single(m[k], x, w - 1, w);
            assert(!row_sat(m[k], x));
        }
    } else {
        let x = particular_solution(m, w);
        assert forall|k: int| 0 <= k < m.len() implies row_sat(m[k], x) by {
            if k < cw {
                lemma_cursor_hits(m, w - 1, k);
                let c = choose|c: int|
                    0 <= c < w - 1 && #[trigger] cursor(m, c) == k && !is_free_col(m, c) && cursor(
                        m,
                        c + 1,
                    ) == k + 1;
                assert(m[k][c]);
                assert(x[c] == m[k][w - 1]);
                assert forall|c2: int| 0 <= c2 < w - 1 && c2 != c implies !((m[k])[c2]
                    && x[c2]) by {
                    lemma_cursor_bounds(m, c2);
                    assert(col_clean(m, c2));
                    if !is_free_col(m, c2) {
                        if cursor(m, c2) != k {
                            assert(!m[k][c2]);
                        } else {
                            if c2 < c {
                                lemma_cursor_monotone(m, c2 + 1, c);
                            } else {
                                lemma_cursor_monotone(m, c + 1, c2);
                            }
                            assert(false);
                        }
                    } else {
                        assert(!x[c2]);
                    }
                }
                lemma_dotp_single(m[k], x, w - 1, c);
                assert(dotp(m[k], x, w - 1) == m[k][w - 1]);
            } else {
                assert forall|c: int| 0 <= c < w - 1 && c != w implies !((m[k])[c] && x[c]) by {
                    lemma_cursor_monotone(m, c + 1, w - 1);
                    lemma_cursor_bounds(m, c);
                    assert(col_clean(m, c));
                    if !is_free_col(m, c) {
                        assert(cursor(m, c + 1) == cursor(m, c) + 1);
                        assert(k != cursor(m, c));
                    } else {
                        assert(cursor(m, c + 1) == cursor(m, c));
                        assert(k >= cursor(m, c));
                    }
                }
                lemma_dotp_single(m[k], x, w - 1, w);
                assert(!m[k][w - 1]);
                assert(row_sat(m[k], x));
            }
        }
        assert(x.len() == w - 1 && mat_sat(m, x));
    }
}


/// One bit of one byte pinned to two different values admits no
/// assignment, so any reduced matrix with the same solutions must show a
/// contradiction row and extraction reports the system unsatisfiable.
pub proof fn lemma_conflicting_fixed_bit_unsatisfiable(
    m: Seq<Seq<bool>>,
    m2: Seq<Seq<bool>>,
    n: nat,
    a: int,
    b: int,
    idx: int,
    bit: int,
    v1: u8,
    v2: u8,
)
    requires
        0 <= a < m.len(),
        0 <= b < m.len(),
        m[a] == fixed_bit_row(n, idx, v1, bit),
        m[b] == fixed_bit_row(n, idx, v2, bit),
        0 <= idx < n,
        0 <= bit < 8,
        u8_bit(v1, bit) != u8_bit(v2, bit),
        same_solutions(m, m2, (8 * n + 1) as nat),
        reduced_form(m2, 8 * (n as int) + 1),
        m2.len() > 0,
        forall|k: int| 0 <= k < m2.len() ==> #[trigger] m2[k].len() == 8 * n + 1,
    ensures
        has_contradiction(m2, 8 * (n as int) + 1),
{
    let w = 8 * (n as int) + 1;
    let p = 8 * idx + bit;
    assert forall|x: Seq<bool>| x.len() == w - 1 implies !mat_sat(m, x) by {
        if mat_sat(m, x) {
            assert(row_sat(m[a], x));
            assert(row_sat(m[b], x));
            assert forall|c: int| 0 <= c < w - 1 && c != p implies !((m[a])[c] && x[c]) by {
                assert(!fixed_bit_row(n, idx, v1, bit)[c]);
            }
            assert forall|c: int| 0 <= c < w - 1 && c != p implies !((m[b])[c] && x[c]) by {
                assert(!fixed_bit_row(n, idx, v2, bit)[c]);
            }
            lemma_dotp_single(m[a], x, w - 1, p);
            lemma_dotp_single(m[b], x, w - 1, p);
            assert(m[a][p] && m[b][p]);
            assert(m[a][w - 1] == u8_bit(v1, bit));
            assert(m[b][w - 1] == u8_bit(v2, bit));
            assert(x[p] == u8_bit(v1, bit));
            assert(x[p] == u8_bit(v2, bit));
            assert(false);
        }
    }
    if !has_contradiction(m2, w) {
        lemma_reduced_consistent_iff_solvable(m2, w);
        let x = choose|x: Seq<bool>| x.len() == w - 1 && mat_sat(m2, x);
        assert(mat_sat(m, x));
        assert(false);
    }
}


/// Two rows and assignments that agree below `k` have the same partial dot
/// product there.
proof fn lemma_dotp_congruent(r1: Seq<bool>, x1: Seq<bool>, r2: Seq<bool>, x2: Seq<bool>, k: int)
    requires
        forall|c: int| 0 <= c < k ==> (#[trigger] r1[c]) == r2[c],
        forall|c: int| 0 <= c < k ==> (#[trigger] x1[c]) == x2[c],
    ensures
        dotp(r1, x1, k) == dotp(r2, x2, k),
    decreases k,
{
    if k > 0 {
        lemma_dotp_congruent(r1, x1, r2, x2, k - 1);
    }
}

/// Extending a dot product over a stretch with at most one shared position
/// adds that one product.
proof fn lemma_dotp_tail_single(row: Seq<bool>, x: Seq<bool>, a: int, k: int, p: int)
    requires
        0 <= a <= k,
        forall|c: int| a <= c < k && c != p ==> !((#[trigger] row[c]) && x[c]),
    ensures
        dotp(row, x, k) == (dotp(row, x, a) != (a <= p < k && row[p] && x[p])),
    decreases k,
{
    if k > a {
        lemma_dotp_tail_single(row, x, a, k - 1, p);
    }
}

/// Dropping the last byte shifts every earlier byte's landing position by
/// six hash bits, rotating within the thirty-two.
proof fn lemma_hash_pos_shift(n: nat, i: int, j: int, k: int, kp: int)
    requires
        n >= 1,
        0 <= i < n - 1,
        0 <= j < 8,
        0 <= k < 32,
        kp == (if k >= 6 {
            k - 6
        } else {
            k + 26
        }),
    ensures
        (hash_bit_pos(n, i, j) == k) == (hash_bit_pos((n - 1) as nat, i, j) == kp),
{
    let t = 6 * (n - 2 - i) + j;
    assert(6 * (n - 1 - i) + j == t + 6);
    lemma_fundamental_div_mod(t, 32);
    let v = t % 32;
    assert(0 <= v < 32);
    lemma_mod_multiples_vanish(t / 32, v + 6, 32);
    assert((t + 6) % 32 == (v + 6) % 32);
    if v + 6 < 32 {
        lemma_small_mod((v + 6) as nat, 32);
        assert((t + 6) % 32 == v + 6);
    } else {
        lemma_mod_multiples_vanish(1, v - 26, 32);
        lemma_small_mod((v - 26) as nat, 32);
        assert((t + 6) % 32 == v - 26);
    }
    assert(hash_bit_pos((n - 1) as nat, i, j) == v);
}

/// The checksum system is a faithful linear model of the rolling checksum:
/// the bits of any byte string satisfy every row generated for that
/// string's own checksum.
pub proof fn lemma_hash_rows_model(s: Seq<u8>, k: int)
    requires
        0 <= k < 32,
    ensures
        row_sat(hash_row(s.len(), spec_sta_hash(s), k), string_bits(s)),
    decreases s.len(),
{
    let n = s.len() as int;
    let x = string_bits(s);
    let h = spec_sta_hash(s);
    let row = hash_row(s.len(), h, k);
    let kk = k as u32;
    if n == 0 {
        assert((0u32 >> kk) & 1 == 0) by (bit_vector);
        assert(!row[0]);
        assert(dotp(row, x, 0) == false);
    } else {
        let s0 = s.drop_last();
        let h0 = spec_sta_hash(s0);
        let c = s.last();
        let kp = if k >= 6 {
            k - 6
        } else {
            k + 26
        };
        lemma_hash_rows_model(s0, kp);
        let row0 = hash_row(s0.len(), h0, kp);
        let x0 = string_bits(s0);
        assert forall|p: int| 0 <= p < 8 * (n - 1) implies (#[trigger] row[p]) == row0[p] by {
            assert(0 <= p / 8 < n - 1 && p % 8 == p - 8 * (p / 8) && 0 <= p % 8 < 8);
            lemma_hash_pos_shift(s.len(), p / 8, p % 8, k, kp);
        }
        assert forall|p: int| 0 <= p < 8 * (n - 1) implies (#[trigger] x[p]) == x0[p] by {
            assert(0 <= p / 8 < n - 1 && 0 <= p % 8 < 8);
            assert(s[p / 8] == s0[p / 8]);
        }
        lemma_dotp_congruent(row, x, row0, x0, 8 * (n - 1));
        assert(row_sat(row0, x0));
        assert(x0.len() == 8 * (n - 1));
        assert(dotp(row, x, 8 * (n - 1)) == u32_bit(h0, kp));
        let pt = 8 * (n - 1) + k;
        assert forall|q: int| 8 * (n - 1) <= q < 8 * n && q != pt implies !((#[trigger] row[q])
            && x[q]) by {
            let j = q - 8 * (n - 1);
            assert(q / 8 == n - 1 && q % 8 == j);
            lemma_small_mod(j as nat, 32);
            assert(hash_bit_pos(s.len(), n - 1, j) == j);
        }
        lemma_dotp_tail_single(row, x, 8 * (n - 1), 8 * n, pt);
        if k < 8 {
            assert(pt / 8 == n - 1 && pt % 8 == k);
            lemma_small_mod(k as nat, 32);
            assert(hash_bit_pos(s.len(), n - 1, k) == k);
            assert(row[pt]);
            assert(x[pt] == u8_bit(c, k));
        }
        let hh = h0;
        let cc = c as u32;
        let kpu = kp as u32;
        assert(h == ((hh << 6u32) | (hh >> 26u32)) ^ cc);
        assert(((((((hh << 6u32) | (hh >> 26u32)) ^ cc) >> kk) & 1) == 1) == ((((hh >> kpu) & 1)
            == 1) != (((cc >> kk) & 1) == 1))) by (bit_vector)
            requires
                kk < 32,
                kpu == (if kk >= 6 {
                    (kk - 6) as u32
                } else {
                    (kk + 26) as u32
                }),
        ;
        assert(u32_bit(h, k) == (u32_bit(h0, kp) != (((cc >> kk) & 1) == 1)));
        if k >= 8 {
            assert((cc >> kk) & 1 == 0) by (bit_vector)
                requires
                    cc < 256,
                    8 <= kk < 32,
            ;
        }
        assert((((cc >> kk) & 1) == 1) == (k < 8 && u8_bit(c, k)));
        assert(u32_bit(h, k) == (u32_bit(h0, kp) != (k < 8 && u8_bit(c, k))));
        assert(row_sat(row, x));
    }
}


/// A checksum system built from a string's own checksum keeps that string
/// among its solutions through reduction, and can never reduce to a
/// contradiction: extraction always finds a basis for it.
pub proof fn lemma_hash_system_satisfiable(s: Seq<u8>, m: Seq<Seq<bool>>, m2: Seq<Seq<bool>>)
    requires
        m.len() == 32,
        forall|k: int| 0 <= k < 32 ==> m[k] == hash_row(s.len(), spec_sta_hash(s), k),
        same_solutions(m, m2, (8 * s.len() + 1) as nat),
        reduced_form(m2, 8 * (s.len() as int) + 1),
        m2.len() > 0,
        forall|k: int| 0 <= k < m2.len() ==> #[trigger] m2[k].len() == 8 * s.len() + 1,
    ensures
        mat_sat(m2, string_bits(s)),
        !has_contradiction(m2, 8 * (s.len() as int) + 1),
{
    let w = 8 * (s.len() as int) + 1;
    let x = string_bits(s);
    assert(x.len() == w - 1);
    assert forall|k: int| 0 <= k < m.len() implies row_sat(#[trigger] m[k], x) by {
        lemma_hash_rows_model(s, k);
    }
    assert(mat_sat(m, x));
    assert(mat_sat(m2, x));
    if has_contradiction(m2, w) {
        lemma_reduced_consistent_iff_solvable(m2, w);
        assert(false);
    }
}


/// Walking further along the columns only appends to the free-column list.
proof fn lemma_free_cols_prefix(m: Seq<Seq<bool>>, c: int, cw: int)
    requires
        0 <= c <= cw,
    ensures
        free_cols(m, c).len() <= free_cols(m, cw).len(),
        forall|g: int|
            0 <= g < free_cols(m, c).len() ==> #[trigger] free_cols(m, cw)[g] == free_cols(m, c)[g],
    decreases cw - c,
{
    if cw > c {
        lemma_free_cols_prefix(m, c, cw - 1);
    }
}

/// No two distinct columns share a pivot row.
proof fn lemma_pivot_col_unique(m: Seq<Seq<bool>>, c1: int, c2: int)
    requires
        0 <= c1 < c2,
        !is_free_col(m, c1),
        !is_free_col(m, c2),
    ensures
        cursor(m, c1) != cursor(m, c2),
{
    lemma_cursor_monotone(m, c1 + 1, c2);
}

/// A free column's basis expression is the identity of its free index.
proof fn lemma_free_col_ident(m: Seq<Seq<bool>>, w: int, c: int, g: int)
    requires
        w >= 1,
        0 <= c < w - 1,
        is_free_col(m, c),
        0 <= g < free_cols(m, w - 1).len(),
        free_cols(m, w - 1)[g] == c,
    ensures
        basis_vec(m, w, c) == ident_vec(free_cols(m, w - 1).len() as int, g),
{
    let fv = free_cols(m, w - 1);
    lemma_free_cols_shape(m, w - 1);
    assert forall|f: int| 0 <= f < fv.len() implies (fv[f] == c) == (f == g) by {
        if f < g {
            assert(fv[f] < fv[g]);
        } else if f > g {
            assert(fv[g] < fv[f]);
        }
    }
    assert(basis_vec(m, w, c) =~= ident_vec(fv.len() as int, g));
}

/// Restricted to a pivot row, the dot product over the columns folds into
/// the masked parity over the free indices, plus the pivot position itself,
/// for any assignment whose free bits match the encoded integer.
proof fn lemma_dotp_reindex(
    m: Seq<Seq<bool>>,
    w: int,
    y: Seq<bool>,
    x: u64,
    r: int,
    j: int,
    c: int,
)
    requires
        w >= 1,
        m.len() > 0,
        forall|k: int| 0 <= k < m.len() ==> #[trigger] m[k].len() == w,
        reduced_form(m, w),
        y.len() == w - 1,
        forall|g: int|
            0 <= g < free_cols(m, w - 1).len() ==> y[#[trigger] free_cols(m, w - 1)[g]] == x_bit(
                x,
                g,
            ),
        0 <= j < w - 1,
        !is_free_col(m, j),
        cursor(m, j) == r,
        0 <= c <= w - 1,
    ensures
        dotp(m[r], y, c) == ((j < c && y[j]) != masked_parity(
            basis_vec(m, w, j),
            x,
            free_cols(m, c).len() as int,
        )),
    decreases c,
{
    lemma_cursor_bounds(m, j);
    let fv = free_cols(m, w - 1);
    let mask = basis_vec(m, w, j);
    if c > 0 {
        lemma_dotp_reindex(m, w, y, x, r, j, c - 1);
        lemma_free_cols_prefix(m, c - 1, c);
        lemma_free_cols_prefix(m, c, w - 1);
        lemma_free_cols_shape(m, w - 1);
        if is_free_col(m, c - 1) {
            let g = free_cols(m, c - 1).len() as int;
            assert(free_cols(m, c) == free_cols(m, c - 1).push(c - 1));
            assert(free_cols(m, c)[g] == c - 1);
            assert(fv[g] == c - 1);
            assert(y[c - 1] == x_bit(x, g));
            assert(mask[g] == m[r][fv[g]]);
            assert(masked_parity(mask, x, g + 1) == (masked_parity(mask, x, g) != (mask[g]
                && x_bit(x, g))));
            assert(c - 1 != j);
        } else {
            assert(free_cols(m, c) == free_cols(m, c - 1));
            if c - 1 != j {
                lemma_cursor_bounds(m, c - 1);
                if c - 1 < j {
                    lemma_pivot_col_unique(m, c - 1, j);
                } else {
                    lemma_pivot_col_unique(m, j, c - 1);
                }
                assert(col_clean(m, c - 1));
                assert(!m[r][c - 1]);
            } else {
                assert(m[r][c - 1]);
            }
        }
    }
}

/// A basis-reconstructed row reveals the chosen free bits: position
/// `free_cols[g]` holds bit `g` of the assignment.
proof fn lemma_solution_free_bits(b: Basis, m: Seq<Seq<bool>>, w: int, x: u64)
    requires
        w >= 1,
        b.dim == free_cols(m, w - 1).len(),
        b.vectors@.len() == w - 1,
        forall|q: int| 0 <= q < w - 1 ==> #[trigger] bits_of(b.vectors@[q]) == basis_vec(m, w, q),
    ensures
        forall|g: int|
            0 <= g < free_cols(m, w - 1).len() ==> solution_bits(b, x)[#[trigger] free_cols(
                m,
                w - 1,
            )[g]] == x_bit(x, g),
{
    let fv = free_cols(m, w - 1);
    lemma_free_cols_shape(m, w - 1);
    assert forall|g: int| 0 <= g < fv.len() implies solution_bits(b, x)[#[trigger] fv[g]] == x_bit(
        x,
        g,
    ) by {
        let c = fv[g];
        assert(0 <= c < w - 1);
        assert(is_free_col(m, c));
        lemma_free_col_ident(m, w, c, g);
        lemma_masked_parity_ident(b.dim as int, g, x, b.dim as int);
        assert(solution_bits(b, x)[c] == affine_eval(basis_vec(m, w, c), b.dim as int, x));
    }
}

/// Enumeration is sound: every row the basis reconstructs, for any
/// free-variable assignment, satisfies the reduced system the basis was
/// extracted from.
pub proof fn lemma_solutions_sound(b: Basis, m: Seq<Seq<bool>>, w: int, x: u64)
    requires
        w >= 1,
        m.len() > 0,
        forall|k: int| 0 <= k < m.len() ==> #[trigger] m[k].len() == w,
        reduced_form(m, w),
        !has_contradiction(m, w),
        b.dim == free_cols(m, w - 1).len(),
        b.vectors@.len() == w - 1,
        forall|q: int| 0 <= q < w - 1 ==> #[trigger] bits_of(b.vectors@[q]) == basis_vec(m, w, q),
    ensures
        solution_bits(b, x).len() == w - 1,
        mat_sat(m, solution_bits(b, x)),
{
    let y = solution_bits(b, x);
    let cw = cursor(m, w - 1);
    lemma_cursor_bounds(m, w - 1);
    lemma_solution_free_bits(b, m, w, x);
    assert forall|k: int| 0 <= k < m.len() implies row_sat(#[trigger] m[k], y) by {
        if k < cw {
            lemma_cursor_hits(m, w - 1, k);
            let j = choose|c: int|
                0 <= c < w - 1 && #[trigger] cursor(m, c) == k && !is_free_col(m, c) && cursor(
                    m,
                    c + 1,
                ) == k + 1;
            lemma_dotp_reindex(m, w, y, x, k, j, w - 1);
            let mask = basis_vec(m, w, j);
            assert(y[j] == affine_eval(bits_of(b.vectors@[j]), b.dim as int, x));
            assert(bits_of(b.vectors@[j]) == mask);
            assert(mask[b.dim as int] == m[k][w - 1]);
            assert(y[j] == (masked_parity(mask, x, b.dim as int) != m[k][w - 1]));
            assert(dotp(m[k], y, w - 1) == ((j < w - 1 && y[j]) != masked_parity(
                mask,
                x,
                b.dim as int,
            )));
            assert(dotp(m[k], y, w - 1) == m[k][w - 1]);
        } else {
            assert forall|c: int| 0 <= c < w - 1 && c != w implies !((m[k])[c] && y[c]) by {
                lemma_cursor_monotone(m, c + 1, w - 1);
                lemma_cursor_bounds(m, c);
                assert(col_clean(m, c));
                if !is_free_col(m, c) {
                    assert(cursor(m, c + 1) == cursor(m, c) + 1);
                    assert(k != cursor(m, c));
                } else {
                    assert(cursor(m, c + 1) == cursor(m, c));
                    assert(k >= cursor(m, c));
                }
            }
            lemma_dotp_single(m[k], y, w - 1, w);
            assert(!m[k][w - 1]);
        }
    }
}


/// The integer whose low `f` bits are the given booleans, lowest first.
spec fn pack_bits(bits: Seq<bool>, f: int) -> u64
    decreases f,
{
    if f <= 0 {
        0u64
    } else {
        pack_bits(bits, f - 1) | (if bits[f - 1] {
            1u64 << ((f - 1) as u64)
        } else {
            0u64
        })
    }
}

/// Packing `f` bits stays below two to the `f`, and each packed bit reads
/// back out.
proof fn lemma_pack_bits(bits: Seq<bool>, f: int)
    requires
        0 <= f < 64,
    ensures
        pack_bits(bits, f) < (1u64 << (f as u64)),
        forall|g: int| 0 <= g < f ==> x_bit(pack_bits(bits, f), g) == bits[g],
    decreases f,
{
    if f == 0 {
        assert(0u64 < (1u64 << 0u64)) by (bit_vector);
    } else {
        lemma_pack_bits(bits, f - 1);
        let p = pack_bits(bits, f - 1);
        let q = pack_bits(bits, f);
        let ff = (f - 1) as u64;
        assert(p | 0u64 == p) by (bit_vector);
        assert((p | (1u64 << ff)) < (1u64 << ((ff + 1) as u64)) && p < (1u64 << ((ff
            + 1) as u64))) by (bit_vector)
            requires
                p < (1u64 << ff),
                ff < 63,
        ;
        assert(((p | (1u64 << ff)) >> ff) & 1 == 1 && (p >> ff) & 1 == 0) by (bit_vector)
            requires
                p < (1u64 << ff),
                ff < 63,
        ;
        assert((ff + 1) as u64 == f as u64);
        assert forall|g: int| 0 <= g < f implies x_bit(q, g) == bits[g] by {
            let gg = g as u64;
            if g < f - 1 {
                assert(((p | (1u64 << ff)) >> gg) & 1 == (p >> gg) & 1) by (bit_vector)
                    requires
                        gg < ff,
                        ff < 64,
                ;
            }
        }
    }
}

/// Enumeration is complete: every assignment that satisfies the reduced
/// system is reconstructed by the basis from some free-variable choice
/// below two to the `dim`.
pub proof fn lemma_solutions_complete(b: Basis, m: Seq<Seq<bool>>, w: int, y: Seq<bool>)
    requires
        w >= 1,
        m.len() > 0,
        forall|k: int| 0 <= k < m.len() ==> #[trigger] m[k].len() == w,
        reduced_form(m, w),
        b.dim == free_cols(m, w - 1).len(),
        b.dim < 64,
        b.vectors@.len() == w - 1,
        forall|q: int| 0 <= q < w - 1 ==> #[trigger] bits_of(b.vectors@[q]) == basis_vec(m, w, q),
        y.len() == w - 1,
        mat_sat(m, y),
    ensures
        exists|x: u64|
            x < (1u64 << (b.dim as u64)) && #[trigger] solution_bits(b, x) == y,
{
    let fv = free_cols(m, w - 1);
    let dim = b.dim as int;
    lemma_free_cols_shape(m, w - 1);
    let freebits = Seq::new(fv.len(), |g: int| y[fv[g]]);
    let x = pack_bits(freebits, dim);
    lemma_pack_bits(freebits, dim);
    assert forall|g: int| 0 <= g < fv.len() implies y[#[trigger] fv[g]] == x_bit(x, g) by {
        assert(x_bit(x, g) == freebits[g]);
    }
    lemma_solution_free_bits(b, m, w, x);
    let sol = solution_bits(b, x);
    assert forall|c: int| 0 <= c < w - 1 implies sol[c] == y[c] by {
        if is_free_col(m, c) {
            lemma_free_cols_prefix(m, c, w - 1);
            lemma_free_cols_prefix(m, c + 1, w - 1);
            let g = free_cols(m, c).len() as int;
            assert(free_cols(m, c + 1) == free_cols(m, c).push(c));
            assert(free_cols(m, c + 1)[g] == c);
            assert(fv[g] == c);
            assert(sol[c] == x_bit(x, g));
            assert(y[c] == x_bit(x, g));
        } else {
            let r = cursor(m, c);
            lemma_cursor_bounds(m, c);
            lemma_dotp_reindex(m, w, y, x, r, c, w - 1);
            assert(row_sat(m[r], y));
            assert(dotp(m[r], y, w - 1) == m[r][w - 1]);
            let mask = basis_vec(m, w, c);
            assert(free_cols(m, w - 1).len() as int == dim);
            assert(y[c] == (masked_parity(mask, x, dim) != m[r][w - 1]));
            assert(mask[dim] == m[r][w - 1]);
            assert(sol[c] == affine_eval(mask, dim, x));
        }
    }
    assert(sol =~= y);
}

/// Round trip: the string a checksum system was generated from always
/// stands among the rows its basis enumerates.
pub proof fn lemma_round_trip(s: Seq<u8>, m: Seq<Seq<bool>>, m2: Seq<Seq<bool>>, b: Basis)
    requires
        m.len() == 32,
        forall|k: int| 0 <= k < 32 ==> m[k] == hash_row(s.len(), spec_sta_hash(s), k),
        same_solutions(m, m2, (8 * s.len() + 1) as nat),
        reduced_form(m2, 8 * (s.len() as int) + 1),
        m2.len() > 0,
        forall|k: int| 0 <= k < m2.len() ==> #[trigger] m2[k].len() == 8 * s.len() + 1,
        b.dim == free_cols(m2, 8 * (s.len() as int)).len(),
        b.dim < 64,
        b.vectors@.len() == 8 * s.len(),
        forall|q: int|
            0 <= q < 8 * s.len() ==> #[trigger] bits_of(b.vectors@[q]) == basis_vec(
                m2,
                8 * (s.len() as int) + 1,
                q,
            ),
    ensures
        exists|x: u64|
            x < (1u64 << (b.dim as u64)) && #[trigger] solution_bits(b, x) == string_bits(s),
{
    let w = 8 * (s.len() as int) + 1;
    lemma_hash_system_satisfiable(s, m, m2);
    assert(string_bits(s).len() == w - 1);
    lemma_solutions_complete(b, m2, w, string_bits(s));
}

/// Row cursor of the basis walk after the first `j` coefficient columns:
/// it moves past one row exactly when that row pins the column as a pivot.
pub open spec fn cursor(m: Seq<Seq<bool>>, j: int) -> int
    decreases j,
{
    if j <= 0 {
        0
    } else {
        let c = cursor(m, j - 1);
        if c < m.len() && m[c][j - 1] {
            c + 1
        } else {
            c
        }
    }
}

/// Column `j` is free: no remaining row pins it as a pivot.
pub open spec fn is_free_col(m: Seq<Seq<bool>>, j: int) -> bool {
    !(cursor(m, j) < m.len() && m[cursor(m, j)][j])
}

/// The free columns among the first `j`, in increasing order.
pub open spec fn free_cols(m: Seq<Seq<bool>>, j: int) -> Seq<int>
    decreases j,
{
    if j <= 0 {
        Seq::empty()
    } else if is_free_col(m, j - 1) {
        free_cols(m, j - 1).push(j - 1)
    } else {
        free_cols(m, j - 1)
    }
}

/// A row left after all pivots demands that zero equal one.
pub open spec fn has_contradiction(m: Seq<Seq<bool>>, w: int) -> bool {
    exists|k: int| cursor(m, w - 1) <= k < m.len() && #[trigger] m[k][w - 1]
}

/// The affine expression the basis stores for coefficient column `j`:
/// for a pivot column, the pivot row's values at the free columns plus its
/// constant; for a free column, the identity on that column.
pub open spec fn basis_vec(m: Seq<Seq<bool>>, w: int, j: int) -> Seq<bool> {
    let fv = free_cols(m, w - 1);
    if is_free_col(m, j) {
        Seq::new(fv.len(), |f: int| fv[f] == j).push(false)
    } else {
        Seq::new(fv.len(), |f: int| m[cursor(m, j)][fv[f]]).push(m[cursor(m, j)][w - 1])
    }
}

/// Basis of the solution space of a reduced system over GF(2): for each
/// unknown bit, an XOR mask over the `dim` free variables plus a constant.
pub struct Basis {
    pub dim: usize,
    pub vectors: Vec<BitRow>,
}

/// Bit `f` of a free-variable assignment encoded as an integer.
pub open spec fn x_bit(x: u64, f: int) -> bool {
    (x >> (f as u64)) & 1 == 1
}

/// XOR of the assignment bits selected by the first `f` mask bits of an
/// affine expression.
pub open spec fn masked_parity(v: Seq<bool>, x: u64, f: int) -> bool
    decreases f,
{
    if f <= 0 {
        false
    } else {
        masked_parity(v, x, f - 1) != (v[f - 1] && x_bit(x, f - 1))
    }
}

/// Value of an affine expression (mask plus trailing constant) at `x`.
pub open spec fn affine_eval(v: Seq<bool>, dim: int, x: u64) -> bool {
    masked_parity(v, x, dim) != v[dim]
}

/// The full solution row that the free-variable assignment `x` reconstructs.
pub open spec fn solution_bits(b: Basis, x: u64) -> Seq<bool> {
    Seq::new(
        b.vectors@.len(),
        |i: int| affine_eval(bits_of(b.vectors@[i]), b.dim as int, x),
    )
}

impl Basis {
    /// Every stored affine expression holds one mask bit per free variable
    /// plus the constant bit.
    pub open spec fn wf(self) -> bool {
        forall|k: int|
            0 <= k < self.vectors@.len() ==> #[trigger] bits_of(self.vectors@[k]).len() == self.dim
                + 1
    }

    /// Create a basis from a reduced-row-echelon-form matrix representing a
    /// solved system, or report the system unsatisfiable.
    ///
    /// The walk advances a row cursor over the coefficient columns; a column
    /// whose bit the cursor row holds is a pivot, any other column is free.
    /// Rows left after the last pivot must have a clear constant bit, else
    /// the system demands that zero equal one and has no solution.
    pub fn from_rref(rref: &Vec<BitRow>) -> (r: Option<Basis>)
        requires
            rref@.len() > 0 ==> uniform_width(rref@, bits_of(rref@[0]).len()) && bits_of(
                rref@[0],
            ).len() >= 1,
        ensures
            ({
                let m = mat_bits(rref@);
                let w = bits_of(rref@[0]).len() as int;
                &&& (r is Some <==> (rref@.len() > 0 && !has_contradiction(m, w)))
                &&& (r is Some ==> r.unwrap().dim == free_cols(m, w - 1).len())
                &&& (r is Some ==> r.unwrap().vectors@.len() == w - 1)
                &&& (r is Some ==> forall|j: int|
                    0 <= j < w - 1 ==> bits_of(r.unwrap().vectors@[j]) == basis_vec(m, w, j))
                &&& (r is Some ==> r.unwrap().wf())
            }),
    {
        let rows = rref.len();
        if rows == 0 {
            return None;
        }
        let w = row_len(&rref[0]);
        let ghost m = mat_bits(rref@);
        let mut free_vars: Vec<usize> = Vec::new();
        let mut i: usize = 0;
        let mut j: usize = 0;
        while j < w - 1
            invariant
                rows == rref@.len(),
                rows > 0,
                uniform_width(rref@, w as nat),
                w == bits_of(rref@[0]).len(),
                w >= 1,
                m == mat_bits(rref@),
                j <= w - 1,
                i <= rows,
                i == cursor(m, j as int),
                free_vars@.len() <= j,
                free_vars@.len() == free_cols(m, j as int).len(),
                forall|f: int|
                    0 <= f < free_vars@.len() ==> free_vars@[f] as int == free_cols(m, j as int)[f],
                forall|f: int| 0 <= f < free_vars@.len() ==> free_vars@[f] < w - 1,
            decreases w - 1 - j,
        {
            if i < rows && get_bit(&rref[i], j) {
                i += 1;
            } else {
                free_vars.push(j);
            }
            j += 1;
        }
        let ghost fv = free_cols(m, w - 1);
        let mut bad = false;
        let ghost mut wit: int = 0;
        let mut k: usize = i;
        while k < rows
            invariant
                rows == rref@.len(),
                uniform_width(rref@, w as nat),
                w >= 1,
                m == mat_bits(rref@),
                i <= k <= rows,
                bad ==> i <= wit < k && m[wit][w - 1],
                !bad ==> forall|q: int| i <= q < k ==> !(#[trigger] m[q][w - 1]),
            decreases rows - k,
        {
            if get_bit(&rref[k], w - 1) {
                bad = true;
                proof {
                    wit = k as int;
                }
            }
            k += 1;
        }
        if bad {
            proof {
                assert(has_contradiction(m, w as int));
            }
            return None;
        }
        let dim = free_vars.len();
        let mut vectors: Vec<BitRow> = Vec::new();
        let mut i2: usize = 0;
        let mut j2: usize = 0;
        while j2 < w - 1
            invariant
                rows == rref@.len(),
                rows > 0,
                uniform_width(rref@, w as nat),
                w == bits_of(rref@[0]).len(),
                w >= 1,
                m == mat_bits(rref@),
                fv == free_cols(m, w - 1),
                dim == fv.len(),
                dim == free_vars@.len(),
                dim <= w - 1,
                forall|f: int| 0 <= f < dim ==> free_vars@[f] as int == fv[f],
                forall|f: int| 0 <= f < dim ==> free_vars@[f] < w - 1,
                j2 <= w - 1,
                i2 <= rows,
                i2 == cursor(m, j2 as int),
                vectors@.len() == j2,
                forall|q: int| 0 <= q < j2 ==> bits_of(vectors@[q]) == basis_vec(m, w as int, q),
            decreases w - 1 - j2,
        {
            let mut row = zero_row(dim + 1);
            if i2 < rows && get_bit(&rref[i2], j2) {
                let mut f: usize = 0;
                while f < dim
                    invariant
                        rows == rref@.len(),
                        uniform_width(rref@, w as nat),
                        w >= 1,
                        m == mat_bits(rref@),
                        dim == free_vars@.len(),
                        forall|g: int| 0 <= g < dim ==> free_vars@[g] < w - 1,
                        i2 < rows,
                        f <= dim,
                        bits_of(row).len() == dim + 1,
                        forall|g: int|
                            0 <= g < f ==> bits_of(row)[g] == m[i2 as int][free_vars@[g] as int],
                        forall|g: int| f <= g <= dim ==> !bits_of(row)[g],
                    decreases dim - f,
                {
                    if get_bit(&rref[i2], free_vars[f]) {
                        set_bit(&mut row, f, true);
                    }
                    f += 1;
                }
                if get_bit(&rref[i2], w - 1) {
                    set_bit(&mut row, dim, true);
                }
                proof {
                    assert(!is_free_col(m, j2 as int));
                    assert(bits_of(row) =~= basis_vec(m, w as int, j2 as int));
                }
                i2 += 1;
            } else {
                let mut f: usize = 0;
                while f < dim
                    invariant
                        dim == free_vars@.len(),
                        forall|g: int| 0 <= g < dim ==> free_vars@[g] as int == fv[g],
                        f <= dim,
                        j2 < w - 1,
                        bits_of(row).len() == dim + 1,
                        forall|g: int| 0 <= g < f ==> bits_of(row)[g] == (fv[g] == j2 as int),
                        forall|g: int| f <= g <= dim ==> !bits_of(row)[g],
                    decreases dim - f,
                {
                    if free_vars[f] == j2 {
                        set_bit(&mut row, f, true);
                    }
                    f += 1;
                }
                proof {
                    assert(is_free_col(m, j2 as int));
                    assert(bits_of(row) =~= basis_vec(m, w as int, j2 as int));
                }
            }
            vectors.push(row);
            j2 += 1;
        }
        proof {
            assert(!has_contradiction(m, w as int));
            assert forall|q: int| 0 <= q < vectors@.len() implies bits_of(vectors@[q]).len() == dim
                + 1 by {
                assert(bits_of(vectors@[q]) == basis_vec(m, w as int, q));
            }
        }
        Some(Basis { dim, vectors })
    }

    /// Reconstruct into `out` the solution row that the free-variable
    /// assignment `x` selects: each bit is the XOR of the chosen free bits
    /// under that position's mask, plus the position's constant. Reuses the
    /// caller's buffer, so enumeration allocates nothing per candidate.
    pub fn solution_for(&self, x: u64, out: &mut BitRow)
        requires
            self.wf(),
            self.dim <= 64,
            bits_of(*old(out)).len() == self.vectors@.len(),
        ensures
            bits_of(*final(out)) == solution_bits(*self, x),
    {
        let nv = self.vectors.len();
        let mut i: usize = 0;
        while i < nv
            invariant
                self.wf(),
                self.dim <= 64,
                nv == self.vectors@.len(),
                i <= nv,
                bits_of(*out).len() == nv,
                forall|q: int|
                    0 <= q < i ==> bits_of(*out)[q] == affine_eval(
                        bits_of(self.vectors@[q]),
                        self.dim as int,
                        x,
                    ),
            decreases nv - i,
        {
            let v = &self.vectors[i];
            let mut acc = false;
            let mut f: usize = 0;
            while f < self.dim
                invariant
                    self.dim <= 64,
                    bits_of(*v).len() == self.dim + 1,
                    f <= self.dim,
                    acc == masked_parity(bits_of(*v), x, f as int),
                decreases self.dim - f,
            {
                if get_bit(v, f) && ((x >> (f as u64)) & 1 == 1) {
                    acc = !acc;
                }
                f += 1;
            }
            if get_bit(v, self.dim) {
                acc = !acc;
            }
            set_bit(out, i, acc);
            i += 1;
        }
        proof {
            assert(bits_of(*out) =~= solution_bits(*self, x));
        }
    }

    /// Enumerate every solution the basis describes, in increasing numeric
    /// order of the free-variable assignment: exactly two to the `dim`
    /// rows, the one at position `x` reconstructed from assignment `x`.
    pub fn enumerate(&self) -> (r: Vec<BitRow>)
        requires
            self.wf(),
            self.dim < 64,
        ensures
            r@.len() == (1u64 << (self.dim as u64)),
            forall|x: int|
                0 <= x < r@.len() ==> bits_of(r@[x]) == solution_bits(*self, x as u64),
    {
        let count: u64 = 1u64 << (self.dim as u64);
        let mut r: Vec<BitRow> = Vec::new();
        let mut x: u64 = 0;
        while x < count
            invariant
                self.wf(),
                self.dim < 64,
                count == (1u64 << (self.dim as u64)),
                x <= count,
                r@.len() == x,
                forall|y: int| 0 <= y < x ==> bits_of(r@[y]) == solution_bits(*self, y as u64),
            decreases count - x,
        {
            let mut row = zero_row(self.vectors.len());
            self.solution_for(x, &mut row);
            r.push(row);
            x += 1;
        }
        r
    }
}

/// The identity affine expression of free variable `f` among `dim`: its
/// mask selects `f` alone and its constant is zero.
pub open spec fn ident_vec(dim: int, f: int) -> Seq<bool> {
    Seq::new(dim as nat, |g: int| g == f).push(false)
}

/// The free columns are strictly increasing, lie below `j`, and are free.
proof fn lemma_free_cols_shape(m: Seq<Seq<bool>>, j: int)
    ensures
        forall|a: int, b: int|
            0 <= a < b < free_cols(m, j).len() ==> #[trigger] free_cols(m, j)[a]
                < #[trigger] free_cols(m, j)[b],
        forall|a: int| 0 <= a < free_cols(m, j).len() ==> 0 <= #[trigger] free_cols(m, j)[a] < j,
        forall|a: int|
            0 <= a < free_cols(m, j).len() ==> is_free_col(m, #[trigger] free_cols(m, j)[a]),
    decreases j,
{
    if j > 0 {
        lemma_free_cols_shape(m, j - 1);
        let pre = free_cols(m, j - 1);
        let cur = free_cols(m, j);
        if is_free_col(m, j - 1) {
            assert(cur == pre.push(j - 1));
            assert forall|a: int| 0 <= a < cur.len() implies 0 <= #[trigger] cur[a] < j by {
                if a < pre.len() {
                    assert(cur[a] == pre[a]);
                } else {
                    assert(cur[a] == j - 1);
                }
            }
            assert forall|a: int, b: int| 0 <= a < b < cur.len() implies #[trigger] cur[a]
                < #[trigger] cur[b] by {
                if b < pre.len() {
                    assert(cur[a] == pre[a] && cur[b] == pre[b]);
                } else {
                    assert(cur[b] == j - 1);
                    assert(cur[a] == pre[a]);
                    assert(pre[a] < j - 1);
                }
            }
            assert forall|a: int| 0 <= a < cur.len() implies is_free_col(
                m,
                #[trigger] cur[a],
            ) by {
                if a < pre.len() {
                    assert(cur[a] == pre[a]);
                } else {
                    assert(cur[a] == j - 1);
                }
            }
        } else {
            assert(cur == pre);
        }
    }
}

/// The masked parity of an identity expression picks out one bit of the
/// assignment.
proof fn lemma_masked_parity_ident(dim: int, f: int, x: u64, k: int)
    requires
        0 <= f < dim,
        0 <= k <= dim,
    ensures
        masked_parity(ident_vec(dim, f), x, k) == (f < k && x_bit(x, f)),
    decreases k,
{
    if k > 0 {
        lemma_masked_parity_ident(dim, f, x, k - 1);
    }
}

/// Two assignments below two to the `dim` that agree on every bit below
/// `dim` are the same integer.
proof fn lemma_low_bits_determine(x1: u64, x2: u64, dim: int)
    requires
        0 <= dim < 64,
        x1 < (1u64 << (dim as u64)),
        x2 < (1u64 << (dim as u64)),
        forall|f: int| 0 <= f < dim ==> x_bit(x1, f) == x_bit(x2, f),
    ensures
        x1 == x2,
    decreases dim,
{
    if dim == 0 {
        assert(x1 == 0 && x2 == 0) by (bit_vector)
            requires
                x1 < (1u64 << 0u64),
                x2 < (1u64 << 0u64),
        ;
    } else {
        let d = dim as u64;
        assert((x1 >> 1u64) < (1u64 << ((d - 1) as u64)) && (x2 >> 1u64) < (1u64 << ((d
            - 1) as u64))) by (bit_vector)
            requires
                x1 < (1u64 << d),
                x2 < (1u64 << d),
                0 < d < 64,
        ;
        assert forall|f: int| 0 <= f < dim - 1 implies x_bit(x1 >> 1u64, f) == x_bit(
            x2 >> 1u64,
            f,
        ) by {
            let fu = f as u64;
            assert(((x1 >> 1u64) >> fu) & 1 == (x1 >> ((fu + 1) as u64)) & 1) by (bit_vector)
                requires
                    fu < 63,
            ;
            assert(((x2 >> 1u64) >> fu) & 1 == (x2 >> ((fu + 1) as u64)) & 1) by (bit_vector)
                requires
                    fu < 63,
            ;
            assert(x_bit(x1, f + 1) == x_bit(x2, f + 1));
        }
        lemma_low_bits_determine(x1 >> 1u64, x2 >> 1u64, dim - 1);
        assert(x_bit(x1, 0) == x_bit(x2, 0));
        assert(x1 == x2) by (bit_vector)
            requires
                (x1 >> 1u64) == (x2 >> 1u64),
                ((x1 >> 0u64) & 1 == 1) == ((x2 >> 0u64) & 1 == 1),
        ;
    }
}

/// Distinct free-variable assignments reconstruct distinct solution rows.
///
/// For a basis extracted from a matrix, each free column carries the
/// identity expression of its free variable, so a solution reveals every
/// chosen free bit; together with `enumerate`'s count this makes the
/// enumeration exhaustive and duplicate-free over the two to the `dim`
/// assignments.
pub proof fn lemma_solutions_distinct(b: Basis, m: Seq<Seq<bool>>, w: int, x1: u64, x2: u64)
    requires
        w >= 1,
        b.dim == free_cols(m, w - 1).len(),
        b.dim < 64,
        b.vectors@.len() == w - 1,
        forall|j: int| 0 <= j < w - 1 ==> bits_of(b.vectors@[j]) == basis_vec(m, w, j),
        x1 < (1u64 << (b.dim as u64)),
        x2 < (1u64 << (b.dim as u64)),
        x1 != x2,
    ensures
        solution_bits(b, x1) != solution_bits(b, x2),
{
    let dim = b.dim as int;
    let fv = free_cols(m, w - 1);
    lemma_free_cols_shape(m, w - 1);
    if forall|f: int| 0 <= f < dim ==> x_bit(x1, f) == x_bit(x2, f) {
        lemma_low_bits_determine(x1, x2, dim);
        assert(false);
    }
    assert(exists|f: int| 0 <= f < dim && x_bit(x1, f) != x_bit(x2, f));
    let f = choose|f: int| 0 <= f < dim && x_bit(x1, f) != x_bit(x2, f);
    let j = fv[f];
    assert(0 <= j < w - 1);
    assert(is_free_col(m, j));
    assert forall|g: int| 0 <= g < dim implies (fv[g] == j) == (g == f) by {
        if g < f {
            assert(fv[g] < fv[f]);
        } else if g > f {
            assert(fv[f] < fv[g]);
        }
    }
    assert(basis_vec(m, w, j) =~= ident_vec(dim, f));
    lemma_masked_parity_ident(dim, f, x1, dim);
    lemma_masked_parity_ident(dim, f, x2, dim);
    assert(solution_bits(b, x1)[j] == x_bit(x1, f));
    assert(solution_bits(b, x2)[j] == x_bit(x2, f));
    assert(solution_bits(b, x1)[j] != solution_bits(b, x2)[j]);
}

} // verus!
