use sta_solver::bits::{get_bit, row_len};
use sta_solver::constraints;

#[test]
fn hash_rows_have_documented_layout() {
    let n = 2;
    let hash: u32 = 0x8000_0001;
    let rows = constraints::sta_hash(n, hash);
    assert_eq!(rows.len(), 32);
    for row in &rows {
        assert_eq!(row_len(row), 8 * n + 1);
    }
    // Constant column: bit k of the target hash.
    assert!(get_bit(&rows[0], 8 * n));
    assert!(get_bit(&rows[31], 8 * n));
    assert!(!get_bit(&rows[1], 8 * n));
    // Bit j of byte i lands on hash bit (6*(n-i-1)+j) % 32.
    for i in 0..n {
        for j in 0..8 {
            let target = (6 * (n - i - 1) + j) % 32;
            for k in 0..32 {
                assert_eq!(get_bit(&rows[k], 8 * i + j), k == target);
            }
        }
    }
}

#[test]
fn printable_rows_have_documented_layout() {
    let n = 2;
    let rows = constraints::approx_uppercase_alphanumeric(n, &[0, 1]);
    assert_eq!(rows.len(), 4);
    // First the top-bit-zero rows: a single coefficient, constant clear.
    for (q, &i) in [0usize, 1].iter().enumerate() {
        for p in 0..8 * n + 1 {
            assert_eq!(get_bit(&rows[q], p), p == 8 * i + 7);
        }
    }
    // Then the bits-five-and-six-differ rows: two coefficients, constant set.
    for (q, &i) in [0usize, 1].iter().enumerate() {
        for p in 0..8 * n + 1 {
            assert_eq!(
                get_bit(&rows[2 + q], p),
                p == 8 * i + 5 || p == 8 * i + 6 || p == 8 * n
            );
        }
    }
}

#[test]
fn alphabetic_rows_add_bit_six() {
    let n = 1;
    let rows = constraints::approx_uppercase_alphabetic(n, &[0]);
    assert_eq!(rows.len(), 3);
    for p in 0..9 {
        assert_eq!(get_bit(&rows[0], p), p == 7);
        assert_eq!(get_bit(&rows[1], p), p == 5 || p == 6 || p == 8);
        assert_eq!(get_bit(&rows[2], p), p == 6 || p == 8);
    }
}

#[test]
fn fixed_byte_rows_pin_each_bit() {
    let n = 2;
    let value: u8 = 0xA5;
    let rows = constraints::byte(n, 1, value);
    assert_eq!(rows.len(), 8);
    for b in 0..8 {
        for p in 0..8 * n {
            assert_eq!(get_bit(&rows[b], p), p == 8 + b);
        }
        assert_eq!(get_bit(&rows[b], 8 * n), (value >> b) & 1 == 1);
    }
}
