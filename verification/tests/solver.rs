use std::collections::HashSet;

use sta_solver::bits::{rows_equal, zero_row, BitRow};
use sta_solver::constraints;
use sta_solver::linalg::{z2_rref, Basis};
use sta_solver::utils::{bits_as_byte_slice, sta_hash};

fn solve(mut mat: Vec<BitRow>) -> Option<Basis> {
    z2_rref(&mut mat);
    Basis::from_rref(&mat)
}

fn solutions_as_bytes(basis: &Basis) -> Vec<Vec<u8>> {
    basis
        .enumerate()
        .iter()
        .map(|row| bits_as_byte_slice(row))
        .collect()
}

#[test]
fn round_trip_contains_original() {
    let s = b"HELLO";
    let n = s.len();
    let h = sta_hash(s);
    let basis = solve(constraints::sta_hash(n, h)).expect("hash system is satisfiable");
    let sols = solutions_as_bytes(&basis);
    assert!(sols.iter().any(|b| b == s));
}

#[test]
fn dimension_law_above_32_bits() {
    let basis = solve(constraints::sta_hash(5, sta_hash(b"HELLO"))).unwrap();
    assert_eq!(basis.dim, 8 * 5 - 32);
    let basis6 = solve(constraints::sta_hash(6, sta_hash(b"ABCDEF"))).unwrap();
    assert_eq!(basis6.dim, 8 * 6 - 32);
}

#[test]
fn dimension_law_single_byte() {
    let basis = solve(constraints::sta_hash(1, sta_hash(b"Q"))).unwrap();
    assert_eq!(basis.dim, 0);
    let sols = solutions_as_bytes(&basis);
    assert_eq!(sols, vec![b"Q".to_vec()]);
}

#[test]
fn reduction_is_idempotent() {
    let n = 5;
    let mut once = constraints::sta_hash(n, sta_hash(b"WORDS"));
    once.extend(constraints::approx_uppercase_alphanumeric(
        n,
        &[0, 1, 2, 3, 4],
    ));
    let mut twice = constraints::sta_hash(n, sta_hash(b"WORDS"));
    twice.extend(constraints::approx_uppercase_alphanumeric(
        n,
        &[0, 1, 2, 3, 4],
    ));
    z2_rref(&mut once);
    z2_rref(&mut twice);
    z2_rref(&mut twice);
    assert_eq!(once.len(), twice.len());
    for (a, b) in once.iter().zip(twice.iter()) {
        assert!(rows_equal(a, b));
    }
}

#[test]
fn conflicting_fixed_bytes_are_unsatisfiable() {
    let n = 3;
    let mut mat = constraints::byte(n, 0, 0x41);
    mat.extend(constraints::byte(n, 0, 0x42));
    assert!(solve(mat).is_none());
}

#[test]
fn enumeration_is_complete_and_duplicate_free() {
    let basis = solve(constraints::sta_hash(5, sta_hash(b"HELLO"))).unwrap();
    assert_eq!(basis.dim, 8);
    let sols = solutions_as_bytes(&basis);
    assert_eq!(sols.len(), 1 << 8);
    let distinct: HashSet<Vec<u8>> = sols.iter().cloned().collect();
    assert_eq!(distinct.len(), 1 << 8);
}

#[test]
fn concrete_scenario_recovers_test_string() {
    let n = 4;
    let h = sta_hash(b"TEST");
    assert_eq!(h, 0x0154_4494);
    let basis = solve(constraints::sta_hash(n, h)).expect("satisfiable");
    let sols = solutions_as_bytes(&basis);
    assert_eq!(sols.len(), 1 << basis.dim);
    let printable: Vec<&Vec<u8>> = sols
        .iter()
        .filter(|b| b.iter().all(|&c| (0x20..0x7f).contains(&c)))
        .collect();
    assert!(printable.iter().any(|b| b.as_slice() == b"TEST"));
}

#[test]
fn sta_hash_known_values() {
    assert_eq!(sta_hash(b""), 0);
    assert_eq!(sta_hash(b"A"), 0x41);
    assert_eq!(sta_hash(b"AB"), 0x1002);
    assert_eq!(sta_hash(b"TEST"), 0x0154_4494);
}

#[test]
fn solution_for_reconstructs_unique_solution() {
    let basis = solve(constraints::sta_hash(1, sta_hash(b"Q"))).unwrap();
    assert_eq!(basis.dim, 0);
    let mut buffer = zero_row(basis.vectors.len());
    basis.solution_for(0, &mut buffer);
    assert_eq!(bits_as_byte_slice(&buffer), vec![0x51]);
}

#[test]
fn fixed_byte_narrows_solutions() {
    let n = 4;
    let mut mat = constraints::sta_hash(n, sta_hash(b"TEST"));
    mat.extend(constraints::byte(n, 0, b'T'));
    let basis = solve(mat).expect("satisfiable");
    let sols = solutions_as_bytes(&basis);
    assert!(sols.iter().all(|b| b[0] == b'T'));
    assert!(sols.iter().any(|b| b.as_slice() == b"TEST"));
}

#[test]
fn empty_matrix_has_no_basis() {
    let mut mat: Vec<BitRow> = Vec::new();
    z2_rref(&mut mat);
    assert!(mat.is_empty());
    assert!(Basis::from_rref(&mat).is_none());
}

#[test]
fn rows_equal_distinguishes_rows() {
    let rows = constraints::byte(1, 0, 0x01);
    assert!(rows_equal(&rows[0], &rows[0]));
    assert!(!rows_equal(&rows[0], &rows[1]));
    let zero = zero_row(9);
    assert!(!rows_equal(&rows[0], &zero));
    assert!(rows_equal(&zero, &zero_row(9)));
}
