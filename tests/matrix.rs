use rust_basics::matrix::{
    check_dimensions, gather_rows, identity, is_rectangular, multiply, multiply_row, DimensionError,
    Matrix,
};

fn sample_a() -> Matrix {
    vec![vec![0, 1], vec![2, 3]]
}

fn sample_b() -> Matrix {
    vec![vec![0, 2], vec![4, 6]]
}

fn reference_product(a: &Matrix, b: &Matrix) -> Matrix {
    let n = if b.is_empty() { 0 } else { b[0].len() };
    let mut out = Vec::new();
    for row in a {
        let mut r = Vec::new();
        for j in 0..n {
            let mut acc: u64 = 0;
            for k in 0..row.len() {
                acc = acc.wrapping_add(row[k].wrapping_mul(b[k][j]));
            }
            r.push(acc);
        }
        out.push(r);
    }
    out
}

/// Completes the rows of `a * b` one unit at a time, in the order `order` gives,
/// and gathers them by row index.
fn rows_in_order(a: &Matrix, b: &Matrix, order: &[usize]) -> Matrix {
    let done: Vec<(usize, Vec<u64>)> = order.iter().map(|&i| (i, multiply_row(&a[i], b))).collect();
    gather_rows(done).expect("every row delivered once")
}

fn lcg_matrix(rows: usize, cols: usize, seed: u64) -> Matrix {
    let mut s = seed;
    (0..rows)
        .map(|_| {
            (0..cols)
                .map(|_| {
                    s = s.wrapping_mul(6364136223846793005).wrapping_add(1442695040888963407);
                    s >> 33
                })
                .collect()
        })
        .collect()
}

#[test]
fn two_by_two_scenario() {
    let r = multiply(sample_a(), sample_b()).unwrap();
    assert_eq!(r, vec![vec![4, 6], vec![12, 22]]);
}

#[test]
fn two_by_two_row_units_match_sequential() {
    let a = sample_a();
    let b = sample_b();
    assert_eq!(rows_in_order(&a, &b, &[1, 0]), vec![vec![4, 6], vec![12, 22]]);
    assert_eq!(rows_in_order(&a, &b, &[0, 1]), multiply(a, b).unwrap());
}

#[test]
fn product_shape_is_rows_of_a_by_cols_of_b() {
    let a = lcg_matrix(3, 4, 1);
    let b = lcg_matrix(4, 5, 2);
    let r = multiply(a, b).unwrap();
    assert_eq!(r.len(), 3);
    assert!(r.iter().all(|row| row.len() == 5));
}

#[test]
fn product_matches_reference_sum() {
    let a = lcg_matrix(6, 7, 11);
    let b = lcg_matrix(7, 3, 12);
    let expected = reference_product(&a, &b);
    assert_eq!(multiply(a, b).unwrap(), expected);
}

#[test]
fn single_entry_value() {
    let a = vec![vec![1, 2, 3]];
    let b = vec![vec![4], vec![5], vec![6]];
    assert_eq!(multiply(a, b).unwrap(), vec![vec![32]]);
}

#[test]
fn overflow_wraps_around() {
    let a = vec![vec![u64::MAX, 3]];
    let b = vec![vec![2], vec![1]];
    // (2^64 - 1) * 2 + 3 = 2^65 + 1, which is 1 modulo 2^64
    assert_eq!(multiply(a, b).unwrap(), vec![vec![1]]);
}

#[test]
fn identity_on_the_right_keeps_matrix() {
    let a = lcg_matrix(3, 4, 5);
    assert_eq!(multiply(a.clone(), identity(4)).unwrap(), a);
}

#[test]
fn identity_on_the_left_keeps_matrix() {
    let a = lcg_matrix(3, 4, 6);
    assert_eq!(multiply(identity(3), a.clone()).unwrap(), a);
}

#[test]
fn identity_has_ones_on_diagonal() {
    assert_eq!(identity(3), vec![vec![1, 0, 0], vec![0, 1, 0], vec![0, 0, 1]]);
    assert!(identity(0).is_empty());
}

#[test]
fn mismatched_inner_dimensions_are_an_error() {
    let a = vec![vec![1, 2, 3], vec![4, 5, 6]];
    let b = vec![vec![1, 2], vec![3, 4]];
    assert_eq!(
        multiply(a, b),
        Err(DimensionError::DimensionMismatch { left_cols: 3, right_rows: 2 })
    );
}

#[test]
fn mismatch_against_empty_right_operand() {
    let a = vec![vec![1, 2]];
    let b: Matrix = Vec::new();
    assert_eq!(
        multiply(a, b),
        Err(DimensionError::DimensionMismatch { left_cols: 2, right_rows: 0 })
    );
}

#[test]
fn empty_operands_give_empty_product() {
    let a: Matrix = Vec::new();
    let b: Matrix = Vec::new();
    assert_eq!(multiply(a, b).unwrap(), Vec::<Vec<u64>>::new());
}

#[test]
fn check_dimensions_reports_both_sides() {
    let a = sample_a();
    let b = vec![vec![1, 2, 3]];
    assert_eq!(check_dimensions(&a, &sample_b()), Ok(()));
    assert_eq!(
        check_dimensions(&a, &b),
        Err(DimensionError::DimensionMismatch { left_cols: 2, right_rows: 1 })
    );
}

#[test]
fn rectangularity_is_detected() {
    assert!(is_rectangular(&sample_a()));
    assert!(is_rectangular(&Vec::new()));
    assert!(!is_rectangular(&vec![vec![1, 2], vec![3]]));
}

#[test]
fn multiply_row_computes_one_row() {
    assert_eq!(multiply_row(&vec![2, 3], &sample_b()), vec![12, 22]);
}

#[test]
fn gather_places_rows_by_index() {
    let done = vec![(2, vec![7]), (0, vec![5]), (1, vec![6])];
    assert_eq!(gather_rows(done), Some(vec![vec![5], vec![6], vec![7]]));
}

#[test]
fn gather_rejects_bad_tags() {
    assert_eq!(gather_rows(vec![(0, vec![1]), (0, vec![2])]), None);
    assert_eq!(gather_rows(vec![(0, vec![1]), (2, vec![2])]), None);
    assert_eq!(gather_rows(Vec::new()), Some(Vec::new()));
}

#[test]
fn delayed_rows_keep_row_order() {
    let a = lcg_matrix(5, 4, 21);
    let b = lcg_matrix(4, 4, 22);
    let expected = multiply(a.clone(), b.clone()).unwrap();
    // every rotation and the reversal of the completion order
    for shift in 0..5 {
        let order: Vec<usize> = (0..5).map(|i| (i + shift) % 5).collect();
        assert_eq!(rows_in_order(&a, &b, &order), expected);
    }
    assert_eq!(rows_in_order(&a, &b, &[4, 3, 2, 1, 0]), expected);
}

#[test]
fn repeated_runs_give_identical_results() {
    let a = lcg_matrix(8, 6, 31);
    let b = lcg_matrix(6, 8, 32);
    let first = multiply(a.clone(), b.clone()).unwrap();
    let mut s: u64 = 99;
    for _ in 0..100 {
        assert_eq!(multiply(a.clone(), b.clone()).unwrap(), first);
        let mut order: Vec<usize> = (0..8).collect();
        for i in (1..order.len()).rev() {
            s = s.wrapping_mul(6364136223846793005).wrapping_add(1442695040888963407);
            order.swap(i, (s >> 33) as usize % (i + 1));
        }
        assert_eq!(rows_in_order(&a, &b, &order), first);
    }
}
