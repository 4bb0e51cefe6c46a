use graph_slam::errors::MatrixError;
use graph_slam::fixed::{fx_add, fx_div, fx_mul, fx_sqrt, fx_sub, FX_ONE};
use graph_slam::matrix::{Matrix, INVERSE_ZTOL};

fn fx(v: f64) -> i64 {
    (v * FX_ONE as f64).round() as i64
}

fn unfx(v: i64) -> f64 {
    v as f64 / FX_ONE as f64
}

fn mat(rows: &[&[f64]]) -> Matrix {
    let data: Vec<Vec<i64>> = rows.iter().map(|r| r.iter().map(|&v| fx(v)).collect()).collect();
    Matrix::new(data).unwrap()
}

fn assert_close(m: &Matrix, expected: &[&[f64]], tol: f64) {
    assert_eq!(m.dimx, expected.len());
    assert_eq!(m.dimy, expected[0].len());
    for i in 0..m.dimx {
        for j in 0..m.dimy {
            let got = unfx(m.get(i, j));
            let want = expected[i][j];
            assert!(
                (got - want).abs() < tol,
                "entry ({}, {}): got {}, want {}",
                i,
                j,
                got,
                want
            );
        }
    }
}

#[test]
fn fixed_point_arithmetic_is_exact_on_integers() {
    assert_eq!(fx_add(fx(2.0), fx(3.0)).unwrap(), fx(5.0));
    assert_eq!(fx_sub(fx(2.0), fx(3.0)).unwrap(), fx(-1.0));
    assert_eq!(fx_mul(fx(1.5), fx(2.0)).unwrap(), fx(3.0));
    assert_eq!(fx_div(fx(3.0), fx(2.0)).unwrap(), fx(1.5));
    assert_eq!(fx_sqrt(fx(4.0)), fx(2.0));
    assert_eq!(fx_sqrt(fx(9.0)), fx(3.0));
}

#[test]
fn fixed_point_addition_overflows_to_error() {
    assert_eq!(fx_add(i64::MAX, 1), Err(MatrixError::ValueOutOfRange));
    assert_eq!(fx_sub(i64::MIN, 1), Err(MatrixError::ValueOutOfRange));
    assert_eq!(fx_mul(i64::MAX, i64::MAX), Err(MatrixError::ValueOutOfRange));
}

#[test]
fn zero_and_identity_have_expected_entries() {
    let z = Matrix::zero(2, 3).unwrap();
    assert_close(&z, &[&[0.0, 0.0, 0.0], &[0.0, 0.0, 0.0]], 1e-9);
    let id = Matrix::identity(3).unwrap();
    assert_close(
        &id,
        &[&[1.0, 0.0, 0.0], &[0.0, 1.0, 0.0], &[0.0, 0.0, 1.0]],
        1e-9,
    );
}

#[test]
fn zero_dimension_is_invalid() {
    assert_eq!(Matrix::zero(0, 3).unwrap_err(), MatrixError::InvalidDimension);
    assert_eq!(Matrix::zero(3, 0).unwrap_err(), MatrixError::InvalidDimension);
    assert_eq!(Matrix::identity(0).unwrap_err(), MatrixError::InvalidDimension);
    assert_eq!(Matrix::new(vec![]).unwrap_err(), MatrixError::InvalidDimension);
    assert_eq!(Matrix::new(vec![vec![]]).unwrap_err(), MatrixError::InvalidDimension);
}

#[test]
fn ragged_rows_are_a_dimension_mismatch() {
    assert_eq!(
        Matrix::new(vec![vec![1, 2], vec![3]]).unwrap_err(),
        MatrixError::DimensionMismatch
    );
}

#[test]
fn add_sub_mul_transpose_compute_expected_values() {
    let a = mat(&[&[1.0, 2.0], &[3.0, 4.0]]);
    let b = mat(&[&[5.0, 6.0], &[7.0, 8.0]]);
    assert_close(&a.add(&b).unwrap(), &[&[6.0, 8.0], &[10.0, 12.0]], 1e-9);
    assert_close(&b.sub(&a).unwrap(), &[&[4.0, 4.0], &[4.0, 4.0]], 1e-9);
    assert_close(&a.mul(&b).unwrap(), &[&[19.0, 22.0], &[43.0, 50.0]], 1e-6);
    assert_close(&a.transpose(), &[&[1.0, 3.0], &[2.0, 4.0]], 1e-9);
}

#[test]
fn mismatched_shapes_are_rejected() {
    let a = mat(&[&[1.0, 2.0], &[3.0, 4.0]]);
    let c = mat(&[&[1.0, 2.0, 3.0], &[4.0, 5.0, 6.0]]);
    assert_eq!(a.add(&c).unwrap_err(), MatrixError::DimensionMismatch);
    assert_eq!(a.sub(&c).unwrap_err(), MatrixError::DimensionMismatch);
    assert_eq!(c.mul(&a).unwrap_err(), MatrixError::DimensionMismatch);
    assert_eq!(c.cholesky(INVERSE_ZTOL).unwrap_err(), MatrixError::DimensionMismatch);
    assert_eq!(c.inverse().unwrap_err(), MatrixError::DimensionMismatch);
}

#[test]
fn take_extracts_the_named_submatrix() {
    let a = mat(&[&[1.0, 2.0, 3.0], &[4.0, 5.0, 6.0], &[7.0, 8.0, 9.0]]);
    let t = a.take(&vec![0, 2], &vec![1, 2]).unwrap();
    assert_close(&t, &[&[2.0, 3.0], &[8.0, 9.0]], 1e-9);
    let sym = a.take(&vec![0, 2], &vec![]).unwrap();
    assert_close(&sym, &[&[1.0, 3.0], &[7.0, 9.0]], 1e-9);
}

#[test]
fn take_rejects_out_of_range_indices() {
    let a = mat(&[&[1.0, 2.0], &[3.0, 4.0]]);
    assert_eq!(a.take(&vec![0, 2], &vec![]).unwrap_err(), MatrixError::IndexOutOfRange);
    assert_eq!(a.take(&vec![0], &vec![5]).unwrap_err(), MatrixError::IndexOutOfRange);
    assert_eq!(a.take(&vec![], &vec![0]).unwrap_err(), MatrixError::InvalidDimension);
}

#[test]
fn expand_scatters_and_zero_fills() {
    let a = mat(&[&[1.0, 2.0], &[3.0, 4.0]]);
    let e = a.expand(4, 4, &vec![0, 2], &vec![0, 2]).unwrap();
    assert_close(
        &e,
        &[
            &[1.0, 0.0, 2.0, 0.0],
            &[0.0, 0.0, 0.0, 0.0],
            &[3.0, 0.0, 4.0, 0.0],
            &[0.0, 0.0, 0.0, 0.0],
        ],
        1e-9,
    );
}

#[test]
fn expand_rejects_bad_maps() {
    let a = mat(&[&[1.0, 2.0], &[3.0, 4.0]]);
    assert_eq!(a.expand(0, 4, &vec![0, 2], &vec![0, 2]).unwrap_err(), MatrixError::InvalidDimension);
    assert_eq!(a.expand(4, 4, &vec![0], &vec![0, 2]).unwrap_err(), MatrixError::DimensionMismatch);
    assert_eq!(a.expand(4, 4, &vec![0, 9], &vec![0, 2]).unwrap_err(), MatrixError::IndexOutOfRange);
    assert_eq!(a.expand(4, 4, &vec![0, 0], &vec![0, 2]).unwrap_err(), MatrixError::InvalidDimension);
}

// A submatrix taken out and scattered back with the same index maps lands on
// its original positions, zeros elsewhere.
#[test]
fn take_then_expand_round_trips() {
    let a = mat(&[&[1.0, 2.0, 3.0], &[4.0, 5.0, 6.0], &[7.0, 8.0, 9.0]]);
    let rows = vec![0, 2];
    let cols = vec![1, 2];
    let t = a.take(&rows, &cols).unwrap();
    let e = t.expand(3, 3, &rows, &cols).unwrap();
    for &i in &rows {
        for &j in &cols {
            assert_eq!(e.get(i, j), a.get(i, j));
        }
    }
    for i in 0..3 {
        for j in 0..3 {
            if !(rows.contains(&i) && cols.contains(&j)) {
                assert_eq!(e.get(i, j), 0);
            }
        }
    }
}

// The factor of a positive-definite matrix reconstructs it: L·Lᵀ = M.
#[test]
fn cholesky_reconstructs_the_input() {
    let m = mat(&[&[4.0, 2.0, 0.0], &[2.0, 3.0, 1.0], &[0.0, 1.0, 5.0]]);
    let l = m.cholesky(INVERSE_ZTOL).unwrap();
    let back = l.mul(&l.transpose()).unwrap();
    assert_close(
        &back,
        &[&[4.0, 2.0, 0.0], &[2.0, 3.0, 1.0], &[0.0, 1.0, 5.0]],
        1e-3,
    );
}

// Cholesky on a non-positive-definite matrix must fail, never silently
// return a wrong factor.
#[test]
fn cholesky_rejects_non_positive_definite() {
    let m = mat(&[&[1.0, 2.0], &[2.0, 1.0]]);
    assert_eq!(m.cholesky(INVERSE_ZTOL).unwrap_err(), MatrixError::NotPositiveDefinite);
    assert_eq!(m.inverse().unwrap_err(), MatrixError::NotPositiveDefinite);
}

// The inverse of a positive-definite matrix multiplies with it to the
// identity, in both orders, within tolerance.
#[test]
fn inverse_times_self_is_identity() {
    let m = mat(&[&[4.0, 2.0, 0.0], &[2.0, 3.0, 1.0], &[0.0, 1.0, 5.0]]);
    let inv = m.inverse().unwrap();
    let left = inv.mul(&m).unwrap();
    let right = m.mul(&inv).unwrap();
    let id = &[
        &[1.0f64, 0.0, 0.0] as &[f64],
        &[0.0, 1.0, 0.0],
        &[0.0, 0.0, 1.0],
    ];
    assert_close(&left, id, 1e-3);
    assert_close(&right, id, 1e-3);
}

#[test]
fn inverse_of_two_by_two_matches_closed_form() {
    let m = mat(&[&[4.0, 2.0], &[2.0, 3.0]]);
    // determinant 8: inverse is [[3, -2], [-2, 4]] / 8.
    let inv = m.inverse().unwrap();
    assert_close(&inv, &[&[0.375, -0.25], &[-0.25, 0.5]], 1e-3);
}

#[test]
fn cholesky_treats_tiny_residuals_as_zero() {
    // The second row and column are unconstrained: the factor's diagonal
    // residual there is zero, which the tolerance turns into a zero row.
    let m = mat(&[&[4.0, 0.0], &[0.0, 0.0]]);
    let l = m.cholesky(INVERSE_ZTOL).unwrap();
    assert_eq!(l.get(0, 0), fx(2.0));
    assert_eq!(l.get(1, 1), 0);
    // Inverting such a singular factor is refused.
    assert_eq!(l.cholesky_inverse().unwrap_err(), MatrixError::NotPositiveDefinite);
}
