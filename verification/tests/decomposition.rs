use matrix_decomp::rational::Rat;
use matrix_decomp::matrix::{Mat, Vector, mat_mul, mat_vec_mul};
use matrix_decomp::error::{Error, ErrorKind};
use matrix_decomp::substitution::{forward_substitution, back_substitution};

fn mat_from(rows: usize, cols: usize, entries: &[i64]) -> Mat {
    assert_eq!(entries.len(), rows * cols);
    let mut data: Vec<Rat> = Vec::new();
    for &e in entries {
        data.push(Rat::from_int(e));
    }
    Mat::new(rows, cols, data)
}

fn vec_from(entries: &[i64]) -> Vector {
    let mut data: Vec<Rat> = Vec::new();
    for &e in entries {
        data.push(Rat::from_int(e));
    }
    Vector::new(data)
}

fn assert_entry_int(m: &Mat, i: usize, j: usize, expect: i64) {
    assert!(
        m.get(i, j).eq_val(&Rat::from_int(expect)),
        "entry ({}, {}) differs from {}",
        i,
        j,
        expect
    );
}

fn assert_mats_equal(a: &Mat, b: &Mat) {
    assert_eq!(a.rows(), b.rows());
    assert_eq!(a.cols(), b.cols());
    for i in 0..a.rows() {
        for j in 0..a.cols() {
            assert!(a.get(i, j).eq_val(b.get(i, j)), "entry ({}, {}) differs", i, j);
        }
    }
}

#[test]
fn rational_add_sub_mul_div() {
    let third = Rat::from_frac(1, 3);
    let sixth = Rat::from_frac(1, 6);
    let half = Rat::from_frac(1, 2);
    assert!(third.add(&sixth).eq_val(&half));
    assert!(half.sub(&sixth).eq_val(&third));
    assert!(Rat::from_frac(2, 4).eq_val(&half));
    assert!(Rat::from_frac(3, 4).div(&Rat::from_frac(3, 2)).eq_val(&half));
    assert!(Rat::from_frac(1, 2).mul(&Rat::from_frac(2, 3)).eq_val(&Rat::from_frac(1, 3)));
    assert!(half.neg().eq_val(&Rat::from_frac(-1, 2)));
    assert!(Rat::from_frac(3, -6).eq_val(&Rat::from_frac(-1, 2)));
    assert!(Rat::zero().is_zero());
    assert!(!Rat::one().is_zero());
    assert!(Rat::from_frac(1, 3).lt(&half));
    assert!(!half.lt(&third));
}

#[test]
fn identity_and_zeros_entries() {
    let id = Mat::identity(3);
    let z = Mat::zeros(2, 3);
    for i in 0..3 {
        for j in 0..3 {
            assert_entry_int(&id, i, j, if i == j { 1 } else { 0 });
        }
    }
    for i in 0..2 {
        for j in 0..3 {
            assert_entry_int(&z, i, j, 0);
        }
    }
}

#[test]
fn transpose_swaps_entries() {
    let a = mat_from(2, 3, &[1, 2, 3, 4, 5, 6]);
    let t = a.transpose();
    assert_eq!(t.rows(), 3);
    assert_eq!(t.cols(), 2);
    for i in 0..2 {
        for j in 0..3 {
            assert!(a.get(i, j).eq_val(t.get(j, i)));
        }
    }
}

#[test]
fn mat_mul_small_product() {
    let a = mat_from(2, 2, &[1, 2, 3, 4]);
    let b = mat_from(2, 2, &[5, 6, 7, 8]);
    let c = mat_mul(&a, &b);
    assert_entry_int(&c, 0, 0, 19);
    assert_entry_int(&c, 0, 1, 22);
    assert_entry_int(&c, 1, 0, 43);
    assert_entry_int(&c, 1, 1, 50);
}

#[test]
fn lup_reconstructs_three_by_three() {
    let a = mat_from(3, 3, &[1, 2, 0, 0, 3, 4, 5, 1, 2]);
    let (l, u, p) = a.lup_decomp().unwrap();
    // L unit lower triangular, U upper triangular.
    for i in 0..3 {
        assert!(l.get(i, i).eq_val(&Rat::one()));
        for j in 0..3 {
            if j > i {
                assert!(l.get(i, j).is_zero());
            }
            if j < i {
                assert!(u.get(i, j).is_zero());
            }
        }
    }
    let lu = mat_mul(&l, &u);
    let pa = mat_mul(&p, &a);
    assert_mats_equal(&lu, &pa);
}

#[test]
fn lup_handles_pivoting() {
    let a = mat_from(2, 2, &[0, 1, 1, 0]);
    let (l, u, p) = a.lup_decomp().unwrap();
    let lu = mat_mul(&l, &u);
    let pa = mat_mul(&p, &a);
    assert_mats_equal(&lu, &pa);
}

#[test]
fn lup_singular_fails() {
    let a = mat_from(2, 2, &[1, 0, 0, 0]);
    let err = a.lup_decomp().unwrap_err();
    assert_eq!(err.kind(), ErrorKind::DecompFailure);
}

#[test]
fn solve_two_by_two() {
    let a = mat_from(2, 2, &[2, 3, 1, 2]);
    let y = vec_from(&[13, 8]);
    let x = a.solve(&y).unwrap();
    assert_eq!(x.len(), 2);
    assert!(x.get(0).eq_val(&Rat::from_int(2)));
    assert!(x.get(1).eq_val(&Rat::from_int(3)));
}

#[test]
fn solve_singular_fails() {
    let a = mat_from(2, 2, &[1, 1, 1, 1]);
    let y = vec_from(&[1, 2]);
    let err = a.solve(&y).unwrap_err();
    assert_eq!(err.kind(), ErrorKind::DecompFailure);
}

#[test]
fn inverse_two_by_two_exact() {
    let a = mat_from(2, 2, &[2, 3, 1, 2]);
    let inv = a.inverse().unwrap();
    assert_entry_int(&inv, 0, 0, 2);
    assert_entry_int(&inv, 0, 1, -3);
    assert_entry_int(&inv, 1, 0, -1);
    assert_entry_int(&inv, 1, 1, 2);
}

#[test]
fn inverse_round_trip_three_by_three() {
    let a = mat_from(3, 3, &[1, 2, 0, 0, 3, 4, 5, 1, 2]);
    let inv = a.inverse().unwrap();
    let prod = mat_mul(&a, &inv);
    assert_mats_equal(&prod, &Mat::identity(3));
    let prod_back = mat_mul(&inv, &a);
    assert_mats_equal(&prod_back, &Mat::identity(3));
}

#[test]
fn det_of_scalar_identity_is_power() {
    let mut entries = [0i64; 9];
    entries[0] = 3;
    entries[4] = 3;
    entries[8] = 3;
    let a = mat_from(3, 3, &entries);
    assert!(a.det().unwrap().eq_val(&Rat::from_int(27)));
    assert!(Mat::identity(4).det().unwrap().eq_val(&Rat::one()));
}

#[test]
fn det_of_singular_diagonal_is_zero() {
    let a = mat_from(3, 3, &[2, 0, 0, 0, 0, 0, 0, 0, 5]);
    assert!(a.det().unwrap().is_zero());
}

#[test]
fn det_two_by_two_formula() {
    let a = mat_from(2, 2, &[1, 2, 3, 4]);
    assert!(a.det().unwrap().eq_val(&Rat::from_int(-2)));
}

#[test]
fn det_of_singular_two_by_two_is_zero() {
    let a = mat_from(2, 2, &[1, 2, 2, 4]);
    assert!(a.det().unwrap().is_zero());
}

#[test]
fn det_three_by_three_formula() {
    let a = mat_from(3, 3, &[1, 2, 0, 0, 3, 4, 5, 1, 2]);
    assert!(a.det().unwrap().eq_val(&Rat::from_int(42)));
}

#[test]
fn det_general_uses_factorization_sign() {
    let a = mat_from(4, 4, &[0, 1, 0, 0, 1, 0, 0, 0, 0, 0, 2, 0, 0, 0, 0, 3]);
    assert!(a.det().unwrap().eq_val(&Rat::from_int(-6)));
}

#[test]
fn forward_substitution_lower_triangular() {
    let l = mat_from(2, 2, &[1, 0, 2, 1]);
    let v = vec_from(&[3, 7]);
    let y = forward_substitution(&l, &v).unwrap();
    assert!(y.get(0).eq_val(&Rat::from_int(3)));
    assert!(y.get(1).eq_val(&Rat::from_int(1)));
}

#[test]
fn back_substitution_upper_triangular() {
    let u = mat_from(2, 2, &[2, 1, 0, 4]);
    let v = vec_from(&[4, 8]);
    let x = back_substitution(&u, &v).unwrap();
    assert!(x.get(0).eq_val(&Rat::from_int(1)));
    assert!(x.get(1).eq_val(&Rat::from_int(2)));
}

#[test]
fn substitution_zero_diagonal_fails() {
    let l = mat_from(2, 2, &[0, 0, 2, 1]);
    let v = vec_from(&[3, 7]);
    let err = forward_substitution(&l, &v).unwrap_err();
    assert_eq!(err.kind(), ErrorKind::DecompFailure);
    let u = mat_from(2, 2, &[2, 1, 0, 0]);
    let err2 = back_substitution(&u, &v).unwrap_err();
    assert_eq!(err2.kind(), ErrorKind::DecompFailure);
}

#[test]
fn mat_vec_mul_applies_rows() {
    let a = mat_from(2, 3, &[1, 2, 3, 4, 5, 6]);
    let x = vec_from(&[1, 1, 1]);
    let r = mat_vec_mul(&a, &x);
    assert!(r.get(0).eq_val(&Rat::from_int(6)));
    assert!(r.get(1).eq_val(&Rat::from_int(15)));
}

#[test]
fn error_carries_kind_and_message() {
    let e = Error::new(ErrorKind::InvalidArg, "empty column");
    assert_eq!(e.kind(), ErrorKind::InvalidArg);
    assert_eq!(e.message(), "empty column");
    assert!(ErrorKind::InvalidArg != ErrorKind::DecompFailure);
}

#[test]
fn solve_with_fractional_solution() {
    // 2x = 1 and x + 2y = 2: x = 1/2, y = 3/4.
    let a = mat_from(2, 2, &[2, 0, 1, 2]);
    let y = vec_from(&[1, 2]);
    let x = a.solve(&y).unwrap();
    assert!(x.get(0).eq_val(&Rat::from_frac(1, 2)));
    assert!(x.get(1).eq_val(&Rat::from_frac(3, 4)));
}

#[test]
fn inverse_of_hilbert_matrix_is_exact() {
    // The 3-by-3 Hilbert matrix has the integer inverse
    // [[9, -36, 30], [-36, 192, -180], [30, -180, 180]].
    let mut data: Vec<Rat> = Vec::new();
    for i in 0..3i64 {
        for j in 0..3i64 {
            data.push(Rat::from_frac(1, i + j + 1));
        }
    }
    let h = Mat::new(3, 3, data);
    let inv = h.inverse().unwrap();
    let expect = [[9, -36, 30], [-36, 192, -180], [30, -180, 180]];
    for i in 0..3 {
        for j in 0..3 {
            assert_entry_int(&inv, i, j, expect[i][j]);
        }
    }
}

#[test]
fn is_diag_detects_off_diagonal() {
    let d = mat_from(2, 2, &[4, 0, 0, 9]);
    let nd = mat_from(2, 2, &[4, 1, 0, 9]);
    assert!(d.is_diag());
    assert!(!nd.is_diag());
}
