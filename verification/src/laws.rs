//! Laws proved about the determinant's contract.
//!
//! The reconstruction laws — `L·U` denotes `P·A`, and `A·B` denotes the
//! identity for a returned inverse — are the `ensures` clauses of
//! `Mat::lup_decomp` and `Mat::inverse` themselves. The two lemmas here
//! state what the determinant's contract yields on scalar multiples of the
//! identity and on singular diagonal matrices.

use vstd::prelude::*;
use crate::rational::{
    qwf, qeq, qzero, qone, qadd, qneg, qmul, qsub, qsum, seq_qwf,
    lemma_qmul_congr, lemma_qwf_qmul, lemma_qwf_qadd, lemma_qeq_trans,
    lemma_qadd_comm, lemma_qadd_congr, lemma_qadd_zero, lemma_qadd_exchange,
    lemma_qadd_zero_cancel, lemma_qmul_zero_factor, lemma_qmul_zero,
    lemma_qmul_comm, lemma_qmul_dist, lemma_qmul_rearrange, lemma_qmul_one,
    lemma_qneg_congr, lemma_qneg_qadd, lemma_qneg_qmul, lemma_qadd_neg_self,
    lemma_qsub_zero_iff, lemma_qsum_zero_beyond, lemma_qsum_wf,
    lemma_qsum_collapse,
};
use crate::matrix::{
    Mat, mm_at, mv_at, ident_at, is_perm_matrix, is_unit_lower_triangular,
    is_upper_triangular, lemma_at_wf, lemma_mv_wf,
};
use crate::lup::lemma_mm_wf;
use crate::substitution::{mv_prefix, mv_suffix};
use crate::solve::{
    lemma_lower_full_row, lemma_upper_full_row, lemma_lu_row_action,
    lemma_mv_composition, lemma_mv_sub,
};
use crate::det::{diag_prod, det2_spec};

verus! {

/// `c` multiplied with itself `k` times.
pub open spec fn qpow(c: (int, int), k: int) -> (int, int)
    decreases k,
{
    if k <= 0 {
        qone()
    } else {
        qmul(qpow(c, k - 1), c)
    }
}

/// For every scalar multiple of the identity, the determinant denotes the
/// scalar raised to the dimension: such a matrix is diagonal, and its
/// diagonal product — which `Mat::det` returns on diagonal matrices —
/// denotes `c^n`.
pub proof fn lemma_det_scalar_identity(m: Mat, c: (int, int))
    requires
        m.wf(),
        m.is_square(),
        qwf(c),
        forall|i: int| 0 <= i < m.rows as int ==> qeq(#[trigger] m.at(i, i), c),
        forall|i: int, j: int| m.in_range(i, j) && i != j ==> (#[trigger] m.at(i, j)).0 == 0,
    ensures
        m.is_diag_spec(),
        qeq(diag_prod(m, m.rows as int), qpow(c, m.rows as int)),
{
    lemma_diag_prod_pow(m, c, m.rows as int);
}

proof fn lemma_diag_prod_pow(m: Mat, c: (int, int), k: int)
    requires
        m.wf(),
        m.is_square(),
        qwf(c),
        0 <= k <= m.rows as int,
        forall|i: int| 0 <= i < m.rows as int ==> qeq(#[trigger] m.at(i, i), c),
    ensures
        qeq(diag_prod(m, k), qpow(c, k)),
        qwf(diag_prod(m, k)),
        qwf(qpow(c, k)),
    decreases k,
{
    if k <= 0 {
    } else {
        lemma_diag_prod_pow(m, c, k - 1);
        lemma_at_wf(m, k - 1, k - 1);
        lemma_qmul_congr(diag_prod(m, k - 1), m.at(k - 1, k - 1), qpow(c, k - 1), c);
        lemma_qwf_qmul(diag_prod(m, k - 1), m.at(k - 1, k - 1));
        lemma_qwf_qmul(qpow(c, k - 1), c);
    }
}

/// For every diagonal matrix with a zero on its diagonal — a singular
/// matrix — the determinant denotes zero: the diagonal product that
/// `Mat::det` returns on diagonal matrices has a zero numerator.
pub proof fn lemma_det_diag_singular(m: Mat, z: int)
    requires
        m.wf(),
        m.is_square(),
        0 <= z < m.rows as int,
        m.at(z, z).0 == 0,
    ensures
        qeq(diag_prod(m, m.rows as int), qzero()),
{
    lemma_diag_prod_zero(m, z, m.rows as int);
}

proof fn lemma_diag_prod_zero(m: Mat, z: int, k: int)
    requires
        0 <= z < k,
        m.at(z, z).0 == 0,
    ensures
        diag_prod(m, k).0 == 0,
    decreases k,
{
    if k - 1 == z {
        assert(diag_prod(m, k).0 == diag_prod(m, k - 1).0 * 0);
    } else {
        lemma_diag_prod_zero(m, z, k - 1);
        assert(diag_prod(m, k).0 == 0 * m.at(k - 1, k - 1).0);
    }
}

/// Row combination behind the 2-by-2 determinant: `d` times the first row
/// action minus `b` times the second denotes the determinant times the
/// first unknown.
#[verifier::rlimit(100)]
proof fn lemma_det2_action(a: (int, int), b: (int, int), c: (int, int), d: (int, int),
        y1: (int, int), y2: (int, int))
    requires
        qwf(a),
        qwf(b),
        qwf(c),
        qwf(d),
        qwf(y1),
        qwf(y2),
    ensures
        qeq(qsub(qmul(d, qadd(qmul(a, y1), qmul(b, y2))),
                qmul(b, qadd(qmul(c, y1), qmul(d, y2)))),
            qmul(qsub(qmul(a, d), qmul(b, c)), y1)),
{
    let r1 = qadd(qmul(a, y1), qmul(b, y2));
    let r2 = qadd(qmul(c, y1), qmul(d, y2));
    let w = qmul(qmul(a, d), y1);
    let x = qmul(qmul(b, d), y2);
    let y = qneg(qmul(qmul(b, c), y1));
    let z = qneg(qmul(qmul(b, d), y2));
    // d * r1 denotes w + x.
    lemma_qmul_comm(d, r1);
    lemma_qmul_dist(d, qmul(a, y1), qmul(b, y2));
    lemma_qmul_rearrange(a, y1, d);
    lemma_qmul_comm(d, a);
    lemma_qmul_rearrange(b, y2, d);
    lemma_qmul_comm(d, b);
    assert(qeq(qmul(d, r1), qadd(w, x)));
    // b * r2 denotes (b c) y1 + (b d) y2.
    lemma_qmul_comm(b, r2);
    lemma_qmul_dist(b, qmul(c, y1), qmul(d, y2));
    lemma_qmul_rearrange(c, y1, b);
    lemma_qmul_comm(b, c);
    lemma_qmul_rearrange(d, y2, b);
    lemma_qmul_comm(b, d);
    let q = qadd(qmul(qmul(b, c), y1), qmul(qmul(b, d), y2));
    assert(qeq(qmul(b, r2), q));
    // Well-formedness of the pieces.
    lemma_qwf_qmul(a, y1);
    lemma_qwf_qmul(b, y2);
    lemma_qwf_qmul(c, y1);
    lemma_qwf_qmul(d, y2);
    lemma_qwf_qadd(qmul(a, y1), qmul(b, y2));
    lemma_qwf_qadd(qmul(c, y1), qmul(d, y2));
    lemma_qwf_qmul(d, r1);
    lemma_qwf_qmul(b, r2);
    lemma_qwf_qmul(a, d);
    lemma_qwf_qmul(b, c);
    lemma_qwf_qmul(b, d);
    lemma_qwf_qmul(qmul(a, d), y1);
    lemma_qwf_qmul(qmul(b, d), y2);
    lemma_qwf_qmul(qmul(b, c), y1);
    lemma_qwf_qadd(w, x);
    // The subtraction, rebracketed.
    lemma_qneg_congr(qmul(b, r2), q);
    lemma_qneg_qadd(qmul(qmul(b, c), y1), qmul(qmul(b, d), y2));
    lemma_qadd_congr(qmul(d, r1), qneg(qmul(b, r2)), qadd(w, x), qadd(y, z));
    lemma_qadd_exchange(w, x, y, z);
    // The second column cancels.
    lemma_qadd_neg_self(qmul(qmul(b, d), y2));
    lemma_qwf_qadd(w, y);
    assert(qwf(qadd(x, z))) by {
        lemma_qwf_qadd(qmul(qmul(b, d), y2), qneg(qmul(qmul(b, d), y2)));
    }
    assert(qeq(qadd(qadd(w, y), qadd(x, z)), qadd(w, y))) by {
        lemma_qadd_zero(qadd(w, y), qadd(x, z));
    }
    // The first column denotes the determinant action.
    lemma_qneg_qmul(qmul(b, c), y1);
    lemma_qmul_comm(qsub(qmul(a, d), qmul(b, c)), y1);
    lemma_qmul_dist(y1, qmul(a, d), qneg(qmul(b, c)));
    assert(qeq(qmul(qsub(qmul(a, d), qmul(b, c)), y1), qadd(w, y)));
    // Chain the pieces together.
    let lhs = qsub(qmul(d, r1), qmul(b, r2));
    lemma_qwf_qadd(qmul(d, r1), qneg(qmul(b, r2)));
    lemma_qwf_qadd(y, z);
    lemma_qwf_qadd(qadd(w, x), qadd(y, z));
    lemma_qeq_trans(lhs, qadd(qadd(w, x), qadd(y, z)), qadd(w, y));
    assert(qwf(qsub(qmul(a, d), qmul(b, c)))) by {
        lemma_qwf_qadd(qmul(a, d), qneg(qmul(b, c)));
    }
    lemma_qwf_qmul(qsub(qmul(a, d), qmul(b, c)), y1);
    lemma_qeq_trans(lhs, qadd(w, y), qmul(qsub(qmul(a, d), qmul(b, c)), y1));
}

/// A singular 2-by-2 matrix — one whose rows map some nonzero pair of
/// unknowns to zero — has a determinant formula that denotes zero.
#[verifier::rlimit(100)]
pub proof fn lemma_det2_singular(m: Mat, x1: (int, int), x2: (int, int))
    requires
        m.wf(),
        m.rows == 2,
        m.cols == 2,
        qwf(x1),
        qwf(x2),
        qeq(qadd(qmul(m.at(0, 0), x1), qmul(m.at(0, 1), x2)), qzero()),
        qeq(qadd(qmul(m.at(1, 0), x1), qmul(m.at(1, 1), x2)), qzero()),
        !(x1.0 == 0 && x2.0 == 0),
    ensures
        qeq(det2_spec(m), qzero()),
{
    let a = m.at(0, 0);
    let b = m.at(0, 1);
    let c = m.at(1, 0);
    let d = m.at(1, 1);
    lemma_at_wf(m, 0, 0);
    lemma_at_wf(m, 0, 1);
    lemma_at_wf(m, 1, 0);
    lemma_at_wf(m, 1, 1);
    let r1 = qadd(qmul(a, x1), qmul(b, x2));
    let r2 = qadd(qmul(c, x1), qmul(d, x2));
    let det = qsub(qmul(a, d), qmul(b, c));
    lemma_qwf_qmul(a, x1);
    lemma_qwf_qmul(b, x2);
    lemma_qwf_qmul(c, x1);
    lemma_qwf_qmul(d, x2);
    lemma_qwf_qadd(qmul(a, x1), qmul(b, x2));
    lemma_qwf_qadd(qmul(c, x1), qmul(d, x2));
    if x1.0 != 0 {
        lemma_det2_action(a, b, c, d, x1, x2);
        lemma_qmul_zero(d, r1);
        lemma_qmul_zero(b, r2);
        assert(qeq(qneg(qmul(b, r2)), qzero()));
        assert(qeq(qadd(qmul(d, r1), qneg(qmul(b, r2))), qzero())) by {
            assert(qmul(d, r1).0 == 0);
            assert(qneg(qmul(b, r2)).0 == 0);
        }
        lemma_qwf_qmul(d, r1);
        lemma_qwf_qmul(b, r2);
        lemma_qwf_qadd(qmul(d, r1), qneg(qmul(b, r2)));
        lemma_qeq_trans(qmul(det, x1), qsub(qmul(d, r1), qmul(b, r2)), qzero());
        assert(det.0 * x1.0 == 0) by (nonlinear_arith)
            requires
                (det.0 * x1.0) * 1 == 0 * (det.1 * x1.1);
        assert(det.0 == 0) by (nonlinear_arith)
            requires
                det.0 * x1.0 == 0,
                x1.0 != 0;
    } else {
        lemma_det2_action(d, c, b, a, x2, x1);
        lemma_qadd_comm(qmul(d, x2), qmul(c, x1));
        lemma_qadd_comm(qmul(b, x2), qmul(a, x1));
        lemma_qmul_comm(d, a);
        lemma_qmul_comm(c, b);
        assert(qsub(qmul(d, a), qmul(c, b)) == det);
        lemma_qmul_zero(a, r2);
        lemma_qmul_zero(c, r1);
        assert(qeq(qadd(qmul(a, r2), qneg(qmul(c, r1))), qzero())) by {
            assert(qmul(a, r2).0 == 0);
            assert(qmul(c, r1).0 == 0);
            assert(qneg(qmul(c, r1)).0 == 0);
        }
        lemma_qwf_qmul(a, r2);
        lemma_qwf_qmul(c, r1);
        lemma_qwf_qadd(qmul(a, r2), qneg(qmul(c, r1)));
        lemma_qeq_trans(qmul(det, x2), qsub(qmul(a, r2), qmul(c, r1)), qzero());
        assert(det.0 * x2.0 == 0) by (nonlinear_arith)
            requires
                (det.0 * x2.0) * 1 == 0 * (det.1 * x2.1);
        assert(det.0 == 0) by (nonlinear_arith)
            requires
                det.0 * x2.0 == 0,
                x2.0 != 0;
    }
    assert(det2_spec(m).0 == 0);
}

/// Every position of a unit lower triangular homogeneous solution before
/// `i` denotes zero: forward elimination, one row at a time.
proof fn lemma_lower_zero_prefix(l: Mat, y: Seq<(int, int)>, i: int)
    requires
        l.wf(),
        l.is_square(),
        is_unit_lower_triangular(l),
        seq_qwf(y),
        y.len() == l.rows as int,
        forall|r: int| 0 <= r < l.rows as int ==> qeq(#[trigger] mv_at(l, y, r), qzero()),
        0 <= i <= l.rows as int,
    ensures
        forall|k: int| 0 <= k < i ==> qeq(#[trigger] y[k], qzero()),
    decreases i,
{
    if i > 0 {
        lemma_lower_zero_prefix(l, y, i - 1);
        let r = i - 1;
        lemma_lower_full_row(l, y, r);
        let pfx = Seq::new(r as nat, |t: int| qmul(l.at(r, t), y[t]));
        assert forall|t: int| 0 <= t < pfx.len() implies qwf(#[trigger] pfx[t]) by {
            lemma_at_wf(l, r, t);
            lemma_qwf_qmul(l.at(r, t), y[t]);
        }
        assert forall|t: int| 0 <= t < pfx.len() implies qeq(#[trigger] pfx[t], qzero()) by {
            assert(y[t].0 == 0);
            assert(pfx[t].0 == l.at(r, t).0 * 0);
        }
        lemma_qsum_zero_beyond(pfx, 0);
        assert(pfx.take(0) =~= Seq::<(int, int)>::empty());
        lemma_qsum_wf(pfx);
        lemma_at_wf(l, r, r);
        lemma_qwf_qmul(l.at(r, r), y[r]);
        lemma_mv_wf(l, y, r);
        lemma_qeq_trans(qadd(mv_prefix(l, y, r, r), qmul(l.at(r, r), y[r])),
            mv_at(l, y, r), qzero());
        lemma_qadd_zero_cancel(mv_prefix(l, y, r, r), qmul(l.at(r, r), y[r]));
        assert(qeq(l.at(r, r), qone()));
        assert(l.at(r, r).0 == l.at(r, r).1) by (nonlinear_arith)
            requires
                l.at(r, r).0 * 1 == 1 * l.at(r, r).1;
        lemma_qmul_zero_factor(l.at(r, r), y[r]);
    }
}

/// Every position of an upper triangular homogeneous solution from `i` on
/// denotes zero: backward elimination, one row at a time.
proof fn lemma_upper_zero_suffix(u: Mat, x: Seq<(int, int)>, i: int)
    requires
        u.wf(),
        u.is_square(),
        is_upper_triangular(u),
        forall|c: int| 0 <= c < u.rows as int ==> (#[trigger] u.at(c, c)).0 != 0,
        seq_qwf(x),
        x.len() == u.rows as int,
        forall|r: int| 0 <= r < u.rows as int ==> qeq(#[trigger] mv_at(u, x, r), qzero()),
        0 <= i <= u.rows as int,
    ensures
        forall|k: int| i <= k < u.rows as int ==> qeq(#[trigger] x[k], qzero()),
    decreases u.rows as int - i,
{
    let n = u.rows as int;
    if i < n {
        lemma_upper_zero_suffix(u, x, i + 1);
        lemma_upper_full_row(u, x, i);
        let sfx = Seq::new((u.cols - (i + 1)) as nat,
            |t: int| qmul(u.at(i, i + 1 + t), x[i + 1 + t]));
        assert forall|t: int| 0 <= t < sfx.len() implies qwf(#[trigger] sfx[t]) by {
            lemma_at_wf(u, i, i + 1 + t);
            lemma_qwf_qmul(u.at(i, i + 1 + t), x[i + 1 + t]);
        }
        assert forall|t: int| 0 <= t < sfx.len() implies qeq(#[trigger] sfx[t], qzero()) by {
            assert(x[i + 1 + t].0 == 0);
            assert(sfx[t].0 == u.at(i, i + 1 + t).0 * 0);
        }
        lemma_qsum_zero_beyond(sfx, 0);
        assert(sfx.take(0) =~= Seq::<(int, int)>::empty());
        lemma_qsum_wf(sfx);
        lemma_at_wf(u, i, i);
        lemma_qwf_qmul(u.at(i, i), x[i]);
        lemma_mv_wf(u, x, i);
        lemma_qadd_comm(qmul(u.at(i, i), x[i]), mv_suffix(u, x, i, i + 1));
        lemma_qeq_trans(qadd(mv_suffix(u, x, i, i + 1), qmul(u.at(i, i), x[i])),
            mv_at(u, x, i), qzero());
        lemma_qadd_zero_cancel(mv_suffix(u, x, i, i + 1), qmul(u.at(i, i), x[i]));
        lemma_qmul_zero_factor(u.at(i, i), x[i]);
    }
}

/// A matrix with a successful LUP factorization is nonsingular: the only
/// vector it maps to zero, row by row, is the zero vector. In particular,
/// with exact arithmetic no singular matrix ever reaches the signed
/// diagonal product of the determinant's factorization path.
pub proof fn lemma_factorable_is_nonsingular(a: Mat, l: Mat, u: Mat, p: Mat, pi: Seq<int>,
        xv: Seq<(int, int)>)
    requires
        a.wf(),
        l.wf(),
        u.wf(),
        p.wf(),
        a.is_square(),
        l.rows == a.rows,
        l.cols == a.rows,
        u.rows == a.rows,
        u.cols == a.rows,
        p.rows == a.rows,
        p.cols == a.rows,
        is_perm_matrix(p, pi),
        is_unit_lower_triangular(l),
        is_upper_triangular(u),
        forall|c: int| 0 <= c < a.rows as int ==> (#[trigger] u.at(c, c)).0 != 0,
        forall|r: int, c: int| a.in_range(r, c)
            ==> qeq(#[trigger] mm_at(l, u, r, c), mm_at(p, a, r, c)),
        seq_qwf(xv),
        xv.len() == a.rows as int,
        forall|r: int| 0 <= r < a.rows as int ==> qeq(#[trigger] mv_at(a, xv, r), qzero()),
    ensures
        forall|k: int| 0 <= k < a.rows as int ==> qeq(#[trigger] xv[k], qzero()),
{
    let n = a.rows as int;
    let zv = Seq::new(a.rows as nat, |k: int| mv_at(u, xv, k));
    assert forall|k: int| 0 <= k < zv.len() implies qwf(#[trigger] zv[k]) by {
        lemma_mv_wf(u, xv, k);
    }
    assert forall|i: int| 0 <= i < n implies qeq(#[trigger] mv_at(l, zv, i), qzero()) by {
        lemma_lu_row_action(a, l, u, p, pi, xv, i);
        let lbig = Seq::new(a.rows as nat, |k: int| qmul(l.at(i, k), mv_at(u, xv, k)));
        assert(Seq::new(l.cols as nat, |k: int| qmul(l.at(i, k), zv[k])) =~= lbig);
        lemma_mv_wf(a, xv, pi[i]);
        lemma_qeq_trans(mv_at(l, zv, i), mv_at(a, xv, pi[i]), qzero());
    }
    lemma_lower_zero_prefix(l, zv, n);
    assert forall|r: int| 0 <= r < n implies qeq(#[trigger] mv_at(u, xv, r), qzero()) by {
        assert(qeq(zv[r], qzero()));
    }
    lemma_upper_zero_suffix(u, xv, 0);
}

/// A right inverse obtained through the factorization is also a left
/// inverse: with `A·B` denoting the identity and a factorization of `A`,
/// `B·A` denotes the identity too, because `A` is nonsingular.
#[verifier::rlimit(100)]
pub proof fn lemma_left_inverse(a: Mat, b: Mat, l: Mat, u: Mat, p: Mat, pi: Seq<int>)
    requires
        a.wf(),
        b.wf(),
        l.wf(),
        u.wf(),
        p.wf(),
        a.is_square(),
        b.rows == a.rows,
        b.cols == a.rows,
        l.rows == a.rows,
        l.cols == a.rows,
        u.rows == a.rows,
        u.cols == a.rows,
        p.rows == a.rows,
        p.cols == a.rows,
        is_perm_matrix(p, pi),
        is_unit_lower_triangular(l),
        is_upper_triangular(u),
        forall|c: int| 0 <= c < a.rows as int ==> (#[trigger] u.at(c, c)).0 != 0,
        forall|r: int, c: int| a.in_range(r, c)
            ==> qeq(#[trigger] mm_at(l, u, r, c), mm_at(p, a, r, c)),
        forall|i: int, j: int| a.in_range(i, j)
            ==> qeq(#[trigger] mm_at(a, b, i, j), ident_at(i, j)),
    ensures
        forall|i: int, j: int| a.in_range(i, j)
            ==> qeq(#[trigger] mm_at(b, a, i, j), ident_at(i, j)),
{
    let n = a.rows as int;
    assert forall|i: int, j: int| a.in_range(i, j) implies
        qeq(#[trigger] mm_at(b, a, i, j), ident_at(i, j)) by {
        // Column j of A, and its image under B.
        let w = Seq::new(a.rows as nat, |k: int| a.at(k, j));
        assert forall|k: int| 0 <= k < w.len() implies qwf(#[trigger] w[k]) by {
            lemma_at_wf(a, k, j);
        }
        let vj = Seq::new(a.rows as nat, |t: int| mv_at(b, w, t));
        assert forall|k: int| 0 <= k < vj.len() implies qwf(#[trigger] vj[k]) by {
            lemma_mv_wf(b, w, k);
        }
        let ej = Seq::new(a.rows as nat, |k: int| ident_at(k, j));
        assert forall|k: int| 0 <= k < ej.len() implies qwf(#[trigger] ej[k]) by {}
        // A applied to B's image of the column gives the column back.
        assert forall|r: int| 0 <= r < n implies qeq(#[trigger] mv_at(a, vj, r), w[r]) by {
            lemma_mv_composition(a, b, w, r);
            assert(Seq::new(a.cols as nat, |k: int| qmul(a.at(r, k), vj[k]))
                =~= Seq::new(a.rows as nat, |k: int| qmul(a.at(r, k), mv_at(b, w, k))));
            let abterms = Seq::new(a.rows as nat, |t: int| qmul(mm_at(a, b, r, t), w[t]));
            assert forall|t: int| 0 <= t < abterms.len() implies
                qwf(#[trigger] abterms[t]) by {
                lemma_mm_wf(a, b, r, t);
                lemma_qwf_qmul(mm_at(a, b, r, t), w[t]);
            }
            assert forall|t: int| 0 <= t < n && t != r implies
                qeq(#[trigger] abterms[t], qzero()) by {
                assert(qeq(mm_at(a, b, r, t), qzero()));
                assert(mm_at(a, b, r, t).0 == 0);
                assert(abterms[t].0 == 0 * w[t].0);
            }
            lemma_qsum_collapse(abterms, r);
            lemma_qmul_congr(mm_at(a, b, r, r), w[r], qone(), w[r]);
            lemma_qmul_one(w[r], qone());
            lemma_mm_wf(a, b, r, r);
            lemma_qwf_qmul(mm_at(a, b, r, r), w[r]);
            lemma_qwf_qmul(qone(), w[r]);
            lemma_qeq_trans(abterms[r], qmul(qone(), w[r]), w[r]);
            lemma_qsum_wf(abterms);
            lemma_qeq_trans(qsum(abterms), abterms[r], w[r]);
            lemma_qeq_trans(mv_at(a, vj, r), qsum(abterms), w[r]);
        }
        // A applied to the identity column gives the column as well.
        assert forall|r: int| 0 <= r < n implies qeq(#[trigger] mv_at(a, ej, r), w[r]) by {
            let eterms = Seq::new(a.cols as nat, |k: int| qmul(a.at(r, k), ej[k]));
            assert forall|t: int| 0 <= t < eterms.len() implies
                qwf(#[trigger] eterms[t]) by {
                lemma_at_wf(a, r, t);
                lemma_qwf_qmul(a.at(r, t), ej[t]);
            }
            assert forall|t: int| 0 <= t < n && t != j implies
                qeq(#[trigger] eterms[t], qzero()) by {
                assert(eterms[t].0 == a.at(r, t).0 * 0);
            }
            lemma_qsum_collapse(eterms, j);
            lemma_at_wf(a, r, j);
            lemma_qmul_one(a.at(r, j), qone());
            lemma_qwf_qmul(a.at(r, j), qone());
            lemma_qeq_trans(qsum(eterms), eterms[j], w[r]);
        }
        // Their difference solves the homogeneous system, so it is zero.
        let dv = Seq::new(vj.len(), |k: int| qsub(vj[k], ej[k]));
        assert forall|k: int| 0 <= k < dv.len() implies qwf(#[trigger] dv[k]) by {
            lemma_qwf_qadd(vj[k], qneg(ej[k]));
        }
        assert forall|r: int| 0 <= r < n implies qeq(#[trigger] mv_at(a, dv, r), qzero()) by {
            lemma_mv_sub(a, vj, ej, r);
            lemma_mv_wf(a, vj, r);
            lemma_mv_wf(a, ej, r);
            lemma_qeq_trans(mv_at(a, vj, r), w[r], mv_at(a, ej, r));
            lemma_qsub_zero_iff(mv_at(a, vj, r), mv_at(a, ej, r));
            lemma_qwf_qadd(mv_at(a, vj, r), qneg(mv_at(a, ej, r)));
            lemma_qeq_trans(mv_at(a, dv, r),
                qsub(mv_at(a, vj, r), mv_at(a, ej, r)), qzero());
        }
        lemma_factorable_is_nonsingular(a, l, u, p, pi, dv);
        assert(qeq(dv[i], qzero()));
        lemma_qsub_zero_iff(vj[i], ej[i]);
        assert(Seq::new(b.cols as nat, |t: int| qmul(b.at(i, t), a.at(t, j)))
            =~= Seq::new(b.cols as nat, |t: int| qmul(b.at(i, t), w[t])));
        assert(mm_at(b, a, i, j) == vj[i]);
    }
}

} // verus!
