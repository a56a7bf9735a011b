//! The determinant.
//!
//! Diagonal matrices short-circuit to the product of the diagonal, 2-by-2
//! and 3-by-3 matrices to their closed formulas; everything else goes
//! through the LUP factorization, multiplying the diagonals of both factors
//! and applying the permutation's sign, the parity of its inversion count.

use vstd::prelude::*;
use crate::rational::{
    Rat, qeq, qzero, qone, qadd, qmul, qsub, lemma_qeq_trans,
};
use crate::matrix::{
    Mat, mm_at, is_perm_matrix, is_perm_seq, is_unit_lower_triangular,
    is_upper_triangular, perm_view, lemma_at_wf,
};
use crate::lup::{lemma_perm_mm, lemma_mm_wf, lup_ok};
use crate::error::{Error, ErrorKind};

verus! {

// ---------------------------------------------------------------------------
// Specification values.
// ---------------------------------------------------------------------------

/// Product of the first `k` diagonal entries of `m`.
pub open spec fn diag_prod(m: Mat, k: int) -> (int, int)
    decreases k,
{
    if k <= 0 {
        qone()
    } else {
        qmul(diag_prod(m, k - 1), m.at(k - 1, k - 1))
    }
}

/// Product of the first `k` diagonal entries of `l` and `u`, interleaved
/// the way the executable loop multiplies them.
pub open spec fn lu_diag_prod(l: Mat, u: Mat, k: int) -> (int, int)
    decreases k,
{
    if k <= 0 {
        qone()
    } else {
        qmul(qmul(lu_diag_prod(l, u, k - 1), l.at(k - 1, k - 1)), u.at(k - 1, k - 1))
    }
}

/// The closed 2-by-2 determinant, in the order the code computes it.
pub open spec fn det2_spec(m: Mat) -> (int, int) {
    qsub(qmul(m.at(0, 0), m.at(1, 1)), qmul(m.at(0, 1), m.at(1, 0)))
}

/// The closed 3-by-3 determinant, in the order the code computes it.
pub open spec fn det3_spec(m: Mat) -> (int, int) {
    qsub(
        qsub(
            qsub(
                qadd(
                    qadd(
                        qmul(qmul(m.at(0, 0), m.at(1, 1)), m.at(2, 2)),
                        qmul(qmul(m.at(0, 1), m.at(1, 2)), m.at(2, 0)),
                    ),
                    qmul(qmul(m.at(0, 2), m.at(1, 0)), m.at(2, 1)),
                ),
                qmul(qmul(m.at(0, 0), m.at(1, 2)), m.at(2, 1)),
            ),
            qmul(qmul(m.at(0, 1), m.at(1, 0)), m.at(2, 2)),
        ),
        qmul(qmul(m.at(0, 2), m.at(1, 1)), m.at(2, 0)),
    )
}

/// Inversions of position `i` against positions from `j` on.
pub open spec fn inv_in_row(p: Seq<int>, i: int, j: int) -> int
    decreases p.len() - j,
{
    if j < 0 || j >= p.len() {
        0
    } else {
        (if p[i] > p[j] { 1int } else { 0int }) + inv_in_row(p, i, j + 1)
    }
}

/// Number of inversions of `p` among positions from `i` on.
pub open spec fn inv_count(p: Seq<int>, i: int) -> int
    decreases p.len() - i,
{
    if i < 0 || i >= p.len() {
        0
    } else {
        inv_in_row(p, i, i + 1) + inv_count(p, i + 1)
    }
}

/// The sign of a permutation: one for an even number of inversions, minus
/// one for an odd number.
pub open spec fn perm_sign(p: Seq<int>) -> (int, int) {
    if inv_count(p, 0) % 2 == 0 {
        qone()
    } else {
        (-1int, 1int)
    }
}

/// `d` denotes the determinant read off some LUP factorization of `a`:
/// the sign of the permutation times the product of the factor diagonals.
pub open spec fn det_of_factors(a: Mat, d: (int, int)) -> bool {
    exists|l: Mat, u: Mat, pi: Seq<int>|
        #![trigger is_unit_lower_triangular(l), is_upper_triangular(u), is_perm_seq(pi, a.rows as int)]
        {
        &&& l.rows == a.rows && l.cols == a.rows && u.rows == a.rows && u.cols == a.rows
        &&& l.wf() && u.wf()
        &&& is_unit_lower_triangular(l)
        &&& is_upper_triangular(u)
        &&& is_perm_seq(pi, a.rows as int)
        &&& (forall|c: int| 0 <= c < a.rows as int ==> (#[trigger] u.at(c, c)).0 != 0)
        &&& (forall|r: int, c: int| a.in_range(r, c)
                ==> qeq(#[trigger] mm_at(l, u, r, c), a.at(pi[r], c)))
        &&& qeq(d, qmul(perm_sign(pi), lu_diag_prod(l, u, a.rows as int)))
    }
}

// ---------------------------------------------------------------------------
// Inversion counts are small enough to count in a machine word.
// ---------------------------------------------------------------------------

proof fn lemma_inv_in_row_bounds(p: Seq<int>, i: int, j: int)
    ensures
        0 <= inv_in_row(p, i, j),
        inv_in_row(p, i, j) <= p.len(),
        0 <= j <= p.len() ==> inv_in_row(p, i, j) <= p.len() - j,
    decreases p.len() - j,
{
    if j < 0 || j >= p.len() {
    } else {
        lemma_inv_in_row_bounds(p, i, j + 1);
    }
}

proof fn lemma_inv_count_bounds(p: Seq<int>)
    ensures
        0 <= inv_count(p, 0),
        inv_count(p, 0) <= p.len() * p.len(),
{
    lemma_inv_count_row_bound(p, 0);
    assert((p.len() - 0) * p.len() == p.len() * p.len());
}

proof fn lemma_inv_count_row_bound(p: Seq<int>, i: int)
    ensures
        0 <= i <= p.len() ==> inv_count(p, i) <= (p.len() - i) * p.len(),
        inv_count(p, i) >= 0,
    decreases p.len() - i,
{
    if i < 0 || i >= p.len() {
        if 0 <= i <= p.len() {
            assert((p.len() - i) * p.len() == 0) by (nonlinear_arith)
                requires i == p.len();
        }
    } else {
        lemma_inv_count_row_bound(p, i + 1);
        lemma_inv_in_row_bounds(p, i, i + 1);
        assert((p.len() - i) * p.len() == (p.len() - (i + 1)) * p.len() + p.len())
            by (nonlinear_arith);
    }
}

/// A permutation matrix encodes exactly one permutation.
proof fn lemma_perm_unique(p: Mat, pi1: Seq<int>, pi2: Seq<int>)
    requires
        is_perm_matrix(p, pi1),
        is_perm_matrix(p, pi2),
    ensures
        pi1 == pi2,
{
    assert forall|i: int| 0 <= i < pi1.len() implies #[trigger] pi1[i] == pi2[i] by {
        if pi1[i] != pi2[i] {
            assert(p.at(i, pi1[i]) == qone());
            assert(p.at(i, pi1[i]) == qzero());
        }
    }
    assert(pi1 =~= pi2);
}

// ---------------------------------------------------------------------------
// Recovering the permutation and its parity.
// ---------------------------------------------------------------------------

/// Reads the permutation back off a permutation matrix: the column of the
/// one in each row.
fn perm_of_matrix(p: &Mat) -> (perm: Vec<usize>)
    requires
        p.wf(),
        p.is_square(),
        exists|pi: Seq<int>| is_perm_matrix(*p, pi),
    ensures
        perm@.len() == p.rows as int,
        is_perm_matrix(*p, perm_view(perm@)),
{
    let ghost pi = choose|pi: Seq<int>| is_perm_matrix(*p, pi);
    let n = p.rows;
    let mut perm: Vec<usize> = Vec::new();
    let mut r: usize = 0;
    while r < n
        invariant
            r <= n,
            p.wf(),
            p.rows == n,
            p.cols == n,
            is_perm_matrix(*p, pi),
            perm@.len() == r as int,
            forall|t: int| 0 <= t < r as int ==> #[trigger] perm@[t] as int == pi[t],
        decreases n - r,
    {
        let mut col: usize = 0;
        let mut c: usize = 0;
        while c < n
            invariant
                c <= n,
                p.wf(),
                p.rows == n,
                p.cols == n,
                r < n,
                is_perm_matrix(*p, pi),
                col < n,
                pi[r as int] < c as int ==> col as int == pi[r as int],
            decreases n - c,
        {
            if !p.get(r, c).is_zero() {
                proof {
                    assert(p.at(r as int, c as int) != qzero());
                    assert(c as int == pi[r as int]);
                }
                col = c;
            }
            c += 1;
        }
        perm.push(col);
        r += 1;
    }
    proof {
        assert(perm_view(perm@) =~= pi);
    }
    perm
}

/// The sign of the permutation a permutation matrix holds: one or minus
/// one, by the parity of the inversion count.
fn parity(p: &Mat) -> (sgn: Rat)
    requires
        p.wf(),
        p.is_square(),
        exists|pi: Seq<int>| is_perm_matrix(*p, pi),
    ensures
        sgn.wf(),
        forall|pi: Seq<int>| is_perm_matrix(*p, pi) ==> sgn.v() == perm_sign(pi),
{
    let perm = perm_of_matrix(p);
    let ghost piv = perm_view(perm@);
    let n = perm.len();
    let dlen = p.data.len();
    let mut count: usize = 0;
    let mut i: usize = 0;
    proof {
        lemma_inv_count_row_bound(piv, 0);
        lemma_inv_count_bounds(piv);
    }
    while i < n
        invariant
            i <= n,
            perm@.len() == n,
            piv == perm_view(perm@),
            piv.len() == n,
            (n as int) * (n as int) <= usize::MAX as int,
            count as int + inv_count(piv, i as int) == inv_count(piv, 0),
            count as int <= (n as int) * (n as int),
        decreases n - i,
    {
        let mut j: usize = i + 1;
        proof {
            lemma_inv_in_row_bounds(piv, i as int, i as int + 1);
            lemma_inv_count_row_bound(piv, i as int + 1);
            lemma_inv_count_row_bound(piv, i as int);
            lemma_inv_count_bounds(piv);
        }
        while j < n
            invariant
                i < n,
                i as int + 1 <= j as int <= n as int,
                perm@.len() == n,
                piv == perm_view(perm@),
                piv.len() == n,
                (n as int) * (n as int) <= usize::MAX as int,
                count as int + inv_in_row(piv, i as int, j as int) + inv_count(piv, i as int + 1)
                    == inv_count(piv, 0),
                count as int + inv_in_row(piv, i as int, j as int)
                    <= (n as int) * (n as int),
            decreases n - j,
        {
            if perm[j] < perm[i] {
                proof {
                    assert(piv[i as int] > piv[j as int]);
                    lemma_inv_in_row_bounds(piv, i as int, j as int + 1);
                }
                count += 1;
            }
            j += 1;
        }
        i += 1;
    }
    let sgn = if count % 2 == 0 {
        Rat::one()
    } else {
        Rat::from_int(-1)
    };
    proof {
        assert(inv_count(piv, n as int) == 0);
        assert(count as int == inv_count(piv, 0));
        assert forall|pi: Seq<int>| is_perm_matrix(*p, pi) implies sgn.v() == perm_sign(pi) by {
            lemma_perm_unique(*p, pi, piv);
        }
    }
    sgn
}

// ---------------------------------------------------------------------------
// The determinant.
// ---------------------------------------------------------------------------

impl Mat {
    /// The determinant: the product of the diagonal for diagonal matrices,
    /// the closed formulas for 2-by-2 and 3-by-3 matrices, and otherwise
    /// the signed product of the LUP factor diagonals. The last path
    /// fails, with `DecompFailure`, exactly when the factorization does.
    #[verifier::rlimit(100)]
    pub fn det(&self) -> (res: Result<Rat, Error>)
        requires
            self.wf(),
            self.is_square(),
        ensures
            self.is_diag_spec() ==> match res {
                Ok(d) => d.wf() && d.v() == diag_prod(*self, self.rows as int),
                Err(_) => false,
            },
            !self.is_diag_spec() && self.rows == 2 ==> match res {
                Ok(d) => d.wf() && d.v() == det2_spec(*self),
                Err(_) => false,
            },
            !self.is_diag_spec() && self.rows == 3 ==> match res {
                Ok(d) => d.wf() && d.v() == det3_spec(*self),
                Err(_) => false,
            },
            !self.is_diag_spec() && self.rows != 2 && self.rows != 3 ==> {
                &&& ((res is Ok) <==> lup_ok(*self))
                &&& match res {
                    Ok(d) => d.wf() && det_of_factors(*self, d.v()),
                    Err(e) => e.kind == ErrorKind::DecompFailure,
                }
            },
    {
        let n = self.rows;
        if self.is_diag() {
            let mut d = Rat::one();
            let mut t: usize = 0;
            while t < n
                invariant
                    t <= n,
                    self.wf(),
                    self.rows == n,
                    self.cols == n,
                    d.wf(),
                    d.v() == diag_prod(*self, t as int),
                decreases n - t,
            {
                d = d.mul(self.get(t, t));
                t += 1;
            }
            return Ok(d);
        }
        if n == 2 {
            let d = self.get(0, 0).mul(self.get(1, 1))
                .sub(&self.get(0, 1).mul(self.get(1, 0)));
            return Ok(d);
        }
        if n == 3 {
            let d = self.get(0, 0).mul(self.get(1, 1)).mul(self.get(2, 2))
                .add(&self.get(0, 1).mul(self.get(1, 2)).mul(self.get(2, 0)))
                .add(&self.get(0, 2).mul(self.get(1, 0)).mul(self.get(2, 1)))
                .sub(&self.get(0, 0).mul(self.get(1, 2)).mul(self.get(2, 1)))
                .sub(&self.get(0, 1).mul(self.get(1, 0)).mul(self.get(2, 2)))
                .sub(&self.get(0, 2).mul(self.get(1, 1)).mul(self.get(2, 0)));
            return Ok(d);
        }
        match self.lup_decomp() {
            Err(_) => Err(Error::new(ErrorKind::DecompFailure,
                "Could not compute LUP decomposition.")),
            Ok((l, u, p)) => {
                let mut d = Rat::one();
                let mut t: usize = 0;
                while t < n
                    invariant
                        t <= n,
                        l.rows == n,
                        l.cols == n,
                        u.rows == n,
                        u.cols == n,
                        l.wf(),
                        u.wf(),
                        d.wf(),
                        d.v() == lu_diag_prod(l, u, t as int),
                    decreases n - t,
                {
                    d = d.mul(l.get(t, t));
                    d = d.mul(u.get(t, t));
                    t += 1;
                }
                let sgn = parity(&p);
                let result = sgn.mul(&d);
                proof {
                    let pi = choose|pi: Seq<int>| is_perm_matrix(p, pi);
                    assert(sgn.v() == perm_sign(pi));
                    assert forall|r: int, c: int| self.in_range(r, c) implies
                        qeq(#[trigger] mm_at(l, u, r, c), self.at(pi[r], c)) by {
                        lemma_perm_mm(p, *self, pi, r, c);
                        lemma_mm_wf(p, *self, r, c);
                        lemma_at_wf(*self, pi[r], c);
                        lemma_qeq_trans(mm_at(l, u, r, c), mm_at(p, *self, r, c),
                            self.at(pi[r], c));
                    }
                    assert(is_perm_seq(pi, self.rows as int));
                    assert(is_unit_lower_triangular(l));
                    assert(is_upper_triangular(u));
                    assert(qeq(result.v(), qmul(perm_sign(pi), lu_diag_prod(l, u, n as int))));
                    assert(det_of_factors(*self, result.v()));
                }
                Ok(result)
            },
        }
    }
}

} // verus!
