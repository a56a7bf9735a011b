//! Dense matrices and vectors of exact rational scalars.
//!
//! A matrix is a row-major buffer whose length always equals `rows * cols`.
//! Specifications address entries through `at`, and matrix products through
//! `mm_at` / `mv_at`, finite sums over the specification model of the
//! scalars.

use vstd::prelude::*;
use crate::rational::{
    Rat, qwf, qeq, qzero, qone, qadd, qmul, qsum, seq_qwf,
    lemma_qsum_take_step, lemma_qwf_qmul,
};

verus! {

// ---------------------------------------------------------------------------
// Flat row-major indexing.
// ---------------------------------------------------------------------------

pub proof fn lemma_idx_bound(rows: int, cols: int, i: int, j: int)
    requires
        0 <= i < rows,
        0 <= j < cols,
    ensures
        0 <= i * cols + j,
        i * cols + j < rows * cols,
{
    assert(0 <= i * cols + j && i * cols + j < rows * cols) by (nonlinear_arith)
        requires
            0 <= i < rows,
            0 <= j < cols;
}

pub proof fn lemma_idx_inj(cols: int, i1: int, j1: int, i2: int, j2: int)
    requires
        0 <= j1 < cols,
        0 <= j2 < cols,
        0 <= i1,
        0 <= i2,
        i1 * cols + j1 == i2 * cols + j2,
    ensures
        i1 == i2,
        j1 == j2,
{
    assert(i1 == i2 && j1 == j2) by (nonlinear_arith)
        requires
            0 <= j1 < cols,
            0 <= j2 < cols,
            0 <= i1,
            0 <= i2,
            i1 * cols + j1 == i2 * cols + j2;
}

// ---------------------------------------------------------------------------
// The matrix type.
// ---------------------------------------------------------------------------


#[derive(Debug)]
pub struct Mat {
    pub rows: usize,
    pub cols: usize,
    pub data: Vec<Rat>,
}

impl Mat {
    pub open spec fn wf(self) -> bool {
        self.data@.len() == (self.rows as int) * (self.cols as int)
        && forall|k: int| 0 <= k < self.data@.len() ==> (#[trigger] self.data@[k]).wf()
    }

    /// The pair of integers stored at row `i`, column `j`.
    pub open spec fn at(self, i: int, j: int) -> (int, int) {
        self.data@[i * (self.cols as int) + j].v()
    }

    pub open spec fn in_range(self, i: int, j: int) -> bool {
        0 <= i < self.rows as int && 0 <= j < self.cols as int
    }

    pub open spec fn is_square(self) -> bool {
        self.rows == self.cols
    }

    pub fn new(rows: usize, cols: usize, data: Vec<Rat>) -> (r: Mat)
        requires
            data@.len() == (rows as int) * (cols as int),
            forall|k: int| 0 <= k < data@.len() ==> (#[trigger] data@[k]).wf(),
        ensures
            r.rows == rows,
            r.cols == cols,
            r.data == data,
            r.wf(),
    {
        Mat { rows, cols, data }
    }

    pub fn zeros(rows: usize, cols: usize) -> (r: Mat)
        requires
            (rows as int) * (cols as int) <= usize::MAX as int,
        ensures
            r.rows == rows,
            r.cols == cols,
            r.wf(),
            forall|i: int, j: int| r.in_range(i, j) ==> #[trigger] r.at(i, j) == qzero(),
    {
        proof {
            assert((rows as int) * (cols as int) >= 0) by (nonlinear_arith);
        }
        let total: usize = rows * cols;
        let mut data: Vec<Rat> = Vec::new();
        let mut k: usize = 0;
        while k < total
            invariant
                k <= total,
                data@.len() == k as int,
                forall|t: int| 0 <= t < k as int ==> (#[trigger] data@[t]).wf()
                    && data@[t].v() == qzero(),
            decreases total - k,
        {
            data.push(Rat::zero());
            k += 1;
        }
        let r = Mat { rows, cols, data };
        proof {
            assert forall|i: int, j: int| r.in_range(i, j) implies #[trigger] r.at(i, j)
                == qzero() by {
                lemma_idx_bound(rows as int, cols as int, i, j);
            }
        }
        r
    }

    pub fn identity(n: usize) -> (r: Mat)
        requires
            (n as int) * (n as int) <= usize::MAX as int,
        ensures
            r.rows == n,
            r.cols == n,
            r.wf(),
            forall|i: int, j: int| r.in_range(i, j)
                ==> #[trigger] r.at(i, j) == (if i == j { qone() } else { qzero() }),
    {
        let mut r = Mat::zeros(n, n);
        let mut i: usize = 0;
        while i < n
            invariant
                i <= n,
                r.rows == n,
                r.cols == n,
                r.wf(),
                forall|p: int, q: int| r.in_range(p, q)
                    ==> #[trigger] r.at(p, q)
                        == (if p == q && p < i as int { qone() } else { qzero() }),
            decreases n - i,
        {
            let one = Rat::one();
            r.set(i, i, one);
            i += 1;
        }
        r
    }

    pub fn rows(&self) -> (r: usize)
        ensures
            r == self.rows,
    {
        self.rows
    }

    pub fn cols(&self) -> (r: usize)
        ensures
            r == self.cols,
    {
        self.cols
    }

    pub fn get(&self, i: usize, j: usize) -> (r: &Rat)
        requires
            self.wf(),
            self.in_range(i as int, j as int),
        ensures
            r.v() == self.at(i as int, j as int),
            r.wf(),
    {
        let dlen = self.data.len();
        proof {
            lemma_idx_bound(self.rows as int, self.cols as int, i as int, j as int);
        }
        &self.data[i * self.cols + j]
    }

    pub fn set(&mut self, i: usize, j: usize, val: Rat)
        requires
            old(self).wf(),
            old(self).in_range(i as int, j as int),
            val.wf(),
        ensures
            final(self).rows == old(self).rows,
            final(self).cols == old(self).cols,
            final(self).wf(),
            final(self).at(i as int, j as int) == val.v(),
            forall|p: int, q: int| old(self).in_range(p, q) && !(p == i as int && q == j as int)
                ==> #[trigger] final(self).at(p, q) == old(self).at(p, q),
    {
        let dlen = self.data.len();
        proof {
            lemma_idx_bound(self.rows as int, self.cols as int, i as int, j as int);
        }
        let idx: usize = i * self.cols + j;
        self.data[idx] = val;
        proof {
            assert forall|p: int, q: int|
                old(self).in_range(p, q) && !(p == i as int && q == j as int)
                implies #[trigger] self.at(p, q) == old(self).at(p, q) by {
                lemma_idx_bound(self.rows as int, self.cols as int, p, q);
                if p * (self.cols as int) + q == idx as int {
                    lemma_idx_inj(self.cols as int, p, q, i as int, j as int);
                }
            }
        }
    }

    /// The transpose, as a fresh matrix.
    pub fn transpose(&self) -> (r: Mat)
        requires
            self.wf(),
        ensures
            r.rows == self.cols,
            r.cols == self.rows,
            r.wf(),
            forall|i: int, j: int| r.in_range(i, j)
                ==> #[trigger] r.at(i, j) == self.at(j, i),
    {
        let dlen = self.data.len();
        proof {
            assert((self.cols as int) * (self.rows as int) == (self.rows as int) * (
            self.cols as int)) by (nonlinear_arith);
        }
        let mut r = Mat::zeros(self.cols, self.rows);
        let mut i: usize = 0;
        while i < self.rows
            invariant
                i <= self.rows,
                self.wf(),
                r.rows == self.cols,
                r.cols == self.rows,
                r.wf(),
                forall|p: int, q: int| r.in_range(p, q) && q < i as int
                    ==> #[trigger] r.at(p, q) == self.at(q, p),
            decreases self.rows - i,
        {
            let mut j: usize = 0;
            while j < self.cols
                invariant
                    i < self.rows,
                    j <= self.cols,
                    self.wf(),
                    r.rows == self.cols,
                    r.cols == self.rows,
                    r.wf(),
                    forall|p: int, q: int| r.in_range(p, q) && q < i as int
                        ==> #[trigger] r.at(p, q) == self.at(q, p),
                    forall|p: int, q: int| r.in_range(p, q) && q == i as int && p < j as int
                        ==> #[trigger] r.at(p, q) == self.at(q, p),
                decreases self.cols - j,
            {
                let v = self.get(i, j).dup();
                r.set(j, i, v);
                j += 1;
            }
            i += 1;
        }
        r
    }

    /// Does every off-diagonal entry hold zero?
    pub open spec fn is_diag_spec(self) -> bool {
        forall|i: int, j: int| self.in_range(i, j) && i != j ==> (#[trigger] self.at(i, j)).0 == 0
    }

    pub fn is_diag(&self) -> (r: bool)
        requires
            self.wf(),
        ensures
            r == self.is_diag_spec(),
    {
        let mut i: usize = 0;
        while i < self.rows
            invariant
                i <= self.rows,
                self.wf(),
                forall|p: int, q: int| self.in_range(p, q) && p != q && p < i as int
                    ==> (#[trigger] self.at(p, q)).0 == 0,
            decreases self.rows - i,
        {
            let mut j: usize = 0;
            while j < self.cols
                invariant
                    i < self.rows,
                    j <= self.cols,
                    self.wf(),
                    forall|p: int, q: int| self.in_range(p, q) && p != q && p < i as int
                        ==> (#[trigger] self.at(p, q)).0 == 0,
                    forall|q: int| 0 <= q < j as int && q != i as int
                        ==> (#[trigger] self.at(i as int, q)).0 == 0,
                decreases self.cols - j,
            {
                if j != i {
                    if !self.get(i, j).is_zero() {
                        return false;
                    }
                }
                j += 1;
            }
            i += 1;
        }
        true
    }
}

pub proof fn lemma_at_wf(m: Mat, i: int, j: int)
    requires
        m.wf(),
        m.in_range(i, j),
    ensures
        qwf(m.at(i, j)),
{
    lemma_idx_bound(m.rows as int, m.cols as int, i, j);
}

/// A sequence of row indices, as unbounded integers.
pub open spec fn perm_view(p: Seq<usize>) -> Seq<int> {
    Seq::new(p.len(), |i: int| p[i] as int)
}

// ---------------------------------------------------------------------------
// Vectors.
// ---------------------------------------------------------------------------

/// The sequence of pairs a buffer of scalars holds.
pub open spec fn rat_vals(s: Seq<Rat>) -> Seq<(int, int)> {
    Seq::new(s.len(), |i: int| s[i].v())
}

#[derive(Debug)]
pub struct Vector {
    pub data: Vec<Rat>,
}

impl Vector {
    /// The sequence of pairs this vector holds.
    pub open spec fn vals(self) -> Seq<(int, int)> {
        rat_vals(self.data@)
    }

    pub open spec fn wf(self) -> bool {
        seq_qwf(self.vals())
    }

    pub fn new(data: Vec<Rat>) -> (r: Vector)
        requires
            forall|k: int| 0 <= k < data@.len() ==> (#[trigger] data@[k]).wf(),
        ensures
            r.data == data,
            r.wf(),
    {
        let r = Vector { data };
        proof {
            assert forall|k: int| 0 <= k < r.vals().len() implies qwf(#[trigger] r.vals()[k]) by {}
        }
        r
    }

    pub fn len(&self) -> (r: usize)
        ensures
            r == self.vals().len(),
    {
        self.data.len()
    }

    pub fn get(&self, i: usize) -> (r: &Rat)
        requires
            (i as int) < self.vals().len(),
        ensures
            r.v() == self.vals()[i as int],
            self.wf() ==> r.wf(),
    {
        &self.data[i]
    }
}

// ---------------------------------------------------------------------------
// Products in the specification model.
// ---------------------------------------------------------------------------

/// Entry `(i, j)` of the product of `a` and `b`.
pub open spec fn mm_at(a: Mat, b: Mat, i: int, j: int) -> (int, int) {
    qsum(Seq::new(a.cols as nat, |k: int| qmul(a.at(i, k), b.at(k, j))))
}

/// Entry `i` of the product of `a` and the vector holding `x`.
pub open spec fn mv_at(a: Mat, x: Seq<(int, int)>, i: int) -> (int, int) {
    qsum(Seq::new(a.cols as nat, |k: int| qmul(a.at(i, k), x[k])))
}

pub proof fn lemma_mm_terms_wf(a: Mat, b: Mat, i: int, j: int)
    requires
        a.wf(),
        b.wf(),
        a.cols == b.rows,
        0 <= i < a.rows,
        0 <= j < b.cols,
    ensures
        seq_qwf(Seq::new(a.cols as nat, |k: int| qmul(a.at(i, k), b.at(k, j)))),
{
    let s = Seq::new(a.cols as nat, |k: int| qmul(a.at(i, k), b.at(k, j)));
    assert forall|k: int| 0 <= k < s.len() implies qwf(#[trigger] s[k]) by {
        lemma_idx_bound(a.rows as int, a.cols as int, i, k);
        lemma_idx_bound(b.rows as int, b.cols as int, k, j);
        lemma_qwf_qmul(a.at(i, k), b.at(k, j));
    }
}

pub proof fn lemma_mv_terms_wf(a: Mat, x: Seq<(int, int)>, i: int)
    requires
        a.wf(),
        seq_qwf(x),
        a.cols as int == x.len(),
        0 <= i < a.rows,
    ensures
        seq_qwf(Seq::new(a.cols as nat, |k: int| qmul(a.at(i, k), x[k]))),
{
    let s = Seq::new(a.cols as nat, |k: int| qmul(a.at(i, k), x[k]));
    assert forall|k: int| 0 <= k < s.len() implies qwf(#[trigger] s[k]) by {
        lemma_idx_bound(a.rows as int, a.cols as int, i, k);
        lemma_qwf_qmul(a.at(i, k), x[k]);
    }
}

pub proof fn lemma_mv_wf(a: Mat, x: Seq<(int, int)>, i: int)
    requires
        a.wf(),
        seq_qwf(x),
        a.cols as int == x.len(),
        0 <= i < a.rows as int,
    ensures
        qwf(mv_at(a, x, i)),
{
    lemma_mv_terms_wf(a, x, i);
    crate::rational::lemma_qsum_wf(Seq::new(a.cols as nat, |k: int| qmul(a.at(i, k), x[k])));
}

// ---------------------------------------------------------------------------
// Executable products.
// ---------------------------------------------------------------------------

/// The matrix product, with each entry exactly the model-level sum.
pub fn mat_mul(a: &Mat, b: &Mat) -> (r: Mat)
    requires
        a.wf(),
        b.wf(),
        a.cols == b.rows,
        (a.rows as int) * (b.cols as int) <= usize::MAX as int,
    ensures
        r.rows == a.rows,
        r.cols == b.cols,
        r.wf(),
        forall|i: int, j: int| r.in_range(i, j) ==> #[trigger] r.at(i, j) == mm_at(*a, *b, i, j),
{
    let mut r = Mat::zeros(a.rows, b.cols);
    let mut i: usize = 0;
    while i < a.rows
        invariant
            i <= a.rows,
            a.wf(),
            b.wf(),
            a.cols == b.rows,
            r.rows == a.rows,
            r.cols == b.cols,
            r.wf(),
            forall|p: int, q: int| r.in_range(p, q) && p < i as int
                ==> #[trigger] r.at(p, q) == mm_at(*a, *b, p, q),
        decreases a.rows - i,
    {
        let mut j: usize = 0;
        while j < b.cols
            invariant
                i < a.rows,
                j <= b.cols,
                a.wf(),
                b.wf(),
                a.cols == b.rows,
                r.rows == a.rows,
                r.cols == b.cols,
                r.wf(),
                forall|p: int, q: int| r.in_range(p, q) && p < i as int
                    ==> #[trigger] r.at(p, q) == mm_at(*a, *b, p, q),
                forall|q: int| 0 <= q < j as int
                    ==> #[trigger] r.at(i as int, q) == mm_at(*a, *b, i as int, q),
            decreases b.cols - j,
        {
            let ghost terms = Seq::new(a.cols as nat,
                |k: int| qmul(a.at(i as int, k), b.at(k, j as int)));
            let mut acc = Rat::zero();
            let mut k: usize = 0;
            proof {
                assert(terms.take(0) =~= Seq::<(int, int)>::empty());
            }
            while k < a.cols
                invariant
                    k <= a.cols,
                    i < a.rows,
                    j < b.cols,
                    a.wf(),
                    b.wf(),
                    a.cols == b.rows,
                    acc.wf(),
                    acc.v() == qsum(terms.take(k as int)),
                    terms == Seq::new(a.cols as nat,
                        |t: int| qmul(a.at(i as int, t), b.at(t, j as int))),
                decreases a.cols - k,
            {
                let term = a.get(i, k).mul(b.get(k, j));
                let next = acc.add(&term);
                proof {
                    lemma_qsum_take_step(terms, k as int);
                }
                acc = next;
                k += 1;
            }
            proof {
                assert(terms.take(a.cols as int) =~= terms);
            }
            r.set(i, j, acc);
            j += 1;
        }
        i += 1;
    }
    r
}

/// The matrix-vector product, with each entry exactly the model-level sum.
pub fn mat_vec_mul(a: &Mat, x: &Vector) -> (r: Vector)
    requires
        a.wf(),
        x.wf(),
        a.cols as int == x.vals().len(),
    ensures
        r.wf(),
        r.vals().len() == a.rows as int,
        forall|i: int| 0 <= i < a.rows as int
            ==> #[trigger] r.vals()[i] == mv_at(*a, x.vals(), i),
{
    let mut data: Vec<Rat> = Vec::new();
    let mut i: usize = 0;
    while i < a.rows
        invariant
            i <= a.rows,
            a.wf(),
            x.wf(),
            a.cols as int == x.vals().len(),
            data@.len() == i as int,
            forall|p: int| 0 <= p < i as int ==> (#[trigger] data@[p]).wf()
                && data@[p].v() == mv_at(*a, x.vals(), p),
        decreases a.rows - i,
    {
        let ghost terms = Seq::new(a.cols as nat,
            |k: int| qmul(a.at(i as int, k), x.vals()[k]));
        let mut acc = Rat::zero();
        let mut k: usize = 0;
        proof {
            assert(terms.take(0) =~= Seq::<(int, int)>::empty());
        }
        while k < a.cols
            invariant
                k <= a.cols,
                i < a.rows,
                a.wf(),
                x.wf(),
                a.cols as int == x.vals().len(),
                acc.wf(),
                acc.v() == qsum(terms.take(k as int)),
                terms == Seq::new(a.cols as nat,
                    |t: int| qmul(a.at(i as int, t), x.vals()[t])),
            decreases a.cols - k,
        {
            let term = a.get(i, k).mul(x.get(k));
            let next = acc.add(&term);
            proof {
                lemma_qsum_take_step(terms, k as int);
            }
            acc = next;
            k += 1;
        }
        proof {
            assert(terms.take(a.cols as int) =~= terms);
        }
        data.push(acc);
        i += 1;
    }
    let r = Vector { data };
    proof {
        assert forall|p: int| 0 <= p < a.rows as int implies
            #[trigger] r.vals()[p] == mv_at(*a, x.vals(), p) by {}
        assert forall|p: int| 0 <= p < r.vals().len() implies qwf(#[trigger] r.vals()[p]) by {}
    }
    r
}

// ---------------------------------------------------------------------------
// Shape predicates used by the decomposition contracts.
// ---------------------------------------------------------------------------

/// Zero below the diagonal.
pub open spec fn is_upper_triangular(m: Mat) -> bool {
    forall|i: int, j: int| m.in_range(i, j) && i > j ==> qeq(#[trigger] m.at(i, j), qzero())
}

/// One on the diagonal, zero above it.
pub open spec fn is_unit_lower_triangular(m: Mat) -> bool {
    (forall|i: int, j: int| m.in_range(i, j) && i < j ==> qeq(#[trigger] m.at(i, j), qzero()))
    && (forall|i: int| 0 <= i < m.rows as int ==> qeq(#[trigger] m.at(i, i), qone()))
}

/// Some position of `p` holds the value `r`.
pub open spec fn has_preimage(p: Seq<int>, n: int, r: int) -> bool {
    exists|i: int| 0 <= i < n && #[trigger] p[i] == r
}

/// Entry `(i, j)` of the identity.
pub open spec fn ident_at(i: int, j: int) -> (int, int) {
    if i == j {
        qone()
    } else {
        qzero()
    }
}

/// `p` lists, for each row, the column that holds the single one.
pub open spec fn is_perm_seq(p: Seq<int>, n: int) -> bool {
    p.len() == n
    && (forall|i: int| 0 <= i < n ==> 0 <= #[trigger] p[i] < n)
    && (forall|i: int, j: int| #![trigger p[i], p[j]] 0 <= i < n && 0 <= j < n && i != j ==> p[i] != p[j])
    && (forall|r: int| 0 <= r < n ==> #[trigger] has_preimage(p, n, r))
}

/// `m` is the permutation matrix whose row `i` has its one in column `p[i]`.
pub open spec fn is_perm_matrix(m: Mat, p: Seq<int>) -> bool {
    m.is_square()
    && is_perm_seq(p, m.rows as int)
    && forall|i: int, j: int| m.in_range(i, j)
        ==> #[trigger] m.at(i, j) == (if p[i] == j { qone() } else { qzero() })
}

} // verus!
