//! LUP decomposition with partial pivoting.
//!
//! `lup_decomp` returns `(L, U, P)` with `L` unit lower triangular, `U`
//! upper triangular with nonzero diagonal, `P` a permutation matrix, and —
//! proved, not approximated — `L·U` equal in value to `P·A` entry by entry.
//!
//! The pivot for row `i` is the first maximum, by signed value, of the
//! sub-column of `A` at and below the diagonal; the offset of that maximum
//! within the sub-column is then used directly as the row of the permutation
//! to exchange, which is the convention the determinant's parity handling
//! expects. Pivoting by signed value rather than magnitude can fail on
//! matrices that magnitude pivoting would handle; such a failure is reported
//! as a `DecompFailure`.

use vstd::prelude::*;
use crate::rational::{
    Rat, qwf, qeq, qzero, qone, qadd, qmul, qsub, qneg, qle, qlt, qsum, seq_qwf,
    qdiv_val, lemma_qeq_trans, lemma_qadd_congr, lemma_qmul_congr,
    lemma_qmul_one, lemma_qadd_sub_cancel, lemma_factor_is_one,
    lemma_qsum_take_step, lemma_qsum_zero_beyond, lemma_qsum_collapse,
    lemma_qsum_wf, lemma_qwf_qadd, lemma_qwf_qmul, lemma_qle_qlt_trans,
    lemma_qdiv_mul, lemma_qdiv_wf, lemma_qmul_cancel, lemma_qeq_num_transfer,
    lemma_qneg_congr,
};
use crate::matrix::{
    Mat, mm_at, is_upper_triangular, is_unit_lower_triangular, is_perm_seq,
    is_perm_matrix, has_preimage, perm_view, lemma_at_wf,
};
use crate::error::{Error, ErrorKind};

verus! {

// ---------------------------------------------------------------------------
// The Doolittle recursion in the specification model.
// ---------------------------------------------------------------------------

/// Dot product of the first `m` entries of row `r` of `l` with column `c`
/// of `u`.
pub open spec fn lu_dot(l: Mat, u: Mat, r: int, c: int, m: int) -> (int, int) {
    qsum(Seq::new(m as nat, |k: int| qmul(l.at(r, k), u.at(k, c))))
}

proof fn lemma_lu_dot_frame(l1: Mat, u1: Mat, l2: Mat, u2: Mat, r: int, c: int, m: int)
    requires
        0 <= m,
        forall|k: int| 0 <= k < m ==> #[trigger] l2.at(r, k) == l1.at(r, k),
        forall|k: int| 0 <= k < m ==> #[trigger] u2.at(k, c) == u1.at(k, c),
    ensures
        lu_dot(l2, u2, r, c, m) == lu_dot(l1, u1, r, c, m),
{
    assert(Seq::new(m as nat, |k: int| qmul(l2.at(r, k), u2.at(k, c)))
        =~= Seq::new(m as nat, |k: int| qmul(l1.at(r, k), u1.at(k, c))));
}

proof fn lemma_lu_dot_wf(l: Mat, u: Mat, r: int, c: int, m: int)
    requires
        l.wf(),
        u.wf(),
        0 <= r < l.rows as int,
        0 <= c < u.cols as int,
        0 <= m <= l.cols as int,
        m <= u.rows as int,
    ensures
        qwf(lu_dot(l, u, r, c, m)),
{
    let s = Seq::new(m as nat, |k: int| qmul(l.at(r, k), u.at(k, c)));
    assert forall|k: int| 0 <= k < s.len() implies qwf(#[trigger] s[k]) by {
        lemma_at_wf(l, r, k);
        lemma_at_wf(u, k, c);
        lemma_qwf_qmul(l.at(r, k), u.at(k, c));
    }
    lemma_qsum_wf(s);
}

// ---------------------------------------------------------------------------
// The elimination in the specification model.
// ---------------------------------------------------------------------------

/// The entry the elimination reads: row `r` of the input permuted by `pi`.
pub open spec fn p_at(a: Mat, pi: Seq<int>, r: int, c: int) -> (int, int) {
    a.at(pi[r], c)
}

/// Offset of the first greatest entry, by signed value, of the sub-column
/// at and below the diagonal of column `i`, accumulated the way the scan
/// walks it.
pub open spec fn argmax_from(a: Mat, i: int, best: int, k: int) -> int
    decreases a.rows as int - i - k,
{
    if k < 1 || k >= a.rows as int - i {
        best
    } else {
        argmax_from(a, i,
            if qlt(a.at(i + best, i), a.at(i + k, i)) { k } else { best }, k + 1)
    }
}

pub open spec fn pivot_offset(a: Mat, i: int) -> int {
    argmax_from(a, i, 0, 1)
}

/// The permutation after the first `i` pivot sweeps: it starts as the
/// identity, and each sweep with a nonzero arg-max offset exchanges
/// position `i` with the position the offset names.
pub open spec fn pivot_perm_upto(a: Mat, i: int) -> Seq<int>
    decreases i,
{
    if i <= 0 {
        Seq::new(a.rows as nat, |t: int| t)
    } else {
        let prev = pivot_perm_upto(a, i - 1);
        let rm = pivot_offset(a, i - 1);
        if rm != 0 {
            prev.update(i - 1, prev[rm]).update(rm, prev[i - 1])
        } else {
            prev
        }
    }
}

/// The pivot permutation of the whole sweep.
pub open spec fn pivot_perm(a: Mat) -> Seq<int> {
    pivot_perm_upto(a, a.rows as int)
}

/// Partial dot of the elimination's own entries: the first `k` terms of
/// row `r` of L against column `c` of U, in the model.
pub open spec fn lu_partial(a: Mat, pi: Seq<int>, r: int, c: int, k: int) -> (int, int)
    decreases c, 0int, r, k,
{
    if k <= 0 || k > c || k > r {
        qzero()
    } else {
        qadd(lu_partial(a, pi, r, c, k - 1),
            qmul(l_entry(a, pi, r, k - 1), u_entry(a, pi, k - 1, c)))
    }
}

/// Entry `(r, c)` of U as the Doolittle recursion defines it on the
/// permuted input, for `r <= c`: the input entry minus the partial dot.
pub open spec fn u_entry(a: Mat, pi: Seq<int>, r: int, c: int) -> (int, int)
    decreases c, 0int, r, r + 1,
{
    if 0 <= r <= c {
        qsub(p_at(a, pi, r, c), lu_partial(a, pi, r, c, r))
    } else {
        qzero()
    }
}

/// Entry `(r, c)` of L as the Doolittle recursion defines it, for
/// `c <= r`: the residual divided by the pivot of column `c`.
pub open spec fn l_entry(a: Mat, pi: Seq<int>, r: int, c: int) -> (int, int)
    decreases c, 1int, r, 0int,
{
    if 0 <= c <= r {
        qdiv_val(qsub(p_at(a, pi, r, c), lu_partial(a, pi, r, c, c)),
            u_entry(a, pi, c, c))
    } else {
        qzero()
    }
}

/// The elimination on the input permuted by `pi` runs to completion:
/// every pivot it meets denotes a nonzero value.
pub open spec fn elimination_ok(a: Mat, pi: Seq<int>) -> bool {
    forall|c: int| 0 <= c < a.rows as int ==> (#[trigger] u_entry(a, pi, c, c)).0 != 0
}

/// The LUP decomposition of `a` succeeds: the elimination on the input
/// permuted by the pivot sweep meets no zero pivot.
pub open spec fn lup_ok(a: Mat) -> bool {
    elimination_ok(a, pivot_perm(a))
}

/// What holds of `l` and `u` once the first `i` columns of each are filled:
/// the defining equations of the Doolittle recursion on the permuted input
/// `a2`, the triangular zero patterns, nonzero pivots, and a diagonal of
/// `l` that denotes one.
pub open spec fn doolittle_done(l: Mat, u: Mat, a2: Mat, i: int) -> bool {
    let n = a2.rows as int;
    &&& (forall|r: int, c: int| 0 <= c < i && c < r < n ==> #[trigger] u.at(r, c) == qzero())
    &&& (forall|r: int, c: int| 0 <= c < i && 0 <= r < c ==> #[trigger] l.at(r, c) == qzero())
    &&& (forall|r: int, c: int| 0 <= c < i && 0 <= r <= c ==>
            #[trigger] u.at(r, c) == qsub(a2.at(r, c), lu_dot(l, u, r, c, r)))
    &&& (forall|r: int, c: int| 0 <= c < i && c <= r < n ==>
            qeq(qmul(#[trigger] l.at(r, c), u.at(c, c)), qsub(a2.at(r, c), lu_dot(l, u, r, c, c))))
    &&& (forall|c: int| 0 <= c < i ==> (#[trigger] u.at(c, c)).0 != 0)
    &&& (forall|c: int| 0 <= c < i ==> qeq(#[trigger] l.at(c, c), qone()))
}

/// Every entry in columns `c0` and beyond still holds the zero it was
/// initialized with.
pub open spec fn cols_zero_from(m: Mat, c0: int) -> bool {
    forall|r: int, c: int| 0 <= r < m.rows as int && c0 <= c < m.cols as int
        ==> #[trigger] m.at(r, c) == qzero()
}

/// A one-by-one matrix with a nonzero entry has that entry as its pivot.
proof fn lemma_single_entry_pivot(a2: Mat, l: Mat, u: Mat)
    requires
        u.at(0, 0) == qsub(a2.at(0, 0), lu_dot(l, u, 0, 0, 0)),
        a2.at(0, 0).0 != 0,
    ensures
        u.at(0, 0).0 != 0,
{
    assert(Seq::new(0nat, |k: int| qmul(l.at(0, k), u.at(k, 0))).len() == 0);
    assert(lu_dot(l, u, 0, 0, 0) == qzero());
    assert(u.at(0, 0).0 == a2.at(0, 0).0 * 1 + (-0) * a2.at(0, 0).1);
    assert(a2.at(0, 0).0 * 1 == a2.at(0, 0).0) by (nonlinear_arith);
    assert((-0) * a2.at(0, 0).1 == 0) by (nonlinear_arith);
}

/// The Doolittle equations only mention entries in columns before `i`, so
/// they survive any write at or beyond column `i`.
proof fn lemma_done_frame(l1: Mat, u1: Mat, l2: Mat, u2: Mat, a2: Mat, i: int)
    requires
        doolittle_done(l1, u1, a2, i),
        0 <= i <= a2.rows as int,
        l2.cols == l1.cols,
        u2.cols == u1.cols,
        forall|r: int, c: int| 0 <= r < a2.rows as int && 0 <= c < i
            ==> #[trigger] l2.at(r, c) == l1.at(r, c),
        forall|r: int, c: int| 0 <= r < a2.rows as int && 0 <= c < i
            ==> #[trigger] u2.at(r, c) == u1.at(r, c),
    ensures
        doolittle_done(l2, u2, a2, i),
{
    let n = a2.rows as int;
    assert forall|r: int, c: int| 0 <= c < i && 0 <= r <= c implies
        #[trigger] u2.at(r, c) == qsub(a2.at(r, c), lu_dot(l2, u2, r, c, r)) by {
        assert forall|k: int| 0 <= k < r implies #[trigger] l2.at(r, k) == l1.at(r, k) by {}
        assert forall|k: int| 0 <= k < r implies #[trigger] u2.at(k, c) == u1.at(k, c) by {}
        lemma_lu_dot_frame(l1, u1, l2, u2, r, c, r);
    }
    assert forall|r: int, c: int| 0 <= c < i && c <= r < n implies
        qeq(qmul(#[trigger] l2.at(r, c), u2.at(c, c)), qsub(a2.at(r, c), lu_dot(l2, u2, r, c, c)))
        by {
        assert forall|k: int| 0 <= k < c implies #[trigger] l2.at(r, k) == l1.at(r, k) by {}
        assert forall|k: int| 0 <= k < c implies #[trigger] u2.at(k, c) == u1.at(k, c) by {}
        lemma_lu_dot_frame(l1, u1, l2, u2, r, c, c);
    }
}

/// From the Doolittle equations for every column, the product `L·U`
/// reconstructs `a2` entry by entry.
proof fn lemma_doolittle_reconstruct(l: Mat, u: Mat, a2: Mat)
    requires
        a2.wf(),
        a2.is_square(),
        l.rows == a2.rows,
        l.cols == a2.rows,
        u.rows == a2.rows,
        u.cols == a2.rows,
        l.wf(),
        u.wf(),
        doolittle_done(l, u, a2, a2.rows as int),
    ensures
        forall|r: int, c: int| a2.in_range(r, c) ==> qeq(#[trigger] mm_at(l, u, r, c), a2.at(r, c)),
{
    let n = a2.rows as int;
    assert forall|r: int, c: int| a2.in_range(r, c) implies
        qeq(#[trigger] mm_at(l, u, r, c), a2.at(r, c)) by {
        let terms = Seq::new(l.cols as nat, |k: int| qmul(l.at(r, k), u.at(k, c)));
        assert forall|k: int| 0 <= k < terms.len() implies qwf(#[trigger] terms[k]) by {
            lemma_at_wf(l, r, k);
            lemma_at_wf(u, k, c);
            lemma_qwf_qmul(l.at(r, k), u.at(k, c));
        }
        lemma_at_wf(a2, r, c);
        // The cut below which the running sum stops: the diagonal of
        // whichever factor ends the triangular row or column.
        let m = if r <= c { r } else { c };
        assert forall|k: int| m + 1 <= k < n implies qeq(#[trigger] terms[k], qzero()) by {
            if r <= c {
                assert(l.at(r, k) == qzero());
                assert(terms[k].0 == 0 * u.at(k, c).0);
            } else {
                assert(u.at(k, c) == qzero());
                assert(terms[k].0 == l.at(r, k).0 * 0);
            }
        }
        lemma_qsum_zero_beyond(terms, m + 1);
        lemma_qsum_take_step(terms, m);
        assert(terms.take(m) =~= Seq::new(m as nat, |k: int| qmul(l.at(r, k), u.at(k, c))));
        let s = lu_dot(l, u, r, c, m);
        assert(qsum(terms.take(m + 1)) == qadd(s, terms[m]));
        lemma_lu_dot_wf(l, u, r, c, m);
        let target = qsub(a2.at(r, c), s);
        if r <= c {
            // terms[r] = l[r,r] * u[r,c] denotes u[r,c], which holds
            // a2[r,c] minus the partial sum.
            lemma_at_wf(u, r, c);
            lemma_qmul_one(u.at(r, c), l.at(r, r));
            assert(u.at(r, c) == target);
            lemma_qadd_congr(s, terms[m], s, target);
        } else {
            // terms[c] = l[r,c] * u[c,c] denotes a2[r,c] minus the partial
            // sum, by the defining equation of l[r,c].
            assert(qeq(terms[m], target));
            lemma_at_wf(l, r, m);
            lemma_at_wf(u, m, c);
            lemma_qwf_qmul(l.at(r, m), u.at(m, c));
            lemma_qadd_congr(s, terms[m], s, target);
        }
        lemma_qadd_sub_cancel(s, a2.at(r, c));
        lemma_qwf_qadd(s, terms[m]);
        lemma_qwf_qadd(a2.at(r, c), qneg(s));
        lemma_qwf_qadd(s, target);
        lemma_qeq_trans(qadd(s, terms[m]), qadd(s, target), a2.at(r, c));
        lemma_qeq_trans(qsum(terms), qadd(s, terms[m]), a2.at(r, c));
    }
}

// ---------------------------------------------------------------------------
// Permutation bookkeeping.
// ---------------------------------------------------------------------------

/// Exchanging two positions of a permutation leaves a permutation.
proof fn lemma_perm_swap(p: Seq<int>, n: int, i: int, r: int)
    requires
        is_perm_seq(p, n),
        0 <= i < n,
        0 <= r < n,
    ensures
        is_perm_seq(p.update(i, p[r]).update(r, p[i]), n),
{
    let q = p.update(i, p[r]).update(r, p[i]);
    assert forall|x: int, y: int| #![trigger q[x], q[y]]
        0 <= x < n && 0 <= y < n && x != y implies q[x] != q[y] by {
        assert(q[x] == if x == r { p[i] } else if x == i { p[r] } else { p[x] });
        assert(q[y] == if y == r { p[i] } else if y == i { p[r] } else { p[y] });
    }
    assert forall|t: int| 0 <= t < n implies #[trigger] has_preimage(q, n, t) by {
        assert(has_preimage(p, n, t));
        let w = choose|w: int| 0 <= w < n && #[trigger] p[w] == t;
        if w == i {
            assert(q[r] == t);
        } else if w == r {
            assert(q[i] == t);
        } else {
            assert(q[w] == t);
        }
    }
}

/// A product with a permutation matrix on the left selects a row.
pub proof fn lemma_perm_mm(p: Mat, a: Mat, pi: Seq<int>, i: int, j: int)
    requires
        p.wf(),
        a.wf(),
        is_perm_matrix(p, pi),
        p.cols == a.rows,
        0 <= i < p.rows as int,
        0 <= j < a.cols as int,
    ensures
        qeq(mm_at(p, a, i, j), a.at(pi[i], j)),
{
    let n = p.cols as int;
    let terms = Seq::new(p.cols as nat, |k: int| qmul(p.at(i, k), a.at(k, j)));
    assert forall|k: int| 0 <= k < terms.len() implies qwf(#[trigger] terms[k]) by {
        lemma_at_wf(p, i, k);
        lemma_at_wf(a, k, j);
        lemma_qwf_qmul(p.at(i, k), a.at(k, j));
    }
    let w = pi[i];
    assert forall|k: int| 0 <= k < n && k != w implies qeq(#[trigger] terms[k], qzero()) by {
        assert(p.at(i, k) == qzero());
        assert(terms[k].0 == 0 * a.at(k, j).0);
    }
    lemma_qsum_collapse(terms, w);
    assert(p.at(i, w) == qone());
    lemma_at_wf(a, w, j);
    lemma_qmul_one(a.at(w, j), p.at(i, w));
    lemma_qwf_qmul(p.at(i, w), a.at(w, j));
    lemma_qeq_trans(qsum(terms), terms[w], a.at(w, j));
}

/// Offset, within the sub-column of `a` at and below the diagonal of column
/// `i`, of the first greatest entry by signed value.
fn argmax_subcol(a: &Mat, i: usize) -> (r: usize)
    requires
        a.wf(),
        a.is_square(),
        i < a.rows,
    ensures
        (r as int) < a.rows as int - i as int,
        r as int == pivot_offset(*a, i as int),
        forall|k: int| 0 <= k < a.rows as int - i as int
            ==> qle(#[trigger] a.at(i as int + k, i as int), a.at(i as int + r as int, i as int)),
        forall|k: int| 0 <= k < r as int
            ==> !qle(a.at(i as int + r as int, i as int), #[trigger] a.at(i as int + k, i as int)),
{
    let n = a.rows;
    let mut best: usize = 0;
    let mut k: usize = 1;
    while k < n - i
        invariant
            a.wf(),
            a.rows == n,
            a.cols == n,
            i < n,
            1 <= k <= n - i,
            (best as int) < k as int,
            argmax_from(*a, i as int, best as int, k as int)
                == pivot_offset(*a, i as int),
            forall|t: int| 0 <= t < k as int
                ==> qle(#[trigger] a.at(i as int + t, i as int), a.at(i as int + best as int, i as int)),
            forall|t: int| 0 <= t < best as int
                ==> !qle(a.at(i as int + best as int, i as int), #[trigger] a.at(i as int + t, i as int)),
        decreases n - i - k,
    {
        let cur = a.get(i + best, i);
        let cand = a.get(i + k, i);
        if cur.lt(cand) {
            proof {
                assert forall|t: int| 0 <= t < k as int implies
                    !qle(a.at(i as int + k as int, i as int), #[trigger] a.at(i as int + t, i as int)) by {
                    lemma_at_wf(*a, i as int + t, i as int);
                    lemma_at_wf(*a, i as int + best as int, i as int);
                    lemma_at_wf(*a, i as int + k as int, i as int);
                    lemma_qle_qlt_trans(
                        a.at(i as int + t, i as int),
                        a.at(i as int + best as int, i as int),
                        a.at(i as int + k as int, i as int),
                    );
                }
            }
            best = k;
        }
        k += 1;
    }
    best
}

/// The permutation matrix whose row `i` holds its one in column `perm[i]`.
fn perm_matrix(perm: &Vec<usize>) -> (p: Mat)
    requires
        is_perm_seq(perm_view(perm@), perm@.len() as int),
        perm@.len() * perm@.len() <= usize::MAX as int,
    ensures
        p.rows == perm@.len(),
        p.cols == perm@.len(),
        p.wf(),
        is_perm_matrix(p, perm_view(perm@)),
{
    let n = perm.len();
    let mut p = Mat::zeros(n, n);
    let mut i: usize = 0;
    while i < n
        invariant
            i <= n,
            perm@.len() == n,
            is_perm_seq(perm_view(perm@), n as int),
            p.rows == n,
            p.cols == n,
            p.wf(),
            forall|r: int, c: int| p.in_range(r, c)
                ==> #[trigger] p.at(r, c)
                    == (if r < i as int && perm_view(perm@)[r] == c { qone() } else { qzero() }),
        decreases n - i,
    {
        let c = perm[i];
        proof {
            assert(perm_view(perm@)[i as int] == c as int);
        }
        let one = Rat::one();
        p.set(i, c, one);
        i += 1;
    }
    p
}

/// A fresh matrix whose row `i` is row `perm[i]` of `a`.
fn permuted_rows(a: &Mat, perm: &Vec<usize>) -> (r: Mat)
    requires
        a.wf(),
        a.is_square(),
        perm@.len() == a.rows,
        is_perm_seq(perm_view(perm@), a.rows as int),
    ensures
        r.rows == a.rows,
        r.cols == a.rows,
        r.wf(),
        forall|i: int, j: int| r.in_range(i, j)
            ==> #[trigger] r.at(i, j) == a.at(perm_view(perm@)[i], j),
{
    let n = a.rows;
    let dlen = a.data.len();
    let mut r = Mat::zeros(n, n);
    let mut i: usize = 0;
    while i < n
        invariant
            i <= n,
            a.wf(),
            a.rows == n,
            a.cols == n,
            perm@.len() == n,
            is_perm_seq(perm_view(perm@), n as int),
            r.rows == n,
            r.cols == n,
            r.wf(),
            forall|p: int, q: int| r.in_range(p, q) && p < i as int
                ==> #[trigger] r.at(p, q) == a.at(perm_view(perm@)[p], q),
        decreases n - i,
    {
        let src = perm[i];
        proof {
            assert(perm_view(perm@)[i as int] == src as int);
        }
        let mut j: usize = 0;
        while j < n
            invariant
                i < n,
                j <= n,
                a.wf(),
                a.rows == n,
                a.cols == n,
                perm@.len() == n,
                is_perm_seq(perm_view(perm@), n as int),
                src == perm@[i as int],
                (src as int) < n as int,
                r.rows == n,
                r.cols == n,
                r.wf(),
                forall|p: int, q: int| r.in_range(p, q) && p < i as int
                    ==> #[trigger] r.at(p, q) == a.at(perm_view(perm@)[p], q),
                forall|q: int| 0 <= q < j as int
                    ==> #[trigger] r.at(i as int, q) == a.at(perm_view(perm@)[i as int], q),
            decreases n - j,
        {
            let v = a.get(src, j).dup();
            r.set(i, j, v);
            j += 1;
        }
        i += 1;
    }
    r
}

// ---------------------------------------------------------------------------
// The computed factors match the model entry by entry.
// ---------------------------------------------------------------------------

/// The executable partial dot matches the model's, once the entries it
/// reads do.
proof fn lemma_dot_matches(l: Mat, u: Mat, a: Mat, pi: Seq<int>, r: int, c: int, k: int)
    requires
        l.wf(),
        u.wf(),
        l.cols == l.rows,
        u.rows == l.rows,
        u.cols == l.rows,
        0 <= r < l.rows as int,
        0 <= c < l.rows as int,
        0 <= k <= r,
        k <= c,
        forall|t: int| 0 <= t < k ==> qeq(#[trigger] l.at(r, t), l_entry(a, pi, r, t)),
        forall|t: int| 0 <= t < k ==> qwf(#[trigger] l_entry(a, pi, r, t)),
        forall|t: int| 0 <= t < k ==> qeq(#[trigger] u.at(t, c), u_entry(a, pi, t, c)),
        forall|t: int| 0 <= t < k ==> qwf(#[trigger] u_entry(a, pi, t, c)),
    ensures
        qeq(lu_dot(l, u, r, c, k), lu_partial(a, pi, r, c, k)),
        qwf(lu_partial(a, pi, r, c, k)),
    decreases k,
{
    if k <= 0 {
    } else {
        lemma_dot_matches(l, u, a, pi, r, c, k - 1);
        let s = Seq::new(k as nat, |t: int| qmul(l.at(r, t), u.at(t, c)));
        lemma_qsum_take_step(s, k - 1);
        assert(s.take(k) =~= s);
        assert(s.take(k - 1) =~= Seq::new((k - 1) as nat,
            |t: int| qmul(l.at(r, t), u.at(t, c))));
        lemma_at_wf(l, r, k - 1);
        lemma_at_wf(u, k - 1, c);
        lemma_qmul_congr(l.at(r, k - 1), u.at(k - 1, c),
            l_entry(a, pi, r, k - 1), u_entry(a, pi, k - 1, c));
        lemma_qadd_congr(lu_dot(l, u, r, c, k - 1), qmul(l.at(r, k - 1), u.at(k - 1, c)),
            lu_partial(a, pi, r, c, k - 1),
            qmul(l_entry(a, pi, r, k - 1), u_entry(a, pi, k - 1, c)));
        lemma_qwf_qmul(l_entry(a, pi, r, k - 1), u_entry(a, pi, k - 1, c));
        lemma_qwf_qadd(lu_partial(a, pi, r, c, k - 1),
            qmul(l_entry(a, pi, r, k - 1), u_entry(a, pi, k - 1, c)));
    }
}

/// The U entries of one column match the model, given their defining
/// equations and matches for all earlier L columns.
proof fn lemma_u_rows_match(l: Mat, u: Mat, m: Mat, a: Mat, pi: Seq<int>, c: int, rmax: int)
    requires
        l.wf(),
        u.wf(),
        m.wf(),
        a.wf(),
        m.is_square(),
        l.rows == m.rows,
        l.cols == m.rows,
        u.rows == m.rows,
        u.cols == m.rows,
        a.rows == m.rows,
        a.cols == m.rows,
        is_perm_seq(pi, m.rows as int),
        forall|r: int, t: int| 0 <= r < m.rows as int && 0 <= t < m.rows as int
            ==> #[trigger] m.at(r, t) == p_at(a, pi, r, t),
        0 <= c < m.rows as int,
        0 <= rmax <= c,
        forall|r: int| 0 <= r <= rmax
            ==> #[trigger] u.at(r, c) == qsub(m.at(r, c), lu_dot(l, u, r, c, r)),
        forall|r2: int, t: int| 0 <= t < c && t <= r2 < m.rows as int
            ==> qeq(#[trigger] l.at(r2, t), l_entry(a, pi, r2, t)),
        forall|r2: int, t: int| 0 <= t < c && t <= r2 < m.rows as int
            ==> qwf(#[trigger] l_entry(a, pi, r2, t)),
    ensures
        forall|r: int| 0 <= r <= rmax ==> qeq(#[trigger] u.at(r, c), u_entry(a, pi, r, c)),
        forall|r: int| 0 <= r <= rmax ==> qwf(#[trigger] u_entry(a, pi, r, c)),
    decreases rmax,
{
    if rmax > 0 {
        lemma_u_rows_match(l, u, m, a, pi, c, rmax - 1);
    }
    lemma_dot_matches(l, u, a, pi, rmax, c, rmax);
    lemma_at_wf(m, rmax, c);
    lemma_qneg_congr(lu_dot(l, u, rmax, c, rmax), lu_partial(a, pi, rmax, c, rmax));
    lemma_qadd_congr(m.at(rmax, c), qneg(lu_dot(l, u, rmax, c, rmax)),
        m.at(rmax, c), qneg(lu_partial(a, pi, rmax, c, rmax)));
    lemma_qwf_qadd(m.at(rmax, c), qneg(lu_partial(a, pi, rmax, c, rmax)));
    assert(qeq(u.at(rmax, c), u_entry(a, pi, rmax, c)));
    assert(qwf(u_entry(a, pi, rmax, c)));
}

/// One full column of the factors matches the model, and the model's
/// pivot for that column denotes a nonzero value.
#[verifier::rlimit(100)]
proof fn lemma_col_matches(l: Mat, u: Mat, m: Mat, a: Mat, pi: Seq<int>, c: int)
    requires
        l.wf(),
        u.wf(),
        m.wf(),
        a.wf(),
        m.is_square(),
        l.rows == m.rows,
        l.cols == m.rows,
        u.rows == m.rows,
        u.cols == m.rows,
        a.rows == m.rows,
        a.cols == m.rows,
        is_perm_seq(pi, m.rows as int),
        forall|r: int, t: int| 0 <= r < m.rows as int && 0 <= t < m.rows as int
            ==> #[trigger] m.at(r, t) == p_at(a, pi, r, t),
        0 <= c < m.rows as int,
        forall|r: int| 0 <= r <= c
            ==> #[trigger] u.at(r, c) == qsub(m.at(r, c), lu_dot(l, u, r, c, r)),
        forall|r: int| c <= r < m.rows as int
            ==> qeq(qmul(#[trigger] l.at(r, c), u.at(c, c)),
                    qsub(m.at(r, c), lu_dot(l, u, r, c, c))),
        u.at(c, c).0 != 0,
        forall|r2: int, t: int| 0 <= t < c && t <= r2 < m.rows as int
            ==> qeq(#[trigger] l.at(r2, t), l_entry(a, pi, r2, t)),
        forall|r2: int, t: int| 0 <= t < c && t <= r2 < m.rows as int
            ==> qwf(#[trigger] l_entry(a, pi, r2, t)),
    ensures
        forall|r: int| 0 <= r <= c ==> qeq(#[trigger] u.at(r, c), u_entry(a, pi, r, c)),
        forall|r: int| 0 <= r <= c ==> qwf(#[trigger] u_entry(a, pi, r, c)),
        u_entry(a, pi, c, c).0 != 0,
        forall|r: int| c <= r < m.rows as int
            ==> qeq(#[trigger] l.at(r, c), l_entry(a, pi, r, c)),
        forall|r: int| c <= r < m.rows as int
            ==> qwf(#[trigger] l_entry(a, pi, r, c)),
{
    let n = m.rows as int;
    lemma_u_rows_match(l, u, m, a, pi, c, c);
    lemma_at_wf(u, c, c);
    lemma_qeq_num_transfer(u.at(c, c), u_entry(a, pi, c, c));
    assert forall|r: int| c <= r < n implies
        qeq(#[trigger] l.at(r, c), l_entry(a, pi, r, c)) && qwf(l_entry(a, pi, r, c)) by {
        lemma_dot_matches(l, u, a, pi, r, c, c);
        let vexec = qsub(m.at(r, c), lu_dot(l, u, r, c, c));
        let vspec = qsub(p_at(a, pi, r, c), lu_partial(a, pi, r, c, c));
        lemma_at_wf(m, r, c);
        lemma_qneg_congr(lu_dot(l, u, r, c, c), lu_partial(a, pi, r, c, c));
        lemma_qadd_congr(m.at(r, c), qneg(lu_dot(l, u, r, c, c)),
            m.at(r, c), qneg(lu_partial(a, pi, r, c, c)));
        lemma_qwf_qadd(m.at(r, c), qneg(lu_partial(a, pi, r, c, c)));
        lemma_qdiv_mul(vspec, u_entry(a, pi, c, c));
        lemma_qdiv_wf(vspec, u_entry(a, pi, c, c));
        lemma_qmul_congr(l_entry(a, pi, r, c), u_entry(a, pi, c, c),
            l_entry(a, pi, r, c), u.at(c, c));
        // Chain: the executable product, the executable residual, the
        // model residual, and the model product all denote one value.
        lemma_lu_dot_wf(l, u, r, c, c);
        lemma_qwf_qadd(m.at(r, c), qneg(lu_dot(l, u, r, c, c)));
        lemma_qeq_trans(qmul(l.at(r, c), u.at(c, c)), vexec, vspec);
        lemma_qwf_qmul(l_entry(a, pi, r, c), u_entry(a, pi, c, c));
        lemma_qeq_trans(vspec, qmul(l_entry(a, pi, r, c), u_entry(a, pi, c, c)),
            qmul(l_entry(a, pi, r, c), u.at(c, c)));
        lemma_qeq_trans(qmul(l.at(r, c), u.at(c, c)), vspec,
            qmul(l_entry(a, pi, r, c), u.at(c, c)));
        lemma_qmul_cancel(l.at(r, c), l_entry(a, pi, r, c), u.at(c, c));
    }
    assert forall|r: int| c <= r < n implies qwf(#[trigger] l_entry(a, pi, r, c)) by {
        assert(qeq(l.at(r, c), l_entry(a, pi, r, c)) && qwf(l_entry(a, pi, r, c)));
    }
}

/// Every completed column of the factors matches the model.
proof fn lemma_columns_match(l: Mat, u: Mat, m: Mat, a: Mat, pi: Seq<int>, cc: int)
    requires
        l.wf(),
        u.wf(),
        m.wf(),
        a.wf(),
        m.is_square(),
        l.rows == m.rows,
        l.cols == m.rows,
        u.rows == m.rows,
        u.cols == m.rows,
        a.rows == m.rows,
        a.cols == m.rows,
        is_perm_seq(pi, m.rows as int),
        forall|r: int, t: int| 0 <= r < m.rows as int && 0 <= t < m.rows as int
            ==> #[trigger] m.at(r, t) == p_at(a, pi, r, t),
        doolittle_done(l, u, m, cc),
        0 <= cc <= m.rows as int,
    ensures
        forall|r: int, t: int| 0 <= t < cc && 0 <= r <= t
            ==> qeq(#[trigger] u.at(r, t), u_entry(a, pi, r, t)),
        forall|r: int, t: int| 0 <= t < cc && 0 <= r <= t
            ==> qwf(#[trigger] u_entry(a, pi, r, t)),
        forall|r: int, t: int| 0 <= t < cc && t <= r < m.rows as int
            ==> qeq(#[trigger] l.at(r, t), l_entry(a, pi, r, t)),
        forall|r: int, t: int| 0 <= t < cc && t <= r < m.rows as int
            ==> qwf(#[trigger] l_entry(a, pi, r, t)),
        forall|t: int| 0 <= t < cc ==> (#[trigger] u_entry(a, pi, t, t)).0 != 0,
    decreases cc,
{
    if cc > 0 {
        lemma_columns_match(l, u, m, a, pi, cc - 1);
        lemma_col_matches(l, u, m, a, pi, cc - 1);
    }
}

// ---------------------------------------------------------------------------
// The Doolittle elimination itself.
// ---------------------------------------------------------------------------

/// Fills `L` and `U` column by column from the already permuted input;
/// fails the moment a pivot holds zero — which happens exactly when the
/// model elimination on the original input, permuted by `pi`, meets a
/// pivot denoting zero.
#[verifier::rlimit(100)]
fn doolittle(a2: &Mat, Ghost(orig): Ghost<Mat>, Ghost(pi): Ghost<Seq<int>>)
    -> (res: Result<(Mat, Mat), Error>)
    requires
        a2.wf(),
        a2.is_square(),
        orig.wf(),
        orig.rows == a2.rows,
        orig.cols == a2.rows,
        is_perm_seq(pi, a2.rows as int),
        forall|r: int, c: int| 0 <= r < a2.rows as int && 0 <= c < a2.rows as int
            ==> #[trigger] a2.at(r, c) == p_at(orig, pi, r, c),
    ensures
        (res is Ok) <==> elimination_ok(orig, pi),
        match res {
            Ok(lu) => {
                &&& lu.0.rows == a2.rows && lu.0.cols == a2.rows
                &&& lu.1.rows == a2.rows && lu.1.cols == a2.rows
                &&& lu.0.wf() && lu.1.wf()
                &&& is_unit_lower_triangular(lu.0)
                &&& is_upper_triangular(lu.1)
                &&& forall|c: int| 0 <= c < a2.rows as int ==> (#[trigger] lu.1.at(c, c)).0 != 0
                &&& forall|r: int, c: int| a2.in_range(r, c)
                        ==> qeq(#[trigger] mm_at(lu.0, lu.1, r, c), a2.at(r, c))
            },
            Err(e) => e.kind == ErrorKind::DecompFailure,
        },
        a2.rows == 0 ==> res is Ok,
        a2.rows == 1 && a2.at(0, 0).0 != 0 ==> res is Ok,
{
    let n = a2.rows;
    let dlen = a2.data.len();
    let mut l = Mat::zeros(n, n);
    let mut u = Mat::zeros(n, n);
    let mut i: usize = 0;
    while i < n
        invariant
            i <= n,
            a2.wf(),
            a2.rows == n,
            a2.cols == n,
            orig.wf(),
            orig.rows == n,
            orig.cols == n,
            is_perm_seq(pi, n as int),
            forall|r: int, c: int| 0 <= r < n as int && 0 <= c < n as int
                ==> #[trigger] a2.at(r, c) == p_at(orig, pi, r, c),
            l.rows == n,
            l.cols == n,
            u.rows == n,
            u.cols == n,
            l.wf(),
            u.wf(),
            cols_zero_from(l, i as int),
            cols_zero_from(u, i as int),
            doolittle_done(l, u, *a2, i as int),
        decreases n - i,
    {
        // Column i of U: rows 0 ..= i.
        let mut j: usize = 0;
        while j < i + 1
            invariant
                j <= i + 1,
                i < n,
                a2.wf(),
                a2.rows == n,
                a2.cols == n,
                l.rows == n,
                l.cols == n,
                u.rows == n,
                u.cols == n,
                l.wf(),
                u.wf(),
                cols_zero_from(l, i as int),
                cols_zero_from(u, i as int + 1),
                doolittle_done(l, u, *a2, i as int),
                forall|r: int| (j as int) <= r < (n as int)
                    ==> #[trigger] u.at(r, i as int) == qzero(),
                forall|r: int| 0 <= r < j as int
                    ==> #[trigger] u.at(r, i as int)
                        == qsub(a2.at(r, i as int), lu_dot(l, u, r, i as int, r)),
            decreases i + 1 - j,
        {
            let ghost tseq = Seq::new(j as nat,
                |k: int| qmul(l.at(j as int, k), u.at(k, i as int)));
            let mut s = Rat::zero();
            let mut k: usize = 0;
            proof {
                assert(tseq.take(0) =~= Seq::<(int, int)>::empty());
            }
            while k < j
                invariant
                    k <= j,
                    j <= i,
                    i < n,
                    l.rows == n,
                    l.cols == n,
                    u.rows == n,
                    u.cols == n,
                    l.wf(),
                    u.wf(),
                    s.wf(),
                    s.v() == qsum(tseq.take(k as int)),
                    tseq == Seq::new(j as nat,
                        |t: int| qmul(l.at(j as int, t), u.at(t, i as int))),
                decreases j - k,
            {
                let t = l.get(j, k).mul(u.get(k, i));
                let s2 = s.add(&t);
                proof {
                    lemma_qsum_take_step(tseq, k as int);
                }
                s = s2;
                k += 1;
            }
            proof {
                assert(tseq.take(j as int) =~= tseq);
            }
            let val = a2.get(j, i).sub(&s);
            let ghost u_old = u;
            u.set(j, i, val);
            proof {
                assert forall|r: int, c: int| 0 <= r < n as int && 0 <= c < i as int implies
                    #[trigger] u.at(r, c) == u_old.at(r, c) by {}
                lemma_done_frame(l, u_old, l, u, *a2, i as int);
                // The new entry satisfies its defining equation.
                assert forall|k2: int| 0 <= k2 < j as int implies
                    #[trigger] u.at(k2, i as int) == u_old.at(k2, i as int) by {}
                lemma_lu_dot_frame(l, u_old, l, u, j as int, i as int, j as int);
                assert(lu_dot(l, u, j as int, i as int, j as int) == qsum(tseq));
                // Older entries of column i keep their defining equations.
                assert forall|r: int| 0 <= r < j as int implies
                    #[trigger] u.at(r, i as int)
                        == qsub(a2.at(r, i as int), lu_dot(l, u, r, i as int, r)) by {
                    assert forall|k2: int| 0 <= k2 < r implies
                        #[trigger] u.at(k2, i as int) == u_old.at(k2, i as int) by {}
                    lemma_lu_dot_frame(l, u_old, l, u, r, i as int, r);
                }
            }
            j += 1;
        }
        // The pivot.
        let denom = u.get(i, i).dup();
        if denom.is_zero() {
            proof {
                // A single nonzero entry always factors: its pivot is the
                // entry itself.
                if n == 1 && a2.at(0, 0).0 != 0 {
                    assert(u.at(0, 0) == qsub(a2.at(0, 0), lu_dot(l, u, 0, 0, 0)));
                    lemma_single_entry_pivot(*a2, l, u);
                    assert(false);
                }
                // The model meets the same zero pivot here.
                lemma_columns_match(l, u, *a2, orig, pi, i as int);
                lemma_u_rows_match(l, u, *a2, orig, pi, i as int, i as int);
                lemma_at_wf(u, i as int, i as int);
                lemma_qeq_num_transfer(u.at(i as int, i as int),
                    u_entry(orig, pi, i as int, i as int));
                assert(u_entry(orig, pi, i as int, i as int).0 == 0);
                assert(!elimination_ok(orig, pi));
            }
            return Err(Error::new(ErrorKind::DecompFailure,
                "Matrix could not be LUP decomposed."));
        }
        // Column i of L: rows i .. n.
        let mut j2: usize = i;
        while j2 < n
            invariant
                i <= j2 <= n,
                i < n,
                a2.wf(),
                a2.rows == n,
                a2.cols == n,
                l.rows == n,
                l.cols == n,
                u.rows == n,
                u.cols == n,
                l.wf(),
                u.wf(),
                cols_zero_from(l, i as int + 1),
                cols_zero_from(u, i as int + 1),
                doolittle_done(l, u, *a2, i as int),
                denom.wf(),
                denom.v() == u.at(i as int, i as int),
                denom.v().0 != 0,
                forall|r: int| (i as int) < r < (n as int)
                    ==> #[trigger] u.at(r, i as int) == qzero(),
                forall|r: int| 0 <= r <= (i as int)
                    ==> #[trigger] u.at(r, i as int)
                        == qsub(a2.at(r, i as int), lu_dot(l, u, r, i as int, r)),
                forall|r: int| 0 <= r < i as int
                    ==> #[trigger] l.at(r, i as int) == qzero(),
                forall|r: int| (j2 as int) <= r < (n as int)
                    ==> #[trigger] l.at(r, i as int) == qzero(),
                forall|r: int| (i as int) <= r < (j2 as int)
                    ==> qeq(qmul(#[trigger] l.at(r, i as int), u.at(i as int, i as int)),
                            qsub(a2.at(r, i as int), lu_dot(l, u, r, i as int, i as int))),
            decreases n - j2,
        {
            let ghost tseq = Seq::new(i as nat,
                |k: int| qmul(l.at(j2 as int, k), u.at(k, i as int)));
            let mut s = Rat::zero();
            let mut k: usize = 0;
            proof {
                assert(tseq.take(0) =~= Seq::<(int, int)>::empty());
            }
            while k < i
                invariant
                    k <= i,
                    i <= j2,
                    j2 < n,
                    l.rows == n,
                    l.cols == n,
                    u.rows == n,
                    u.cols == n,
                    l.wf(),
                    u.wf(),
                    s.wf(),
                    s.v() == qsum(tseq.take(k as int)),
                    tseq == Seq::new(i as nat,
                        |t: int| qmul(l.at(j2 as int, t), u.at(t, i as int))),
                decreases i - k,
            {
                let t = l.get(j2, k).mul(u.get(k, i));
                let s2 = s.add(&t);
                proof {
                    lemma_qsum_take_step(tseq, k as int);
                }
                s = s2;
                k += 1;
            }
            proof {
                assert(tseq.take(i as int) =~= tseq);
            }
            let val = a2.get(j2, i).sub(&s);
            let q = val.div(&denom);
            let ghost l_old = l;
            l.set(j2, i, q);
            proof {
                assert forall|r: int, c: int| 0 <= r < n as int && 0 <= c < i as int implies
                    #[trigger] l.at(r, c) == l_old.at(r, c) by {}
                lemma_done_frame(l_old, u, l, u, *a2, i as int);
                // The defining equations of column i of U read only rows of
                // L before column i, so they survive the write.
                assert forall|r: int| 0 <= r <= (i as int) implies
                    #[trigger] u.at(r, i as int)
                        == qsub(a2.at(r, i as int), lu_dot(l, u, r, i as int, r)) by {
                    assert forall|k2: int| 0 <= k2 < r implies
                        #[trigger] l.at(r, k2) == l_old.at(r, k2) by {}
                    lemma_lu_dot_frame(l_old, u, l, u, r, i as int, r);
                }
                // The new entry of L satisfies its defining equation.
                assert forall|k2: int| 0 <= k2 < i as int implies
                    #[trigger] l.at(j2 as int, k2) == l_old.at(j2 as int, k2) by {}
                lemma_lu_dot_frame(l_old, u, l, u, j2 as int, i as int, i as int);
                assert(lu_dot(l, u, j2 as int, i as int, i as int) == qsum(tseq));
                // Older entries of column i of L keep their equations.
                assert forall|r: int| (i as int) <= r < (j2 as int) implies
                    qeq(qmul(#[trigger] l.at(r, i as int), u.at(i as int, i as int)),
                        qsub(a2.at(r, i as int), lu_dot(l, u, r, i as int, i as int))) by {
                    assert forall|k2: int| 0 <= k2 < i as int implies
                        #[trigger] l.at(r, k2) == l_old.at(r, k2) by {}
                    lemma_lu_dot_frame(l_old, u, l, u, r, i as int, i as int);
                }
            }
            j2 += 1;
        }
        proof {
            // The diagonal entry of L denotes one: it was divided by the
            // pivot that also defines the diagonal entry of U.
            lemma_at_wf(u, i as int, i as int);
            lemma_factor_is_one(l.at(i as int, i as int), u.at(i as int, i as int));
            assert(doolittle_done(l, u, *a2, i as int + 1));
            assert(cols_zero_from(l, i as int + 1));
            assert(cols_zero_from(u, i as int + 1));
        }
        i += 1;
    }
    proof {
        lemma_doolittle_reconstruct(l, u, *a2);
        assert forall|r: int, c: int| l.in_range(r, c) && r < c implies
            qeq(#[trigger] l.at(r, c), qzero()) by {}
        assert forall|r: int, c: int| u.in_range(r, c) && r > c implies
            qeq(#[trigger] u.at(r, c), qzero()) by {}
        // Every model pivot denotes a nonzero value.
        lemma_columns_match(l, u, *a2, orig, pi, n as int);
    }
    Ok((l, u))
}

// ---------------------------------------------------------------------------
// The public decomposition.
// ---------------------------------------------------------------------------

impl Mat {
    /// LUP decomposition: returns `(L, U, P)` with `L` unit lower
    /// triangular, `U` upper triangular with every pivot nonzero, `P` the
    /// permutation matrix of the pivot sweep, and `L·U` denoting `P·A`
    /// entry by entry. Fails, with `DecompFailure`, exactly when the
    /// elimination meets a pivot denoting zero — `lup_ok` states that
    /// condition in the model.
    #[verifier::rlimit(100)]
    pub fn lup_decomp(&self) -> (res: Result<(Mat, Mat, Mat), Error>)
        requires
            self.wf(),
            self.is_square(),
        ensures
            match res {
                Ok(lup) => {
                    &&& lup.0.rows == self.rows && lup.0.cols == self.rows
                    &&& lup.1.rows == self.rows && lup.1.cols == self.rows
                    &&& lup.2.rows == self.rows && lup.2.cols == self.rows
                    &&& lup.0.wf() && lup.1.wf() && lup.2.wf()
                    &&& is_unit_lower_triangular(lup.0)
                    &&& is_upper_triangular(lup.1)
                    &&& forall|c: int| 0 <= c < self.rows as int
                            ==> (#[trigger] lup.1.at(c, c)).0 != 0
                    &&& is_perm_matrix(lup.2, pivot_perm(*self))
                    &&& exists|pi: Seq<int>| is_perm_matrix(lup.2, pi)
                    &&& forall|r: int, c: int| self.in_range(r, c)
                            ==> qeq(#[trigger] mm_at(lup.0, lup.1, r, c), mm_at(lup.2, *self, r, c))
                },
                Err(e) => e.kind == ErrorKind::DecompFailure,
            },
            (res is Ok) <==> lup_ok(*self),
            self.rows == 0 ==> res is Ok,
            self.rows == 1 && self.at(0, 0).0 != 0 ==> res is Ok,
    {
        let n = self.rows;
        let dlen = self.data.len();
        // Build the permutation: for each row, the first signed arg-max of
        // the sub-column at and below the diagonal, its offset taken as the
        // row of the permutation to exchange.
        let mut perm: Vec<usize> = Vec::new();
        let mut t: usize = 0;
        while t < n
            invariant
                t <= n,
                perm@.len() == t as int,
                forall|k: int| 0 <= k < t as int ==> #[trigger] perm@[k] == k as usize,
            decreases n - t,
        {
            perm.push(t);
            t += 1;
        }
        proof {
            assert forall|r: int| 0 <= r < n as int implies
                #[trigger] has_preimage(perm_view(perm@), n as int, r) by {
                assert(perm_view(perm@)[r] == r);
            }
            assert(is_perm_seq(perm_view(perm@), n as int));
            assert(perm_view(perm@) =~= pivot_perm_upto(*self, 0));
        }
        let mut i: usize = 0;
        while i < n
            invariant
                i <= n,
                self.wf(),
                self.rows == n,
                self.cols == n,
                perm@.len() == n as int,
                is_perm_seq(perm_view(perm@), n as int),
                perm_view(perm@) == pivot_perm_upto(*self, i as int),
            decreases n - i,
        {
            let rm = argmax_subcol(self, i);
            if rm != 0 {
                let ghost before = perm_view(perm@);
                let x = perm[i];
                let y = perm[rm];
                perm[i] = y;
                perm[rm] = x;
                proof {
                    lemma_perm_swap(before, n as int, i as int, rm as int);
                    assert(perm_view(perm@)
                        =~= before.update(i as int, before[rm as int])
                            .update(rm as int, before[i as int]));
                    assert(perm_view(perm@) == pivot_perm_upto(*self, i as int + 1));
                }
            } else {
                proof {
                    assert(perm_view(perm@) == pivot_perm_upto(*self, i as int + 1));
                }
            }
            i += 1;
        }
        let p = perm_matrix(&perm);
        let a2 = permuted_rows(self, &perm);
        proof {
            assert(perm_view(perm@) == pivot_perm(*self));
        }
        match doolittle(&a2, Ghost(*self), Ghost(perm_view(perm@))) {
            Ok((l, u)) => {
                proof {
                    let pi = perm_view(perm@);
                    assert forall|r: int, c: int| self.in_range(r, c) implies
                        qeq(#[trigger] mm_at(l, u, r, c), mm_at(p, *self, r, c)) by {
                        lemma_perm_mm(p, *self, pi, r, c);
                        lemma_at_wf(a2, r, c);
                        lemma_mm_wf(l, u, r, c);
                        lemma_qeq_trans(mm_at(l, u, r, c), a2.at(r, c), mm_at(p, *self, r, c));
                    }
                    assert(is_perm_matrix(p, pi));
                    assert(is_perm_matrix(p, pivot_perm(*self)));
                    assert(elimination_ok(*self, pivot_perm(*self)));
                    assert(lup_ok(*self));
                }
                Ok((l, u, p))
            },
            Err(_) => {
                proof {
                    if n == 1 && self.at(0, 0).0 != 0 {
                        assert(perm_view(perm@)[0] == 0);
                        assert(a2.at(0, 0) == self.at(0, 0));
                        assert(false);
                    }
                    assert(!elimination_ok(*self, pivot_perm(*self)));
                    assert(!lup_ok(*self));
                }
                Err(Error::new(ErrorKind::DecompFailure,
                    "Matrix could not be LUP decomposed."))
            },
        }
    }
}

/// The product entry is well formed whenever both factors are.
pub proof fn lemma_mm_wf(a: Mat, b: Mat, i: int, j: int)
    requires
        a.wf(),
        b.wf(),
        a.cols == b.rows,
        0 <= i < a.rows as int,
        0 <= j < b.cols as int,
    ensures
        qwf(mm_at(a, b, i, j)),
{
    let s = Seq::new(a.cols as nat, |k: int| qmul(a.at(i, k), b.at(k, j)));
    assert forall|k: int| 0 <= k < s.len() implies qwf(#[trigger] s[k]) by {
        lemma_at_wf(a, i, k);
        lemma_at_wf(b, k, j);
        lemma_qwf_qmul(a.at(i, k), b.at(k, j));
    }
    lemma_qsum_wf(s);
}

} // verus!
