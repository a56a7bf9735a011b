//! Solving linear systems, and the inverse, through the LUP factorization.
//!
//! `solve` applies forward then backward substitution to the permuted
//! right-hand side; `inverse` solves for each standard basis column and
//! transposes the stacked result. Both contracts are exact: a returned
//! solution satisfies `A·x = y` in value, a returned inverse satisfies
//! `A·B = I` and `B·A = I` in value, entry by entry, and both operations
//! succeed exactly when the LUP factorization does — with exact
//! arithmetic the substitutions and the diagonal-product check can never
//! fail once the factorization has.

use vstd::prelude::*;
use crate::rational::{
    Rat, qwf, qeq, qzero, qone, qadd, qneg, qsub, qmul, qsum, seq_qwf,
    lemma_qeq_trans, lemma_qadd_congr, lemma_qmul_congr, lemma_qmul_comm,
    lemma_qmul_rearrange, lemma_qmul_one, lemma_qmul_dist, lemma_qsum_congr,
    lemma_qsum_wf, lemma_qsum_zero_beyond, lemma_qsum_take_step,
    lemma_qsum_collapse, lemma_qsum_scale, lemma_qsum_concat,
    lemma_qsum_exchange, grid_col, lemma_qsum_add, lemma_qsum_neg,
    lemma_qneg_qmul, lemma_qwf_qadd, lemma_qwf_qmul,
};
use crate::matrix::{
    Mat, Vector, mm_at, mv_at, is_perm_matrix, is_unit_lower_triangular,
    is_upper_triangular, has_preimage, ident_at, lemma_at_wf, lemma_mv_wf,
    lemma_mv_terms_wf, lemma_idx_bound, mat_vec_mul,
};
use crate::substitution::{mv_prefix, mv_suffix, forward_substitution, back_substitution};
use crate::lup::lup_ok;
use crate::det::lu_diag_prod;
use crate::error::{Error, ErrorKind};

verus! {

// ---------------------------------------------------------------------------
// Rows of triangular and permutation matrices.
// ---------------------------------------------------------------------------

/// A product with a permutation matrix on the left selects an entry of the
/// vector.
pub proof fn lemma_perm_mv(p: Mat, x: Seq<(int, int)>, pi: Seq<int>, i: int)
    requires
        p.wf(),
        is_perm_matrix(p, pi),
        seq_qwf(x),
        x.len() == p.cols as int,
        0 <= i < p.rows as int,
    ensures
        qeq(mv_at(p, x, i), x[pi[i]]),
{
    let n = p.cols as int;
    let terms = Seq::new(p.cols as nat, |k: int| qmul(p.at(i, k), x[k]));
    lemma_mv_terms_wf(p, x, i);
    let w = pi[i];
    assert forall|k: int| 0 <= k < n && k != w implies qeq(#[trigger] terms[k], qzero()) by {
        assert(p.at(i, k) == qzero());
        assert(terms[k].0 == 0 * x[k].0);
    }
    lemma_qsum_collapse(terms, w);
    assert(p.at(i, w) == qone());
    lemma_qmul_one(x[w], p.at(i, w));
    lemma_qwf_qmul(p.at(i, w), x[w]);
    lemma_qeq_trans(qsum(terms), terms[w], x[w]);
}

/// For a unit lower triangular row, the full dot product denotes the
/// diagonal-and-below part.
pub proof fn lemma_lower_full_row(l: Mat, b: Seq<(int, int)>, i: int)
    requires
        l.wf(),
        l.is_square(),
        is_unit_lower_triangular(l),
        seq_qwf(b),
        b.len() == l.rows as int,
        0 <= i < l.rows as int,
    ensures
        qeq(mv_at(l, b, i), qadd(mv_prefix(l, b, i, i), qmul(l.at(i, i), b[i]))),
{
    let n = l.rows as int;
    let terms = Seq::new(l.cols as nat, |k: int| qmul(l.at(i, k), b[k]));
    lemma_mv_terms_wf(l, b, i);
    assert forall|k: int| i + 1 <= k < n implies qeq(#[trigger] terms[k], qzero()) by {
        assert(qeq(l.at(i, k), qzero()));
        assert(terms[k].0 == 0 * b[k].0) by {
            assert(l.at(i, k).0 * 1 == 0 * l.at(i, k).1);
        }
    }
    lemma_qsum_zero_beyond(terms, i + 1);
    lemma_qsum_take_step(terms, i);
    assert(terms.take(i) =~= Seq::new(i as nat, |t: int| qmul(l.at(i, t), b[t])));
}

/// For an upper triangular row, the full dot product denotes the
/// diagonal-and-beyond part.
pub proof fn lemma_upper_full_row(u: Mat, x: Seq<(int, int)>, i: int)
    requires
        u.wf(),
        u.is_square(),
        is_upper_triangular(u),
        seq_qwf(x),
        x.len() == u.rows as int,
        0 <= i < u.rows as int,
    ensures
        qeq(mv_at(u, x, i), qadd(qmul(u.at(i, i), x[i]), mv_suffix(u, x, i, i + 1))),
{
    let n = u.rows as int;
    let terms = Seq::new(u.cols as nat, |k: int| qmul(u.at(i, k), x[k]));
    lemma_mv_terms_wf(u, x, i);
    assert(terms =~= terms.take(i) + terms.skip(i));
    lemma_qsum_concat(terms.take(i), terms.skip(i));
    // The part before the diagonal denotes zero.
    assert forall|k: int| 0 <= k < i implies qeq(#[trigger] terms[k], qzero()) by {
        assert(qeq(u.at(i, k), qzero()));
        assert(terms[k].0 == 0 * x[k].0) by {
            assert(u.at(i, k).0 * 1 == 0 * u.at(i, k).1);
        }
    }
    assert(seq_qwf(terms.take(i)));
    lemma_qsum_zero_beyond(terms.take(i), 0);
    assert(terms.take(i).take(0) =~= Seq::<(int, int)>::empty());
    // The rest is the diagonal term followed by the suffix.
    let d = qmul(u.at(i, i), x[i]);
    let single = Seq::new(1, |_t: int| qmul(u.at(i, i), x[i]));
    let suffix = Seq::new((u.cols - (i + 1)) as nat,
        |t: int| qmul(u.at(i, i + 1 + t), x[i + 1 + t]));
    assert(terms.skip(i) =~= single + suffix);
    lemma_qsum_concat(single, suffix);
    assert(single.drop_last() =~= Seq::<(int, int)>::empty());
    assert(qsum(single) == qadd(qzero(), d));
    assert(0 * d.1 + d.0 * 1 == d.0 && 1 * d.1 == d.1) by (nonlinear_arith);
    assert(qsum(single) == d);
    // Assemble: the whole sum denotes the diagonal-and-beyond part.
    let rest = qadd(d, qsum(suffix));
    assert(qsum(terms) == qadd(qsum(terms.take(i)), rest));
    assert forall|k: int| 0 <= k < suffix.len() implies qwf(#[trigger] suffix[k]) by {
        lemma_at_wf(u, i, i + 1 + k);
        lemma_qwf_qmul(u.at(i, i + 1 + k), x[i + 1 + k]);
    }
    lemma_qsum_wf(suffix);
    lemma_at_wf(u, i, i);
    lemma_qwf_qmul(u.at(i, i), x[i]);
    lemma_qwf_qadd(d, qsum(suffix));
    lemma_qadd_congr(qsum(terms.take(i)), rest, qzero(), rest);
    assert(qadd(qzero(), rest) == rest) by {
        assert(0 * rest.1 + rest.0 * 1 == rest.0 && 1 * rest.1 == rest.1) by (nonlinear_arith);
    }
    lemma_qsum_wf(terms.take(i));
    lemma_qwf_qadd(qsum(terms.take(i)), rest);
    lemma_qeq_trans(qsum(terms), qadd(qsum(terms.take(i)), rest), rest);
}

// ---------------------------------------------------------------------------
// The composition: L, U and P reconstruct solutions of the original system.
// ---------------------------------------------------------------------------

/// Row `i` of `L` applied to the vector of row sums of `U x` denotes row
/// `pi[i]` of `A` applied to `x`: the associativity `(L·U)·x = L·(U·x)`,
/// one row at a time, routed through the permutation.
#[verifier::rlimit(100)]
pub proof fn lemma_lu_row_action(a: Mat, l: Mat, u: Mat, p: Mat, pi: Seq<int>,
        xv: Seq<(int, int)>, i: int)
    requires
        a.wf(),
        l.wf(),
        u.wf(),
        p.wf(),
        a.is_square(),
        l.rows == a.rows,
        l.cols == a.rows,
        u.rows == a.rows,
        u.cols == a.rows,
        p.rows == a.rows,
        p.cols == a.rows,
        is_perm_matrix(p, pi),
        forall|r: int, c: int| a.in_range(r, c)
            ==> qeq(#[trigger] mm_at(l, u, r, c), mm_at(p, a, r, c)),
        seq_qwf(xv),
        xv.len() == a.rows as int,
        0 <= i < a.rows as int,
    ensures
        qeq(qsum(Seq::new(a.rows as nat, |k: int| qmul(l.at(i, k), mv_at(u, xv, k)))),
            mv_at(a, xv, pi[i])),
        qwf(qsum(Seq::new(a.rows as nat, |k: int| qmul(l.at(i, k), mv_at(u, xv, k))))),
{
    let n = a.rows as int;
    let lbig = Seq::new(a.rows as nat, |k: int| qmul(l.at(i, k), mv_at(u, xv, k)));
    assert forall|k: int| 0 <= k < lbig.len() implies qwf(#[trigger] lbig[k]) by {
        lemma_at_wf(l, i, k);
        lemma_mv_wf(u, xv, k);
        lemma_qwf_qmul(l.at(i, k), mv_at(u, xv, k));
    }
    // Each term of lbig denotes a row sum of the product grid.
    let g = Seq::new(a.rows as nat,
        |k: int| Seq::new(a.rows as nat,
            |j: int| qmul(qmul(u.at(k, j), xv[j]), l.at(i, k))));
    let rows = Seq::new(g.len(), |k: int| qsum(g[k]));
    assert forall|k: int| 0 <= k < n implies
        seq_qwf(#[trigger] g[k]) && qeq(lbig[k], qsum(g[k])) by {
        let uterms = Seq::new(a.rows as nat, |j: int| qmul(u.at(k, j), xv[j]));
        assert forall|j: int| 0 <= j < n implies qwf(#[trigger] uterms[j]) by {
            lemma_at_wf(u, k, j);
            lemma_qwf_qmul(u.at(k, j), xv[j]);
        }
        assert forall|j: int| 0 <= j < g[k].len() implies qwf(#[trigger] g[k][j]) by {
            lemma_at_wf(u, k, j);
            lemma_qwf_qmul(u.at(k, j), xv[j]);
            lemma_at_wf(l, i, k);
            lemma_qwf_qmul(qmul(u.at(k, j), xv[j]), l.at(i, k));
        }
        lemma_at_wf(l, i, k);
        lemma_qsum_scale(uterms, l.at(i, k));
        assert(g[k] =~= Seq::new(uterms.len(), |j: int| qmul(uterms[j], l.at(i, k))));
        lemma_qmul_comm(l.at(i, k), mv_at(u, xv, k));
    }
    assert forall|k: int| 0 <= k < rows.len() implies qwf(#[trigger] rows[k]) by {
        lemma_qsum_wf(g[k]);
    }
    lemma_qsum_congr(lbig, rows);
    // Exchange the double sum.
    lemma_qsum_exchange(g, a.rows as nat);
    let cols = Seq::new(a.rows as nat, |j: int| qsum(grid_col(g, j)));
    // Each column sum denotes the matching term of row pi[i] of A.
    let aterms = Seq::new(a.rows as nat, |j: int| qmul(a.at(pi[i], j), xv[j]));
    assert forall|k: int| 0 <= k < aterms.len() implies qwf(#[trigger] aterms[k]) by {
        lemma_at_wf(a, pi[i], k);
        lemma_qwf_qmul(a.at(pi[i], k), xv[k]);
    }
    assert forall|k: int| 0 <= k < cols.len() implies
        qwf(#[trigger] cols[k]) && qeq(cols[k], aterms[k]) by {
        let j = k;
        let luterms = Seq::new(a.rows as nat, |t: int| qmul(l.at(i, t), u.at(t, j)));
        assert forall|t: int| 0 <= t < n implies qwf(#[trigger] luterms[t]) by {
            lemma_at_wf(l, i, t);
            lemma_at_wf(u, t, j);
            lemma_qwf_qmul(l.at(i, t), u.at(t, j));
        }
        assert forall|t: int| 0 <= t < n implies
            #[trigger] grid_col(g, j)[t] == qmul(luterms[t], xv[j]) by {
            lemma_qmul_rearrange(u.at(t, j), xv[j], l.at(i, t));
        }
        assert(grid_col(g, j) =~= Seq::new(luterms.len(), |t: int| qmul(luterms[t], xv[j])));
        lemma_qsum_scale(luterms, xv[j]);
        assert(qsum(luterms) == mm_at(l, u, i, j)) by {
            assert(luterms =~= Seq::new(l.cols as nat,
                |t: int| qmul(l.at(i, t), u.at(t, j))));
        }
        crate::lup::lemma_perm_mm(p, a, pi, i, j);
        crate::lup::lemma_mm_wf(l, u, i, j);
        crate::lup::lemma_mm_wf(p, a, i, j);
        lemma_at_wf(a, pi[i], j);
        lemma_qeq_trans(mm_at(l, u, i, j), mm_at(p, a, i, j), a.at(pi[i], j));
        lemma_qmul_congr(mm_at(l, u, i, j), xv[j], a.at(pi[i], j), xv[j]);
        lemma_qwf_qmul(mm_at(l, u, i, j), xv[j]);
        lemma_qsum_wf(grid_col(g, j));
        lemma_qwf_qmul(a.at(pi[i], j), xv[j]);
        lemma_qeq_trans(qsum(grid_col(g, j)), qmul(mm_at(l, u, i, j), xv[j]),
            qmul(a.at(pi[i], j), xv[j]));
    }
    lemma_qsum_congr(cols, aterms);
    assert(qsum(aterms) == mv_at(a, xv, pi[i])) by {
        assert(aterms =~= Seq::new(a.cols as nat, |j: int| qmul(a.at(pi[i], j), xv[j])));
    }
    lemma_qsum_wf(lbig);
    lemma_qsum_wf(rows);
    lemma_qsum_wf(cols);
    lemma_qeq_trans(mv_at(a, xv, pi[i]), qsum(cols), qsum(lbig));
}

/// If `L·U` denotes `P·A`, `L b = P y` and `U x = b` row by row, then
/// `A x = y` row by row.
#[verifier::rlimit(100)]
proof fn lemma_solution_reconstructs(a: Mat, l: Mat, u: Mat, p: Mat, pi: Seq<int>,
        yv: Seq<(int, int)>, pyv: Seq<(int, int)>, bv: Seq<(int, int)>, xv: Seq<(int, int)>)
    requires
        a.wf(),
        l.wf(),
        u.wf(),
        p.wf(),
        a.is_square(),
        l.rows == a.rows,
        l.cols == a.rows,
        u.rows == a.rows,
        u.cols == a.rows,
        p.rows == a.rows,
        p.cols == a.rows,
        is_perm_matrix(p, pi),
        is_unit_lower_triangular(l),
        is_upper_triangular(u),
        forall|r: int, c: int| a.in_range(r, c)
            ==> qeq(#[trigger] mm_at(l, u, r, c), mm_at(p, a, r, c)),
        seq_qwf(yv),
        seq_qwf(pyv),
        seq_qwf(bv),
        seq_qwf(xv),
        yv.len() == a.rows as int,
        pyv.len() == a.rows as int,
        bv.len() == a.rows as int,
        xv.len() == a.rows as int,
        forall|i: int| 0 <= i < a.rows as int ==> #[trigger] pyv[i] == mv_at(p, yv, i),
        forall|i: int| 0 <= i < a.rows as int
            ==> qeq(qadd(mv_prefix(l, bv, i, i), qmul(#[trigger] l.at(i, i), bv[i])), pyv[i]),
        forall|i: int| 0 <= i < a.rows as int
            ==> qeq(qadd(qmul(#[trigger] u.at(i, i), xv[i]), mv_suffix(u, xv, i, i + 1)), bv[i]),
    ensures
        forall|r: int| 0 <= r < a.rows as int ==> qeq(#[trigger] mv_at(a, xv, r), yv[r]),
{
    let n = a.rows as int;
    // Full rows of U denote the entries of b.
    assert forall|k: int| 0 <= k < n implies qeq(#[trigger] mv_at(u, xv, k), bv[k]) by {
        lemma_upper_full_row(u, xv, k);
        lemma_at_wf(u, k, k);
        lemma_qwf_qmul(u.at(k, k), xv[k]);
        let sfx = Seq::new((u.cols - (k + 1)) as nat,
            |t2: int| qmul(u.at(k, k + 1 + t2), xv[k + 1 + t2]));
        assert forall|t: int| 0 <= t < sfx.len() implies qwf(#[trigger] sfx[t]) by {
            lemma_at_wf(u, k, k + 1 + t);
            lemma_qwf_qmul(u.at(k, k + 1 + t), xv[k + 1 + t]);
        }
        lemma_qsum_wf(sfx);
        lemma_qwf_qadd(qmul(u.at(k, k), xv[k]), mv_suffix(u, xv, k, k + 1));
        lemma_qeq_trans(mv_at(u, xv, k),
            qadd(qmul(u.at(k, k), xv[k]), mv_suffix(u, xv, k, k + 1)), bv[k]);
    }
    // Full rows of L denote the entries of P y.
    assert forall|i: int| 0 <= i < n implies qeq(#[trigger] mv_at(l, bv, i), pyv[i]) by {
        lemma_lower_full_row(l, bv, i);
        lemma_at_wf(l, i, i);
        lemma_qwf_qmul(l.at(i, i), bv[i]);
        let pfx = Seq::new(i as nat, |t2: int| qmul(l.at(i, t2), bv[t2]));
        assert forall|t: int| 0 <= t < pfx.len() implies qwf(#[trigger] pfx[t]) by {
            lemma_at_wf(l, i, t);
            lemma_qwf_qmul(l.at(i, t), bv[t]);
        }
        lemma_qsum_wf(pfx);
        lemma_qwf_qadd(mv_prefix(l, bv, i, i), qmul(l.at(i, i), bv[i]));
        lemma_qeq_trans(mv_at(l, bv, i),
            qadd(mv_prefix(l, bv, i, i), qmul(l.at(i, i), bv[i])), pyv[i]);
    }
    // For each row i of the factorization, row pi[i] of A reconstructs.
    assert forall|i: int| 0 <= i < n implies
        qeq(mv_at(a, xv, #[trigger] pi[i]), yv[pi[i]]) by {
        let lb = Seq::new(a.rows as nat, |k: int| qmul(l.at(i, k), bv[k]));
        let lbig = Seq::new(a.rows as nat, |k: int| qmul(l.at(i, k), mv_at(u, xv, k)));
        assert forall|k: int| 0 <= k < lb.len() implies qwf(#[trigger] lb[k]) by {
            lemma_at_wf(l, i, k);
            lemma_qwf_qmul(l.at(i, k), bv[k]);
        }
        assert forall|k: int| 0 <= k < lbig.len() implies qwf(#[trigger] lbig[k]) by {
            lemma_at_wf(l, i, k);
            lemma_mv_wf(u, xv, k);
            lemma_qwf_qmul(l.at(i, k), mv_at(u, xv, k));
        }
        assert forall|k: int| 0 <= k < n implies qeq(#[trigger] lb[k], lbig[k]) by {
            lemma_mv_wf(u, xv, k);
            lemma_qmul_congr(l.at(i, k), bv[k], l.at(i, k), mv_at(u, xv, k));
        }
        lemma_qsum_congr(lb, lbig);
        lemma_lu_row_action(a, l, u, p, pi, xv, i);
        lemma_qsum_wf(lbig);
        lemma_qsum_wf(lb);
        assert(qsum(lb) == mv_at(l, bv, i)) by {
            assert(lb =~= Seq::new(l.cols as nat, |k: int| qmul(l.at(i, k), bv[k])));
        }
        lemma_qeq_trans(mv_at(a, xv, pi[i]), qsum(lbig), qsum(lb));
        lemma_qeq_trans(mv_at(a, xv, pi[i]), mv_at(l, bv, i), pyv[i]);
        lemma_perm_mv(p, yv, pi, i);
        assert(qwf(pyv[i]));
        lemma_qeq_trans(mv_at(a, xv, pi[i]), pyv[i], yv[pi[i]]);
    }
    // The permutation is onto, so every row of A reconstructs.
    assert forall|r: int| 0 <= r < n implies qeq(#[trigger] mv_at(a, xv, r), yv[r]) by {
        assert(has_preimage(pi, n, r));
        let i = choose|i: int| 0 <= i < n && #[trigger] pi[i] == r;
        assert(qeq(mv_at(a, xv, pi[i]), yv[pi[i]]));
    }
}

/// The product of the factor diagonals holds a nonzero numerator: the
/// diagonal of L denotes one and every pivot of U is nonzero.
proof fn lemma_lu_diag_prod_nonzero(l: Mat, u: Mat, k: int)
    requires
        l.wf(),
        u.wf(),
        l.cols == l.rows,
        u.rows == l.rows,
        u.cols == l.rows,
        is_unit_lower_triangular(l),
        forall|c: int| 0 <= c < l.rows as int ==> (#[trigger] u.at(c, c)).0 != 0,
        0 <= k <= l.rows as int,
    ensures
        lu_diag_prod(l, u, k).0 != 0,
    decreases k,
{
    if k <= 0 {
    } else {
        lemma_lu_diag_prod_nonzero(l, u, k - 1);
        lemma_at_wf(l, k - 1, k - 1);
        assert(qeq(l.at(k - 1, k - 1), qone()));
        assert(l.at(k - 1, k - 1).0 == l.at(k - 1, k - 1).1) by (nonlinear_arith)
            requires
                l.at(k - 1, k - 1).0 * 1 == 1 * l.at(k - 1, k - 1).1;
        assert((lu_diag_prod(l, u, k - 1).0 * l.at(k - 1, k - 1).0) * u.at(k - 1, k - 1).0
            != 0) by (nonlinear_arith)
            requires
                lu_diag_prod(l, u, k - 1).0 != 0,
                l.at(k - 1, k - 1).0 != 0,
                u.at(k - 1, k - 1).0 != 0;
    }
}

/// Row `i` of `x` applied to the row sums of `y` against `v` denotes the
/// product row applied to `v`: the associativity `(x·y)·v = x·(y·v)`, one
/// row at a time.
#[verifier::rlimit(100)]
pub proof fn lemma_mv_composition(x: Mat, y: Mat, v: Seq<(int, int)>, i: int)
    requires
        x.wf(),
        y.wf(),
        x.is_square(),
        y.rows == x.rows,
        y.cols == x.rows,
        seq_qwf(v),
        v.len() == x.rows as int,
        0 <= i < x.rows as int,
    ensures
        qeq(qsum(Seq::new(x.rows as nat, |k: int| qmul(x.at(i, k), mv_at(y, v, k)))),
            qsum(Seq::new(x.rows as nat, |t: int| qmul(mm_at(x, y, i, t), v[t])))),
        qwf(qsum(Seq::new(x.rows as nat, |k: int| qmul(x.at(i, k), mv_at(y, v, k))))),
        qwf(qsum(Seq::new(x.rows as nat, |t: int| qmul(mm_at(x, y, i, t), v[t])))),
{
    let n = x.rows as int;
    let lbig = Seq::new(x.rows as nat, |k: int| qmul(x.at(i, k), mv_at(y, v, k)));
    assert forall|k: int| 0 <= k < lbig.len() implies qwf(#[trigger] lbig[k]) by {
        lemma_at_wf(x, i, k);
        lemma_mv_wf(y, v, k);
        lemma_qwf_qmul(x.at(i, k), mv_at(y, v, k));
    }
    let g = Seq::new(x.rows as nat,
        |k: int| Seq::new(x.rows as nat,
            |j: int| qmul(qmul(y.at(k, j), v[j]), x.at(i, k))));
    let rows = Seq::new(g.len(), |k: int| qsum(g[k]));
    assert forall|k: int| 0 <= k < n implies
        seq_qwf(#[trigger] g[k]) && qeq(lbig[k], qsum(g[k])) by {
        let yterms = Seq::new(x.rows as nat, |j: int| qmul(y.at(k, j), v[j]));
        assert forall|j: int| 0 <= j < n implies qwf(#[trigger] yterms[j]) by {
            lemma_at_wf(y, k, j);
            lemma_qwf_qmul(y.at(k, j), v[j]);
        }
        assert forall|j: int| 0 <= j < g[k].len() implies qwf(#[trigger] g[k][j]) by {
            lemma_at_wf(y, k, j);
            lemma_qwf_qmul(y.at(k, j), v[j]);
            lemma_at_wf(x, i, k);
            lemma_qwf_qmul(qmul(y.at(k, j), v[j]), x.at(i, k));
        }
        lemma_at_wf(x, i, k);
        lemma_qsum_scale(yterms, x.at(i, k));
        assert(g[k] =~= Seq::new(yterms.len(), |j: int| qmul(yterms[j], x.at(i, k))));
        lemma_qmul_comm(x.at(i, k), mv_at(y, v, k));
    }
    assert forall|k: int| 0 <= k < rows.len() implies qwf(#[trigger] rows[k]) by {
        lemma_qsum_wf(g[k]);
    }
    lemma_qsum_congr(lbig, rows);
    lemma_qsum_exchange(g, x.rows as nat);
    let cols = Seq::new(x.rows as nat, |j: int| qsum(grid_col(g, j)));
    let aterms = Seq::new(x.rows as nat, |j: int| qmul(mm_at(x, y, i, j), v[j]));
    assert forall|k: int| 0 <= k < aterms.len() implies qwf(#[trigger] aterms[k]) by {
        crate::lup::lemma_mm_wf(x, y, i, k);
        lemma_qwf_qmul(mm_at(x, y, i, k), v[k]);
    }
    assert forall|k: int| 0 <= k < cols.len() implies
        qwf(#[trigger] cols[k]) && qeq(cols[k], aterms[k]) by {
        let j = k;
        let xyterms = Seq::new(x.rows as nat, |t: int| qmul(x.at(i, t), y.at(t, j)));
        assert forall|t: int| 0 <= t < n implies qwf(#[trigger] xyterms[t]) by {
            lemma_at_wf(x, i, t);
            lemma_at_wf(y, t, j);
            lemma_qwf_qmul(x.at(i, t), y.at(t, j));
        }
        assert forall|t: int| 0 <= t < n implies
            #[trigger] grid_col(g, j)[t] == qmul(xyterms[t], v[j]) by {
            lemma_qmul_rearrange(y.at(t, j), v[j], x.at(i, t));
        }
        assert(grid_col(g, j) =~= Seq::new(xyterms.len(), |t: int| qmul(xyterms[t], v[j])));
        lemma_qsum_scale(xyterms, v[j]);
        assert(qsum(xyterms) == mm_at(x, y, i, j)) by {
            assert(xyterms =~= Seq::new(x.cols as nat,
                |t: int| qmul(x.at(i, t), y.at(t, j))));
        }
        lemma_qsum_wf(grid_col(g, j));
    }
    lemma_qsum_congr(cols, aterms);
    lemma_qsum_wf(lbig);
    lemma_qsum_wf(rows);
    lemma_qsum_wf(cols);
    lemma_qsum_wf(aterms);
    lemma_qeq_trans(qsum(lbig), qsum(cols), qsum(aterms));
}

/// A row applied to a pointwise difference denotes the difference of the
/// row applied to each operand.
#[verifier::rlimit(100)]
pub proof fn lemma_mv_sub(a: Mat, uv: Seq<(int, int)>, vv: Seq<(int, int)>, r: int)
    requires
        a.wf(),
        seq_qwf(uv),
        seq_qwf(vv),
        uv.len() == a.cols as int,
        vv.len() == a.cols as int,
        0 <= r < a.rows as int,
    ensures
        qeq(mv_at(a, Seq::new(uv.len(), |k: int| qsub(uv[k], vv[k])), r),
            qsub(mv_at(a, uv, r), mv_at(a, vv, r))),
{
    let dv = Seq::new(uv.len(), |k: int| qsub(uv[k], vv[k]));
    let terms_d = Seq::new(a.cols as nat, |k: int| qmul(a.at(r, k), dv[k]));
    let terms_u = Seq::new(a.cols as nat, |k: int| qmul(a.at(r, k), uv[k]));
    let terms_v = Seq::new(a.cols as nat, |k: int| qmul(a.at(r, k), vv[k]));
    let terms_nv = Seq::new(terms_v.len(), |k: int| qneg(terms_v[k]));
    let addseq = Seq::new(terms_u.len(), |k: int| qadd(terms_u[k], terms_nv[k]));
    assert forall|k: int| 0 <= k < a.cols as int implies
        qwf(#[trigger] terms_d[k]) && qwf(terms_u[k]) && qwf(terms_nv[k])
            && qwf(addseq[k]) && qeq(terms_d[k], addseq[k]) by {
        lemma_at_wf(a, r, k);
        lemma_qwf_qadd(uv[k], qneg(vv[k]));
        lemma_qwf_qmul(a.at(r, k), dv[k]);
        lemma_qwf_qmul(a.at(r, k), uv[k]);
        lemma_qwf_qmul(a.at(r, k), vv[k]);
        lemma_qwf_qadd(qmul(a.at(r, k), uv[k]), qneg(qmul(a.at(r, k), vv[k])));
        lemma_qmul_comm(a.at(r, k), dv[k]);
        lemma_qmul_dist(a.at(r, k), uv[k], qneg(vv[k]));
        lemma_qmul_comm(uv[k], a.at(r, k));
        lemma_qneg_qmul(vv[k], a.at(r, k));
        lemma_qmul_comm(vv[k], a.at(r, k));
    }
    assert forall|k: int| 0 <= k < terms_d.len() implies qwf(#[trigger] terms_d[k]) by {
        assert(qwf(terms_d[k]) && qwf(terms_u[k]) && qwf(terms_nv[k])
            && qwf(addseq[k]) && qeq(terms_d[k], addseq[k]));
    }
    assert forall|k: int| 0 <= k < addseq.len() implies qwf(#[trigger] addseq[k]) by {
        assert(qwf(terms_d[k]) && qwf(terms_u[k]) && qwf(terms_nv[k])
            && qwf(addseq[k]) && qeq(terms_d[k], addseq[k]));
    }
    lemma_qsum_congr(terms_d, addseq);
    lemma_qsum_add(terms_u, terms_nv);
    lemma_qsum_neg(terms_v);
    assert(Seq::new(terms_v.len(), |k: int| qneg(terms_v[k])) == terms_nv);
}

// ---------------------------------------------------------------------------
// The public operations.
// ---------------------------------------------------------------------------

impl Mat {
    /// Solves `A x = y`: a returned solution satisfies the system exactly,
    /// row by row. Fails, with `DecompFailure`, exactly when the LUP
    /// factorization fails: after a successful factorization the
    /// substitutions provably meet no zero diagonal.
    #[verifier::rlimit(100)]
    pub fn solve(&self, y: &Vector) -> (res: Result<Vector, Error>)
        requires
            self.wf(),
            self.is_square(),
            y.wf(),
            y.vals().len() == self.rows as int,
        ensures
            match res {
                Ok(x) => {
                    &&& x.wf()
                    &&& x.vals().len() == self.rows as int
                    &&& forall|i: int| 0 <= i < self.rows as int
                            ==> qeq(#[trigger] mv_at(*self, x.vals(), i), y.vals()[i])
                },
                Err(e) => e.kind == ErrorKind::DecompFailure,
            },
            (res is Ok) <==> lup_ok(*self),
            self.rows == 0 ==> res is Ok,
            self.rows == 1 && self.at(0, 0).0 != 0 ==> res is Ok,
    {
        match self.lup_decomp() {
            Err(e) => Err(e),
            Ok((l, u, p)) => {
                let py = mat_vec_mul(&p, y);
                match forward_substitution(&l, &py) {
                    Err(_) => {
                        proof {
                            let i = choose|i: int| 0 <= i < l.rows as int
                                && (#[trigger] l.at(i, i)).0 == 0;
                            lemma_at_wf(l, i, i);
                            assert(qeq(l.at(i, i), qone()));
                            assert(l.at(i, i).0 == l.at(i, i).1) by (nonlinear_arith)
                                requires
                                    l.at(i, i).0 * 1 == 1 * l.at(i, i).1;
                            assert(false);
                        }
                        Err(Error::new(ErrorKind::DecompFailure,
                            "Matrix is singular: cannot solve."))
                    },
                    Ok(b) => {
                        match back_substitution(&u, &b) {
                            Err(_) => {
                                proof {
                                    assert(false);
                                }
                                Err(Error::new(ErrorKind::DecompFailure,
                                    "Matrix is singular: cannot solve."))
                            },
                            Ok(x) => {
                                proof {
                                    let pi = choose|pi: Seq<int>| is_perm_matrix(p, pi);
                                    lemma_solution_reconstructs(*self, l, u, p, pi,
                                        y.vals(), py.vals(), b.vals(), x.vals());
                                }
                                Ok(x)
                            },
                        }
                    },
                }
            },
        }
    }

    /// The inverse: a returned matrix `B` satisfies `A·B = I` and
    /// `B·A = I` in value, entry by entry. Fails, with `DecompFailure`,
    /// exactly when the LUP factorization fails: with exact arithmetic the
    /// product of the factor diagonals can never hold zero once the
    /// factorization has succeeded, though the check stays, mirroring the
    /// operation's error channel.
    #[verifier::rlimit(100)]
    pub fn inverse(&self) -> (res: Result<Mat, Error>)
        requires
            self.wf(),
            self.is_square(),
        ensures
            match res {
                Ok(b) => {
                    &&& b.rows == self.rows
                    &&& b.cols == self.rows
                    &&& b.wf()
                    &&& forall|i: int, j: int| self.in_range(i, j)
                            ==> qeq(#[trigger] mm_at(*self, b, i, j), ident_at(i, j))
                    &&& forall|i: int, j: int| self.in_range(i, j)
                            ==> qeq(#[trigger] mm_at(b, *self, i, j), ident_at(i, j))
                },
                Err(e) => e.kind == ErrorKind::DecompFailure,
            },
            (res is Ok) <==> lup_ok(*self),
            self.rows == 0 ==> res is Ok,
            self.rows == 1 && self.at(0, 0).0 != 0 ==> res is Ok,
    {
        let n = self.rows;
        let dlen = self.data.len();
        let (l, u, p) = match self.lup_decomp() {
            Err(_) => {
                return Err(Error::new(ErrorKind::DecompFailure,
                    "Could not compute LUP factorization for inverse."));
            },
            Ok(lup) => lup,
        };
        // The product of the factor diagonals: with exact arithmetic it can
        // only hold zero if some pivot does, which the factorization rules
        // out; the check mirrors the error channel of the operation.
        let mut d = Rat::one();
        let mut t: usize = 0;
        while t < n
            invariant
                t <= n,
                l.rows == n,
                l.cols == n,
                u.rows == n,
                u.cols == n,
                l.wf(),
                u.wf(),
                d.wf(),
                d.v() == crate::det::lu_diag_prod(l, u, t as int),
            decreases n - t,
        {
            d = d.mul(l.get(t, t));
            d = d.mul(u.get(t, t));
            t += 1;
        }
        if d.is_zero() {
            proof {
                // With exact arithmetic the product of the factor
                // diagonals can only hold zero if some pivot does, which
                // the factorization rules out.
                lemma_lu_diag_prod_nonzero(l, u, n as int);
                assert(false);
            }
            return Err(Error::new(ErrorKind::DecompFailure,
                "Matrix is singular and cannot be inverted."));
        }
        let ghost pi = choose|pi: Seq<int>| is_perm_matrix(p, pi);
        let mut inv_t_data: Vec<Rat> = Vec::new();
        let mut i: usize = 0;
        while i < n
            invariant
                i <= n,
                self.wf(),
                self.rows == n,
                self.cols == n,
                (n as int) * (n as int) <= usize::MAX as int,
                l.rows == n, l.cols == n, u.rows == n, u.cols == n,
                p.rows == n, p.cols == n,
                l.wf(), u.wf(), p.wf(),
                is_perm_matrix(p, pi),
                is_unit_lower_triangular(l),
                is_upper_triangular(u),
                forall|r: int, c: int| self.in_range(r, c)
                    ==> qeq(#[trigger] mm_at(l, u, r, c), mm_at(p, *self, r, c)),
                forall|c: int| 0 <= c < n as int ==> (#[trigger] u.at(c, c)).0 != 0,
                inv_t_data@.len() == (i as int) * (n as int),
                forall|k: int| 0 <= k < inv_t_data@.len()
                    ==> (#[trigger] inv_t_data@[k]).wf(),
                forall|c: int, r: int| 0 <= c < i as int && 0 <= r < n as int
                    ==> qeq(mv_at(*self,
                            Seq::new(n as nat, |k: int| inv_t_data@[c * (n as int) + k].v()),
                            r),
                        #[trigger] ident_at(r, c)),
            decreases n - i,
        {
            // The i-th standard basis column.
            let mut e_data: Vec<Rat> = Vec::new();
            let mut t2: usize = 0;
            while t2 < n
                invariant
                    t2 <= n,
                    i < n,
                    e_data@.len() == t2 as int,
                    forall|k: int| 0 <= k < t2 as int ==> (#[trigger] e_data@[k]).wf()
                        && e_data@[k].v() == ident_at(k, i as int),
                decreases n - t2,
            {
                if t2 == i {
                    e_data.push(Rat::one());
                } else {
                    e_data.push(Rat::zero());
                }
                t2 += 1;
            }
            let e = Vector::new(e_data);
            let py = mat_vec_mul(&p, &e);
            let b = match forward_substitution(&l, &py) {
                Err(_) => {
                    proof {
                        let w = choose|w: int| 0 <= w < l.rows as int
                            && (#[trigger] l.at(w, w)).0 == 0;
                        lemma_at_wf(l, w, w);
                        assert(qeq(l.at(w, w), qone()));
                        assert(l.at(w, w).0 == l.at(w, w).1) by (nonlinear_arith)
                            requires
                                l.at(w, w).0 * 1 == 1 * l.at(w, w).1;
                        assert(false);
                    }
                    return Err(Error::new(ErrorKind::DecompFailure,
                        "Matrix is singular and cannot be inverted."));
                },
                Ok(b) => b,
            };
            let x = match back_substitution(&u, &b) {
                Err(_) => {
                    proof {
                        assert(false);
                    }
                    return Err(Error::new(ErrorKind::DecompFailure,
                        "Matrix is singular and cannot be inverted."));
                },
                Ok(x) => x,
            };
            proof {
                lemma_solution_reconstructs(*self, l, u, p, pi,
                    e.vals(), py.vals(), b.vals(), x.vals());
            }
            let ghost old_data = inv_t_data@;
            let mut k2: usize = 0;
            while k2 < n
                invariant
                    k2 <= n,
                    i < n,
                    x.wf(),
                    x.vals().len() == n as int,
                    inv_t_data@.len() == old_data.len() + k2 as int,
                    old_data.len() == (i as int) * (n as int),
                    forall|k: int| 0 <= k < old_data.len()
                        ==> #[trigger] inv_t_data@[k] == old_data[k],
                    forall|k: int| 0 <= k < k2 as int
                        ==> (#[trigger] inv_t_data@[old_data.len() + k]).v() == x.vals()[k]
                            && inv_t_data@[old_data.len() + k].wf(),
                decreases n - k2,
            {
                let xi = x.get(k2).dup();
                inv_t_data.push(xi);
                k2 += 1;
            }
            proof {
                assert((i as int + 1) * (n as int) == (i as int) * (n as int) + n as int)
                    by (nonlinear_arith);
                assert forall|k: int| 0 <= k < inv_t_data@.len() implies
                    (#[trigger] inv_t_data@[k]).wf() by {
                    if k >= old_data.len() {
                        assert(inv_t_data@[old_data.len() + (k - old_data.len())].wf());
                    }
                }
                // Rows already stacked are unchanged; the new row holds x.
                assert forall|c: int, r: int| 0 <= c < i as int + 1 && 0 <= r < n as int implies
                    qeq(mv_at(*self,
                            Seq::new(n as nat, |k: int| inv_t_data@[c * (n as int) + k].v()),
                            r),
                        #[trigger] ident_at(r, c)) by {
                    let rowseq = Seq::new(n as nat, |k: int| inv_t_data@[c * (n as int) + k].v());
                    if c < i as int {
                        let oldrow = Seq::new(n as nat, |k: int| old_data[c * (n as int) + k].v());
                        assert forall|k: int| 0 <= k < n as int implies
                            #[trigger] rowseq[k] == oldrow[k] by {
                            lemma_idx_bound(i as int, n as int, c, k);
                        }
                        assert(rowseq =~= oldrow);
                        assert(Seq::new(self.cols as nat,
                                |k: int| qmul(self.at(r, k), rowseq[k]))
                            =~= Seq::new(self.cols as nat,
                                |k: int| qmul(self.at(r, k), oldrow[k])));
                    } else {
                        assert forall|k: int| 0 <= k < n as int implies
                            #[trigger] rowseq[k] == x.vals()[k] by {}
                        assert(rowseq =~= x.vals());
                        assert(ident_at(r, c) == e.vals()[r]);
                    }
                }
            }
            i += 1;
        }
        proof {
            assert((n as int) * (n as int) == inv_t_data@.len());
        }
        let stacked = Mat::new(n, n, inv_t_data);
        let binv = stacked.transpose();
        proof {
            assert forall|r: int, c: int| self.in_range(r, c) implies
                qeq(#[trigger] mm_at(*self, binv, r, c), ident_at(r, c)) by {
                let rowseq = Seq::new(n as nat,
                    |k: int| stacked.data@[c * (n as int) + k].v());
                assert forall|k: int| 0 <= k < n as int implies
                    #[trigger] binv.at(k, c) == rowseq[k] by {
                    lemma_idx_bound(n as int, n as int, c, k);
                    assert(binv.at(k, c) == stacked.at(c, k));
                }
                assert(Seq::new(self.cols as nat, |k: int| qmul(self.at(r, k), binv.at(k, c)))
                    =~= Seq::new(self.cols as nat, |k: int| qmul(self.at(r, k), rowseq[k])));
                assert(qeq(mv_at(*self, rowseq, r), ident_at(r, c)));
            }
            crate::laws::lemma_left_inverse(*self, binv, l, u, p, pi);
        }
        Ok(binv)
    }
}

} // verus!
