//! Forward and backward substitution for triangular systems.
//!
//! Each solver reads only its own triangle of the coefficient matrix and
//! states exactly that: for every row, the triangular part of the row dotted
//! with the solution denotes the right-hand side. A solver fails, with
//! `DecompFailure`, exactly when some diagonal entry holds zero.

use vstd::prelude::*;
use crate::rational::{
    Rat, qwf, qeq, qadd, qmul, qsub, qsum, seq_qwf,
    lemma_qeq_trans, lemma_qadd_congr, lemma_qmul_comm, lemma_qadd_sub_cancel,
    lemma_qsum_take_step, lemma_qwf_qadd, lemma_qwf_qmul, lemma_qsum_wf, qneg,
};
use crate::matrix::{Mat, Vector, rat_vals, lemma_at_wf};
use crate::error::{Error, ErrorKind};

verus! {

/// Dot product of the first `k` entries of row `i` of `m` with `x`.
pub open spec fn mv_prefix(m: Mat, x: Seq<(int, int)>, i: int, k: int) -> (int, int) {
    qsum(Seq::new(k as nat, |t: int| qmul(m.at(i, t), x[t])))
}

/// Dot product of the entries of row `i` of `m` from column `k` on with the
/// matching entries of `x`.
pub open spec fn mv_suffix(m: Mat, x: Seq<(int, int)>, i: int, k: int) -> (int, int) {
    qsum(Seq::new((m.cols - k) as nat, |t: int| qmul(m.at(i, k + t), x[k + t])))
}

/// Solves `M y = v` for lower triangular `M`, reading only the diagonal and
/// the entries below it.
#[verifier::rlimit(100)]
pub fn forward_substitution(m: &Mat, v: &Vector) -> (res: Result<Vector, Error>)
    requires
        m.wf(),
        m.is_square(),
        v.wf(),
        v.vals().len() == m.rows as int,
    ensures
        match res {
            Ok(y) => {
                &&& y.wf()
                &&& y.vals().len() == m.rows as int
                &&& forall|i: int| 0 <= i < m.rows as int
                        ==> qeq(qadd(mv_prefix(*m, y.vals(), i, i),
                                qmul(m.at(i, i), y.vals()[i])), v.vals()[i])
                &&& forall|i: int| 0 <= i < m.rows as int ==> (#[trigger] m.at(i, i)).0 != 0
            },
            Err(e) => {
                &&& e.kind == ErrorKind::DecompFailure
                &&& exists|i: int| 0 <= i < m.rows as int && (#[trigger] m.at(i, i)).0 == 0
            },
        },
{
    let n = m.rows;
    let mut data: Vec<Rat> = Vec::new();
    let mut i: usize = 0;
    while i < n
        invariant
            i <= n,
            m.wf(),
            m.rows == n,
            m.cols == n,
            v.wf(),
            v.vals().len() == n as int,
            data@.len() == i as int,
            forall|r: int| 0 <= r < i as int ==> (#[trigger] data@[r]).wf(),
            forall|r: int| 0 <= r < i as int
                ==> qeq(qadd(mv_prefix(*m, rat_vals(data@), r, r),
                        qmul(m.at(r, r), rat_vals(data@)[r])), #[trigger] v.vals()[r]),
            forall|r: int| 0 <= r < i as int ==> (#[trigger] m.at(r, r)).0 != 0,
        decreases n - i,
    {
        let ghost tseq = Seq::new(i as nat,
            |t: int| qmul(m.at(i as int, t), rat_vals(data@)[t]));
        let mut s = Rat::zero();
        let mut k: usize = 0;
        proof {
            assert(tseq.take(0) =~= Seq::<(int, int)>::empty());
        }
        while k < i
            invariant
                k <= i,
                i < n,
                m.wf(),
                m.rows == n,
                m.cols == n,
                data@.len() == i as int,
                forall|r: int| 0 <= r < i as int ==> (#[trigger] data@[r]).wf(),
                s.wf(),
                s.v() == qsum(tseq.take(k as int)),
                tseq == Seq::new(i as nat,
                    |t: int| qmul(m.at(i as int, t), rat_vals(data@)[t])),
            decreases i - k,
        {
            let t = m.get(i, k).mul(&data[k]);
            let s2 = s.add(&t);
            proof {
                lemma_qsum_take_step(tseq, k as int);
            }
            s = s2;
            k += 1;
        }
        proof {
            assert(tseq.take(i as int) =~= tseq);
        }
        let diag = m.get(i, i);
        if diag.is_zero() {
            return Err(Error::new(ErrorKind::DecompFailure,
                "Matrix is singular: cannot forward substitute."));
        }
        let num = v.get(i).sub(&s);
        let yi = num.div(diag);
        let ghost data_old = data@;
        data.push(yi);
        proof {
            // The new row's equation.
            assert(rat_vals(data@).take(i as int) =~= rat_vals(data_old));
            assert(Seq::new(i as nat, |t: int| qmul(m.at(i as int, t), rat_vals(data@)[t]))
                =~= tseq);
            lemma_qmul_comm(m.at(i as int, i as int), yi.v());
            lemma_qadd_congr(s.v(), qmul(yi.v(), m.at(i as int, i as int)),
                s.v(), qsub(v.vals()[i as int], s.v()));
            lemma_qadd_sub_cancel(s.v(), v.vals()[i as int]);
            lemma_qwf_qmul(yi.v(), m.at(i as int, i as int));
            lemma_qwf_qadd(s.v(), qmul(yi.v(), m.at(i as int, i as int)));
            lemma_at_wf(*m, i as int, i as int);
            assert(qwf(v.vals()[i as int]));
            lemma_qwf_qadd(v.vals()[i as int], qneg(s.v()));
            lemma_qwf_qadd(s.v(), qsub(v.vals()[i as int], s.v()));
            lemma_qeq_trans(
                qadd(s.v(), qmul(m.at(i as int, i as int), yi.v())),
                qadd(s.v(), qsub(v.vals()[i as int], s.v())),
                v.vals()[i as int],
            );
            // Older rows' equations read only the unchanged prefix.
            assert forall|r: int| 0 <= r < i as int implies
                qeq(qadd(mv_prefix(*m, rat_vals(data@), r, r),
                    qmul(m.at(r, r), rat_vals(data@)[r])), #[trigger] v.vals()[r]) by {
                assert(Seq::new(r as nat, |t: int| qmul(m.at(r, t), rat_vals(data@)[t]))
                    =~= Seq::new(r as nat, |t: int| qmul(m.at(r, t), rat_vals(data_old)[t])));
                assert(rat_vals(data@)[r] == rat_vals(data_old)[r]);
            }
        }
        i += 1;
    }
    let y = Vector::new(data);
    Ok(y)
}

/// Solves `M x = v` for upper triangular `M`, reading only the diagonal and
/// the entries above it.
#[verifier::rlimit(100)]
pub fn back_substitution(m: &Mat, v: &Vector) -> (res: Result<Vector, Error>)
    requires
        m.wf(),
        m.is_square(),
        v.wf(),
        v.vals().len() == m.rows as int,
    ensures
        match res {
            Ok(x) => {
                &&& x.wf()
                &&& x.vals().len() == m.rows as int
                &&& forall|i: int| 0 <= i < m.rows as int
                        ==> qeq(qadd(qmul(m.at(i, i), x.vals()[i]),
                                mv_suffix(*m, x.vals(), i, i + 1)), v.vals()[i])
                &&& forall|i: int| 0 <= i < m.rows as int ==> (#[trigger] m.at(i, i)).0 != 0
            },
            Err(e) => {
                &&& e.kind == ErrorKind::DecompFailure
                &&& exists|i: int| 0 <= i < m.rows as int && (#[trigger] m.at(i, i)).0 == 0
            },
        },
{
    let n = m.rows;
    let mut data: Vec<Rat> = Vec::new();
    let mut t0: usize = 0;
    while t0 < n
        invariant
            t0 <= n,
            data@.len() == t0 as int,
            forall|r: int| 0 <= r < t0 as int ==> (#[trigger] data@[r]).wf()
                && data@[r].v() == (0int, 1int),
        decreases n - t0,
    {
        data.push(Rat::zero());
        t0 += 1;
    }
    let mut ii: usize = n;
    while ii > 0
        invariant
            ii <= n,
            m.wf(),
            m.rows == n,
            m.cols == n,
            v.wf(),
            v.vals().len() == n as int,
            data@.len() == n as int,
            forall|r: int| 0 <= r < n as int ==> (#[trigger] data@[r]).wf(),
            forall|r: int| ii as int <= r < n as int
                ==> qeq(qadd(qmul(m.at(r, r), rat_vals(data@)[r]),
                        mv_suffix(*m, rat_vals(data@), r, r + 1)), #[trigger] v.vals()[r]),
            forall|r: int| ii as int <= r < n as int ==> (#[trigger] m.at(r, r)).0 != 0,
        decreases ii,
    {
        let i = ii - 1;
        let ghost tseq = Seq::new((n - (i + 1)) as nat,
            |t: int| qmul(m.at(i as int, i as int + 1 + t), rat_vals(data@)[i as int + 1 + t]));
        let mut s = Rat::zero();
        let mut k: usize = i + 1;
        proof {
            assert(tseq.take(0) =~= Seq::<(int, int)>::empty());
        }
        while k < n
            invariant
                i + 1 <= k <= n,
                i < n,
                m.wf(),
                m.rows == n,
                m.cols == n,
                data@.len() == n as int,
                forall|r: int| 0 <= r < n as int ==> (#[trigger] data@[r]).wf(),
                s.wf(),
                s.v() == qsum(tseq.take(k as int - i as int - 1)),
                tseq == Seq::new((n - (i + 1)) as nat,
                    |t: int| qmul(m.at(i as int, i as int + 1 + t),
                        rat_vals(data@)[i as int + 1 + t])),
            decreases n - k,
        {
            let t = m.get(i, k).mul(&data[k]);
            let s2 = s.add(&t);
            proof {
                lemma_qsum_take_step(tseq, k as int - i as int - 1);
            }
            s = s2;
            k += 1;
        }
        proof {
            assert(tseq.take(n as int - i as int - 1) =~= tseq);
        }
        let diag = m.get(i, i);
        if diag.is_zero() {
            return Err(Error::new(ErrorKind::DecompFailure,
                "Matrix is singular: cannot back substitute."));
        }
        let num = v.get(i).sub(&s);
        let xi = num.div(diag);
        let ghost data_old = data@;
        data[i] = xi;
        proof {
            // The new row's equation.
            assert(Seq::new((n - (i + 1)) as nat,
                |t: int| qmul(m.at(i as int, i as int + 1 + t),
                    rat_vals(data@)[i as int + 1 + t])) =~= tseq);
            lemma_qmul_comm(m.at(i as int, i as int), xi.v());
            lemma_qadd_congr(qmul(xi.v(), m.at(i as int, i as int)), s.v(),
                qsub(v.vals()[i as int], s.v()), s.v());
            lemma_qwf_qmul(xi.v(), m.at(i as int, i as int));
            lemma_at_wf(*m, i as int, i as int);
            assert(qwf(v.vals()[i as int]));
            lemma_qwf_qadd(v.vals()[i as int], qneg(s.v()));
            lemma_qwf_qadd(qsub(v.vals()[i as int], s.v()), s.v());
            assert(qeq(qadd(qsub(v.vals()[i as int], s.v()), s.v()), v.vals()[i as int])) by {
                crate::rational::lemma_qadd_comm(qsub(v.vals()[i as int], s.v()), s.v());
                lemma_qadd_sub_cancel(s.v(), v.vals()[i as int]);
            }
            lemma_qeq_trans(
                qadd(qmul(m.at(i as int, i as int), xi.v()), s.v()),
                qadd(qsub(v.vals()[i as int], s.v()), s.v()),
                v.vals()[i as int],
            );
            lemma_qwf_qadd(qmul(m.at(i as int, i as int), xi.v()), s.v());
            // Rows already solved read only entries beyond this one.
            assert forall|r: int| (ii as int) <= r < n as int implies
                qeq(qadd(qmul(m.at(r, r), rat_vals(data@)[r]),
                    mv_suffix(*m, rat_vals(data@), r, r + 1)), #[trigger] v.vals()[r]) by {
                assert(rat_vals(data@)[r] == rat_vals(data_old)[r]);
                assert(Seq::new((n as int - (r + 1)) as nat,
                    |t: int| qmul(m.at(r, r + 1 + t), rat_vals(data@)[r + 1 + t]))
                    =~= Seq::new((n as int - (r + 1)) as nat,
                    |t: int| qmul(m.at(r, r + 1 + t), rat_vals(data_old)[r + 1 + t])));
            }
        }
        ii = i;
    }
    let x = Vector::new(data);
    Ok(x)
}

} // verus!
