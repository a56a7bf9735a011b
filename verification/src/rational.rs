//! Exact rational scalars and their specification model.
//!
//! A rational value is modeled in specifications as a pair `(int, int)` of
//! numerator and denominator with a positive denominator; two pairs denote
//! the same value when they cross-multiply equally. The executable type
//! `Rat` keeps a `BigInt` numerator and denominator, so no operation of the
//! library can overflow or round.

use vstd::prelude::*;
use num_bigint::BigInt;
use crate::bigint::{big_value, big_from_i64, big_add, big_sub, big_mul, big_neg, big_clone, big_lt, big_eq};

verus! {

// ---------------------------------------------------------------------------
// The specification model: pairs of unbounded integers.
// ---------------------------------------------------------------------------

/// A well-formed pair has a positive denominator.
pub open spec fn qwf(q: (int, int)) -> bool {
    q.1 > 0
}

/// Two pairs denote the same rational value.
pub open spec fn qeq(a: (int, int), b: (int, int)) -> bool {
    a.0 * b.1 == b.0 * a.1
}

pub open spec fn qzero() -> (int, int) {
    (0int, 1int)
}

pub open spec fn qone() -> (int, int) {
    (1int, 1int)
}

pub open spec fn qadd(a: (int, int), b: (int, int)) -> (int, int) {
    (a.0 * b.1 + b.0 * a.1, a.1 * b.1)
}

pub open spec fn qneg(a: (int, int)) -> (int, int) {
    (-a.0, a.1)
}

pub open spec fn qsub(a: (int, int), b: (int, int)) -> (int, int) {
    qadd(a, qneg(b))
}

pub open spec fn qmul(a: (int, int), b: (int, int)) -> (int, int) {
    (a.0 * b.0, a.1 * b.1)
}

/// Strict order of the denoted values; meaningful for positive denominators.
pub open spec fn qlt(a: (int, int), b: (int, int)) -> bool {
    a.0 * b.1 < b.0 * a.1
}

pub open spec fn qle(a: (int, int), b: (int, int)) -> bool {
    a.0 * b.1 <= b.0 * a.1
}

// ---------------------------------------------------------------------------
// Algebraic facts about the model.
// ---------------------------------------------------------------------------

#[verifier::rlimit(50)]
pub proof fn lemma_qeq_trans(a: (int, int), b: (int, int), c: (int, int))
    requires
        qeq(a, b),
        qeq(b, c),
        b.1 != 0,
    ensures
        qeq(a, c),
{
    assert(a.0 * c.1 == c.0 * a.1) by (nonlinear_arith)
        requires
            a.0 * b.1 == b.0 * a.1,
            b.0 * c.1 == c.0 * b.1,
            b.1 != 0;
}

#[verifier::rlimit(50)]
pub proof fn lemma_qadd_congr(a: (int, int), b: (int, int), a2: (int, int), b2: (int, int))
    requires
        qeq(a, a2),
        qeq(b, b2),
    ensures
        qeq(qadd(a, b), qadd(a2, b2)),
{
    vstd::arithmetic::mul::lemma_mul_is_distributive_add_other_way(
        a2.1 * b2.1, a.0 * b.1, b.0 * a.1);
    assert((a.0 * b.1) * (a2.1 * b2.1) == (a.0 * a2.1) * (b.1 * b2.1)) by (nonlinear_arith);
    assert((b.0 * a.1) * (a2.1 * b2.1) == (b.0 * b2.1) * (a.1 * a2.1)) by (nonlinear_arith);
    vstd::arithmetic::mul::lemma_mul_is_distributive_add_other_way(
        a.1 * b.1, a2.0 * b2.1, b2.0 * a2.1);
    assert((a2.0 * a.1) * (b.1 * b2.1) == (a2.0 * b2.1) * (a.1 * b.1)) by (nonlinear_arith);
    assert((b2.0 * b.1) * (a.1 * a2.1) == (b2.0 * a2.1) * (a.1 * b.1)) by (nonlinear_arith);
}

#[verifier::rlimit(50)]
pub proof fn lemma_qmul_congr(a: (int, int), b: (int, int), a2: (int, int), b2: (int, int))
    requires
        qeq(a, a2),
        qeq(b, b2),
    ensures
        qeq(qmul(a, b), qmul(a2, b2)),
{
    assert((a.0 * b.0) * (a2.1 * b2.1) == (a2.0 * b2.0) * (a.1 * b.1)) by (nonlinear_arith)
        requires
            a.0 * a2.1 == a2.0 * a.1,
            b.0 * b2.1 == b2.0 * b.1;
}

/// Adding a value that denotes zero leaves the value unchanged.
#[verifier::rlimit(50)]
pub proof fn lemma_qadd_zero(a: (int, int), z: (int, int))
    requires
        qeq(z, qzero()),
    ensures
        qeq(qadd(a, z), a),
{
    assert((a.0 * z.1 + z.0 * a.1) * a.1 == a.0 * (a.1 * z.1)) by (nonlinear_arith)
        requires
            z.0 == 0;
}

/// Multiplying by a value whose numerator is zero denotes zero.
#[verifier::rlimit(50)]
pub proof fn lemma_qmul_zero(a: (int, int), z: (int, int))
    requires
        qeq(z, qzero()),
    ensures
        qeq(qmul(a, z), qzero()),
{
    assert((a.0 * z.0) * 1 == 0 * (a.1 * z.1)) by (nonlinear_arith)
        requires
            z.0 == 0;
}

/// Multiplying by a value that denotes one leaves the value unchanged.
#[verifier::rlimit(50)]
pub proof fn lemma_qmul_one(a: (int, int), o: (int, int))
    requires
        qeq(o, qone()),
    ensures
        qeq(qmul(a, o), a),
        qeq(qmul(o, a), a),
{
    assert((a.0 * o.0) * a.1 == a.0 * (a.1 * o.1) && (o.0 * a.0) * a.1 == a.0 * (o.1 * a.1))
        by (nonlinear_arith)
        requires
            o.0 == o.1;
}

/// Addition of pairs is commutative on the nose.
#[verifier::rlimit(50)]
pub proof fn lemma_qadd_comm(a: (int, int), b: (int, int))
    ensures
        qadd(a, b) == qadd(b, a),
{
    assert(a.0 * b.1 + b.0 * a.1 == b.0 * a.1 + a.0 * b.1);
    assert(a.1 * b.1 == b.1 * a.1) by (nonlinear_arith);
}

/// Addition of pairs is associative on the nose.
#[verifier::rlimit(50)]
pub proof fn lemma_qadd_assoc(a: (int, int), b: (int, int), c: (int, int))
    ensures
        qadd(qadd(a, b), c) == qadd(a, qadd(b, c)),
{
    assert((a.0 * b.1 + b.0 * a.1) * c.1 == (a.0 * b.1) * c.1 + (b.0 * a.1) * c.1)
        by (nonlinear_arith);
    assert((a.0 * b.1) * c.1 == a.0 * (b.1 * c.1)) by (nonlinear_arith);
    assert((b.0 * a.1) * c.1 == (b.0 * c.1) * a.1) by (nonlinear_arith);
    assert(c.0 * (a.1 * b.1) == (c.0 * b.1) * a.1) by (nonlinear_arith);
    assert((b.0 * c.1) * a.1 + (c.0 * b.1) * a.1 == (b.0 * c.1 + c.0 * b.1) * a.1)
        by (nonlinear_arith);
    assert((a.1 * b.1) * c.1 == a.1 * (b.1 * c.1)) by (nonlinear_arith);
}

/// Rebracketing of two sums: `(w + x) + (y + z) == (w + y) + (x + z)`.
#[verifier::rlimit(50)]
pub proof fn lemma_qadd_exchange(w: (int, int), x: (int, int), y: (int, int), z: (int, int))
    ensures
        qadd(qadd(w, x), qadd(y, z)) == qadd(qadd(w, y), qadd(x, z)),
{
    assert((w.0 * x.1 + x.0 * w.1) * (y.1 * z.1)
        == w.0 * (x.1 * (y.1 * z.1)) + x.0 * (w.1 * (y.1 * z.1))) by (nonlinear_arith);
    vstd::arithmetic::mul::lemma_mul_is_distributive_add_other_way(
        w.1 * x.1, y.0 * z.1, z.0 * y.1);
    assert((y.0 * z.1) * (w.1 * x.1) == y.0 * (w.1 * (x.1 * z.1))) by (nonlinear_arith);
    assert((z.0 * y.1) * (w.1 * x.1) == z.0 * (w.1 * (x.1 * y.1))) by (nonlinear_arith);
    vstd::arithmetic::mul::lemma_mul_is_distributive_add_other_way(
        x.1 * z.1, w.0 * y.1, y.0 * w.1);
    assert((w.0 * y.1) * (x.1 * z.1) == w.0 * (x.1 * (y.1 * z.1))) by (nonlinear_arith);
    assert((y.0 * w.1) * (x.1 * z.1) == y.0 * (w.1 * (x.1 * z.1))) by (nonlinear_arith);
    vstd::arithmetic::mul::lemma_mul_is_distributive_add_other_way(
        w.1 * y.1, x.0 * z.1, z.0 * x.1);
    assert((x.0 * z.1) * (w.1 * y.1) == x.0 * (w.1 * (y.1 * z.1))) by (nonlinear_arith);
    assert((z.0 * x.1) * (w.1 * y.1) == z.0 * (w.1 * (x.1 * y.1))) by (nonlinear_arith);
    assert((w.1 * x.1) * (y.1 * z.1) == (w.1 * y.1) * (x.1 * z.1)) by (nonlinear_arith);
}

/// Multiplication of pairs is commutative on the nose.
#[verifier::rlimit(50)]
pub proof fn lemma_qmul_comm(a: (int, int), b: (int, int))
    ensures
        qmul(a, b) == qmul(b, a),
{
    assert(a.0 * b.0 == b.0 * a.0 && a.1 * b.1 == b.1 * a.1) by (nonlinear_arith);
}

/// Rebracketing of a double product: `(a * b) * c == (c * a) * b`.
#[verifier::rlimit(50)]
pub proof fn lemma_qmul_rearrange(a: (int, int), b: (int, int), c: (int, int))
    ensures
        qmul(qmul(a, b), c) == qmul(qmul(c, a), b),
{
    assert((a.0 * b.0) * c.0 == (c.0 * a.0) * b.0 && (a.1 * b.1) * c.1 == (c.1 * a.1) * b.1)
        by (nonlinear_arith);
}

/// Multiplication distributes over addition, up to value equality.
#[verifier::rlimit(50)]
pub proof fn lemma_qmul_dist(c: (int, int), a: (int, int), b: (int, int))
    ensures
        qeq(qmul(qadd(a, b), c), qadd(qmul(a, c), qmul(b, c))),
{
    let l = qmul(qadd(a, b), c);
    let r = qadd(qmul(a, c), qmul(b, c));
    // The right-hand side is the left-hand side with numerator and
    // denominator both scaled by `c.1`, which does not change the value.
    vstd::arithmetic::mul::lemma_mul_is_distributive_add_other_way(
        c.0, a.0 * b.1, b.0 * a.1);
    assert((a.0 * c.0) * (b.1 * c.1) == ((a.0 * b.1) * c.0) * c.1) by (nonlinear_arith);
    assert((b.0 * c.0) * (a.1 * c.1) == ((b.0 * a.1) * c.0) * c.1) by (nonlinear_arith);
    vstd::arithmetic::mul::lemma_mul_is_distributive_add_other_way(
        c.1, (a.0 * b.1) * c.0, (b.0 * a.1) * c.0);
    assert(r.0 == l.0 * c.1);
    assert((a.1 * c.1) * (b.1 * c.1) == ((a.1 * b.1) * c.1) * c.1) by (nonlinear_arith);
    assert(r.1 == l.1 * c.1);
    assert(l.0 * (l.1 * c.1) == (l.0 * c.1) * l.1) by (nonlinear_arith);
}

/// `s + (a - s)` denotes `a`.
#[verifier::rlimit(50)]
pub proof fn lemma_qadd_sub_cancel(s: (int, int), a: (int, int))
    ensures
        qeq(qadd(s, qsub(a, s)), a),
{
    assert((s.0 * (a.1 * s.1) + (a.0 * s.1 + (-s.0) * a.1) * s.1) * a.1
        == a.0 * (s.1 * (a.1 * s.1))) by (nonlinear_arith);
}

/// A value which, multiplied by a nonzero `d`, gives back `d`, denotes one.
#[verifier::rlimit(50)]
pub proof fn lemma_factor_is_one(x: (int, int), d: (int, int))
    requires
        qeq(qmul(x, d), d),
        d.0 != 0,
        d.1 != 0,
    ensures
        qeq(x, qone()),
{
    assert(x.0 * 1 == 1 * x.1) by (nonlinear_arith)
        requires
            (x.0 * d.0) * d.1 == d.0 * (x.1 * d.1),
            d.0 != 0,
            d.1 != 0;
}

#[verifier::rlimit(50)]
/// Division in the model: the quotient pair, with the divisor's sign
/// normalized into the numerator so the denominator stays positive.
pub open spec fn qdiv_val(x: (int, int), d: (int, int)) -> (int, int) {
    if d.0 > 0 {
        (x.0 * d.1, x.1 * d.0)
    } else {
        (-(x.0 * d.1), -(x.1 * d.0))
    }
}

/// The quotient times the divisor denotes the dividend.
#[verifier::rlimit(50)]
pub proof fn lemma_qdiv_mul(x: (int, int), d: (int, int))
    requires
        d.0 != 0,
    ensures
        qeq(qmul(qdiv_val(x, d), d), x),
{
    if d.0 > 0 {
        assert(((x.0 * d.1) * d.0) * x.1 == x.0 * ((x.1 * d.0) * d.1)) by (nonlinear_arith);
    } else {
        assert(((-(x.0 * d.1)) * d.0) * x.1 == x.0 * ((-(x.1 * d.0)) * d.1)) by (nonlinear_arith);
    }
}

#[verifier::rlimit(50)]
pub proof fn lemma_qdiv_wf(x: (int, int), d: (int, int))
    requires
        qwf(x),
        d.0 != 0,
    ensures
        qwf(qdiv_val(x, d)),
{
    if d.0 > 0 {
        assert(x.1 * d.0 > 0) by (nonlinear_arith)
            requires
                x.1 > 0,
                d.0 > 0;
    } else {
        assert(-(x.1 * d.0) > 0) by (nonlinear_arith)
            requires
                x.1 > 0,
                d.0 < 0;
    }
}

/// Cancelling a common nonzero factor on the right of a product.
#[verifier::rlimit(50)]
pub proof fn lemma_qmul_cancel(x: (int, int), y: (int, int), d: (int, int))
    requires
        qeq(qmul(x, d), qmul(y, d)),
        d.0 != 0,
        d.1 != 0,
    ensures
        qeq(x, y),
{
    assert(x.0 * y.1 == y.0 * x.1) by (nonlinear_arith)
        requires
            (x.0 * d.0) * (y.1 * d.1) == (y.0 * d.0) * (x.1 * d.1),
            d.0 != 0,
            d.1 != 0;
}

/// Value equality moves a nonzero numerator across: the partner of a
/// nonzero value is nonzero, the partner of a zero value is zero.
#[verifier::rlimit(50)]
pub proof fn lemma_qeq_num_transfer(x: (int, int), y: (int, int))
    requires
        qeq(x, y),
        x.1 != 0,
        y.1 != 0,
    ensures
        x.0 != 0 ==> y.0 != 0,
        x.0 == 0 ==> y.0 == 0,
{
    assert((x.0 != 0 ==> y.0 != 0) && (x.0 == 0 ==> y.0 == 0)) by (nonlinear_arith)
        requires
            x.0 * y.1 == y.0 * x.1,
            x.1 != 0,
            y.1 != 0;
}

/// A difference denotes zero exactly when its operands denote the same
/// value.
#[verifier::rlimit(50)]
pub proof fn lemma_qsub_zero_iff(x: (int, int), y: (int, int))
    ensures
        qeq(qsub(x, y), qzero()) <==> qeq(x, y),
{
    assert((x.0 * y.1 + (-y.0) * x.1) * 1 == 0 * (x.1 * y.1) <==> x.0 * y.1 == y.0 * x.1)
        by (nonlinear_arith);
}

/// Negation moves into the second factor of a product, on the nose.
#[verifier::rlimit(50)]
pub proof fn lemma_qneg_qmul_right(a: (int, int), b: (int, int))
    ensures
        qneg(qmul(a, b)) == qmul(a, qneg(b)),
{
    assert(-(a.0 * b.0) == a.0 * (-b.0)) by (nonlinear_arith);
}

/// Summing the pointwise negations negates the sum, on the nose.
pub proof fn lemma_qsum_neg(s: Seq<(int, int)>)
    ensures
        qsum(Seq::new(s.len(), |i: int| qneg(s[i]))) == qneg(qsum(s)),
    decreases s.len(),
{
    let t = Seq::new(s.len(), |i: int| qneg(s[i]));
    if s.len() == 0 {
    } else {
        lemma_qsum_neg(s.drop_last());
        assert(t.drop_last() =~= Seq::new(s.drop_last().len(), |i: int| qneg(s.drop_last()[i])));
        lemma_qneg_qadd(qsum(s.drop_last()), s.last());
    }
}

/// Negation respects value equality.
#[verifier::rlimit(50)]
pub proof fn lemma_qneg_congr(a: (int, int), b: (int, int))
    requires
        qeq(a, b),
    ensures
        qeq(qneg(a), qneg(b)),
{
    assert((-a.0) * b.1 == (-b.0) * a.1) by (nonlinear_arith)
        requires
            a.0 * b.1 == b.0 * a.1;
}

/// Negation distributes over addition of pairs, on the nose.
#[verifier::rlimit(50)]
pub proof fn lemma_qneg_qadd(a: (int, int), b: (int, int))
    ensures
        qneg(qadd(a, b)) == qadd(qneg(a), qneg(b)),
{
    assert(-(a.0 * b.1 + b.0 * a.1) == (-a.0) * b.1 + (-b.0) * a.1) by (nonlinear_arith);
}

/// Negation moves into the first factor of a product, on the nose.
#[verifier::rlimit(50)]
pub proof fn lemma_qneg_qmul(a: (int, int), b: (int, int))
    ensures
        qneg(qmul(a, b)) == qmul(qneg(a), b),
{
    assert(-(a.0 * b.0) == (-a.0) * b.0) by (nonlinear_arith);
}

/// A value plus its negation denotes zero.
#[verifier::rlimit(50)]
pub proof fn lemma_qadd_neg_self(t: (int, int))
    ensures
        qeq(qadd(t, qneg(t)), qzero()),
{
    assert((t.0 * t.1 + (-t.0) * t.1) * 1 == 0 * (t.1 * t.1)) by (nonlinear_arith);
}

/// If a sum of two values denotes zero and the first does, so does the
/// second.
#[verifier::rlimit(50)]
pub proof fn lemma_qadd_zero_cancel(p: (int, int), d: (int, int))
    requires
        qeq(qadd(p, d), qzero()),
        qeq(p, qzero()),
        qwf(p),
        qwf(d),
    ensures
        qeq(d, qzero()),
{
    assert(d.0 * 1 == 0 * d.1) by (nonlinear_arith)
        requires
            (p.0 * d.1 + d.0 * p.1) * 1 == 0 * (p.1 * d.1),
            p.0 == 0,
            p.1 > 0;
}

/// A product with a nonzero first factor denotes zero only if the second
/// factor does.
#[verifier::rlimit(50)]
pub proof fn lemma_qmul_zero_factor(a: (int, int), b: (int, int))
    requires
        qeq(qmul(a, b), qzero()),
        a.0 != 0,
    ensures
        qeq(b, qzero()),
{
    assert(b.0 * 1 == 0 * b.1) by (nonlinear_arith)
        requires
            (a.0 * b.0) * 1 == 0 * (a.1 * b.1),
            a.0 != 0;
}

pub proof fn lemma_qwf_qadd(a: (int, int), b: (int, int))
    requires
        qwf(a),
        qwf(b),
    ensures
        qwf(qadd(a, b)),
{
    assert(a.1 * b.1 > 0) by (nonlinear_arith)
        requires
            a.1 > 0,
            b.1 > 0;
}

#[verifier::rlimit(50)]
pub proof fn lemma_qwf_qmul(a: (int, int), b: (int, int))
    requires
        qwf(a),
        qwf(b),
    ensures
        qwf(qmul(a, b)),
{
    assert(a.1 * b.1 > 0) by (nonlinear_arith)
        requires
            a.1 > 0,
            b.1 > 0;
}

/// Transitivity that the pivot search needs: `a <= b` and `b < c` give `a < c`.
#[verifier::rlimit(50)]
pub proof fn lemma_qle_qlt_trans(a: (int, int), b: (int, int), c: (int, int))
    requires
        qle(a, b),
        qlt(b, c),
        qwf(a),
        qwf(b),
        qwf(c),
    ensures
        qlt(a, c),
{
    assert(a.0 * c.1 < c.0 * a.1) by (nonlinear_arith)
        requires
            a.0 * b.1 <= b.0 * a.1,
            b.0 * c.1 < c.0 * b.1,
            a.1 > 0,
            b.1 > 0,
            c.1 > 0;
}

// ---------------------------------------------------------------------------
// Finite sums of pairs.
// ---------------------------------------------------------------------------

/// Sum of a sequence of pairs, folded from the left.
pub open spec fn qsum(s: Seq<(int, int)>) -> (int, int)
    decreases s.len(),
{
    if s.len() == 0 {
        qzero()
    } else {
        qadd(qsum(s.drop_last()), s.last())
    }
}

pub open spec fn seq_qwf(s: Seq<(int, int)>) -> bool {
    forall|i: int| 0 <= i < s.len() ==> qwf(#[trigger] s[i])
}

pub proof fn lemma_qsum_wf(s: Seq<(int, int)>)
    requires
        seq_qwf(s),
    ensures
        qwf(qsum(s)),
    decreases s.len(),
{
    if s.len() == 0 {
    } else {
        assert(seq_qwf(s.drop_last()));
        lemma_qsum_wf(s.drop_last());
        lemma_qwf_qadd(qsum(s.drop_last()), s.last());
    }
}

pub proof fn lemma_qsum_push(s: Seq<(int, int)>, x: (int, int))
    ensures
        qsum(s.push(x)) == qadd(qsum(s), x),
{
    assert(s.push(x).drop_last() =~= s);
    assert(s.push(x).last() == x);
}

/// Sums of pointwise value-equal sequences denote the same value.
pub proof fn lemma_qsum_congr(s1: Seq<(int, int)>, s2: Seq<(int, int)>)
    requires
        s1.len() == s2.len(),
        seq_qwf(s1),
        seq_qwf(s2),
        forall|i: int| 0 <= i < s1.len() ==> qeq(#[trigger] s1[i], s2[i]),
    ensures
        qeq(qsum(s1), qsum(s2)),
    decreases s1.len(),
{
    if s1.len() == 0 {
    } else {
        assert(seq_qwf(s1.drop_last()));
        assert(seq_qwf(s2.drop_last()));
        lemma_qsum_congr(s1.drop_last(), s2.drop_last());
        lemma_qadd_congr(qsum(s1.drop_last()), s1.last(), qsum(s2.drop_last()), s2.last());
    }
}

/// If every entry from position `m` on denotes zero, the sum equals the sum
/// of the first `m` entries.
pub proof fn lemma_qsum_zero_beyond(s: Seq<(int, int)>, m: int)
    requires
        0 <= m <= s.len(),
        seq_qwf(s),
        forall|k: int| m <= k < s.len() ==> qeq(#[trigger] s[k], qzero()),
    ensures
        qeq(qsum(s), qsum(s.take(m))),
    decreases s.len(),
{
    if s.len() == m {
        assert(s.take(m) =~= s);
        lemma_qsum_wf(s);
    } else {
        let d = s.drop_last();
        assert(seq_qwf(d));
        assert(d.take(m) =~= s.take(m));
        lemma_qsum_zero_beyond(d, m);
        lemma_qadd_zero(qsum(d), s.last());
        lemma_qsum_wf(d);
        lemma_qwf_qadd(qsum(d), s.last());
        lemma_qeq_trans(qsum(s), qsum(d), qsum(s.take(m)));
    }
}

pub proof fn lemma_qsum_take_step(s: Seq<(int, int)>, m: int)
    requires
        0 <= m < s.len(),
    ensures
        qsum(s.take(m + 1)) == qadd(qsum(s.take(m)), s[m]),
{
    assert(s.take(m + 1).drop_last() =~= s.take(m));
    assert(s.take(m + 1).last() == s[m]);
}

/// If every entry but the one at `m` denotes zero, the sum denotes `s[m]`.
pub proof fn lemma_qsum_collapse(s: Seq<(int, int)>, m: int)
    requires
        0 <= m < s.len(),
        seq_qwf(s),
        forall|k: int| 0 <= k < s.len() && k != m ==> qeq(#[trigger] s[k], qzero()),
    ensures
        qeq(qsum(s), s[m]),
{
    lemma_qsum_zero_beyond(s, m + 1);
    lemma_qsum_take_step(s, m);
    assert(seq_qwf(s.take(m)));
    lemma_qsum_zero_beyond(s.take(m), 0);
    assert(s.take(m).take(0) =~= Seq::<(int, int)>::empty());
    // The prefix before `m` denotes zero, so the whole sum denotes `s[m]`.
    lemma_qsum_wf(s.take(m));
    lemma_qadd_congr(qsum(s.take(m)), s[m], qzero(), s[m]);
    assert(qeq(qadd(qzero(), s[m]), s[m])) by {
        lemma_qadd_comm(qzero(), s[m]);
        lemma_qadd_zero(s[m], qzero());
    }
    lemma_qwf_qadd(qsum(s.take(m)), s[m]);
    lemma_qeq_trans(qsum(s.take(m + 1)), qadd(qzero(), s[m]), s[m]);
    assert(seq_qwf(s.take(m + 1)));
    lemma_qsum_wf(s.take(m + 1));
    lemma_qeq_trans(qsum(s), qsum(s.take(m + 1)), s[m]);
}

/// The sum of pointwise pair sums is the pair sum of the sums, on the nose.
pub proof fn lemma_qsum_add(s1: Seq<(int, int)>, s2: Seq<(int, int)>)
    requires
        s1.len() == s2.len(),
    ensures
        qsum(Seq::new(s1.len(), |i: int| qadd(s1[i], s2[i]))) == qadd(qsum(s1), qsum(s2)),
    decreases s1.len(),
{
    let t = Seq::new(s1.len(), |i: int| qadd(s1[i], s2[i]));
    if s1.len() == 0 {
        assert(qadd(qzero(), qzero()) == qzero());
    } else {
        let n = s1.len() - 1;
        assert(t.drop_last() =~= Seq::new(s1.drop_last().len(),
            |i: int| qadd(s1.drop_last()[i], s2.drop_last()[i])));
        lemma_qsum_add(s1.drop_last(), s2.drop_last());
        lemma_qadd_exchange(qsum(s1.drop_last()), qsum(s2.drop_last()), s1[n], s2[n]);
    }
}

/// Scaling a sum by `c` denotes the sum of the scaled entries.
pub proof fn lemma_qsum_scale(s: Seq<(int, int)>, c: (int, int))
    requires
        seq_qwf(s),
        qwf(c),
    ensures
        qeq(qmul(qsum(s), c), qsum(Seq::new(s.len(), |i: int| qmul(s[i], c)))),
    decreases s.len(),
{
    let t = Seq::new(s.len(), |i: int| qmul(s[i], c));
    if s.len() == 0 {
        assert(qeq(qmul(qzero(), c), qzero())) by {
            lemma_qmul_comm(qzero(), c);
            lemma_qmul_zero(c, qzero());
        }
    } else {
        let n = s.len() - 1;
        let d = s.drop_last();
        assert(seq_qwf(d));
        lemma_qsum_scale(d, c);
        lemma_qmul_dist(c, qsum(d), s[n]);
        assert(t.drop_last() =~= Seq::new(d.len(), |i: int| qmul(d[i], c)));
        // qmul(qadd(qsum d, s[n]), c) ~ qadd(qmul(qsum d, c), qmul(s[n], c))
        //                             ~ qadd(qsum t.drop_last(), t[n])
        lemma_qsum_wf(d);
        lemma_qwf_qmul(qsum(d), c);
        lemma_qwf_qmul(s[n], c);
        lemma_qadd_congr(qmul(qsum(d), c), qmul(s[n], c), qsum(t.drop_last()), qmul(s[n], c));
        lemma_qwf_qadd(qmul(qsum(d), c), qmul(s[n], c));
        lemma_qeq_trans(
            qmul(qsum(s), c),
            qadd(qmul(qsum(d), c), qmul(s[n], c)),
            qadd(qsum(t.drop_last()), t[n]),
        );
    }
}

/// Column slice of a rectangular grid of pairs.
pub open spec fn grid_col(g: Seq<Seq<(int, int)>>, k: int) -> Seq<(int, int)> {
    Seq::new(g.len(), |j: int| g[j][k])
}

/// Exchanging the order of a double sum over a rectangular grid.
pub proof fn lemma_qsum_exchange(g: Seq<Seq<(int, int)>>, m: nat)
    requires
        forall|j: int| 0 <= j < g.len() ==> (#[trigger] g[j]).len() == m,
    ensures
        qsum(Seq::new(g.len(), |j: int| qsum(g[j])))
            == qsum(Seq::new(m, |k: int| qsum(grid_col(g, k)))),
    decreases g.len(),
{
    let rows = Seq::new(g.len(), |j: int| qsum(g[j]));
    let cols = Seq::new(m, |k: int| qsum(grid_col(g, k)));
    if g.len() == 0 {
        let zrow = Seq::new(m, |k: int| qzero());
        assert(cols =~= Seq::new(m, |k: int| qsum(Seq::<(int, int)>::empty()))) by {
            assert forall|k: int| 0 <= k < m implies grid_col(g, k) =~= Seq::<(int, int)>::empty() by {}
        }
        lemma_qsum_all_zero(cols);
    } else {
        let h = g.drop_last();
        let lastrow = g.last();
        let colsh = Seq::new(m, |k: int| qsum(grid_col(h, k)));
        lemma_qsum_exchange(h, m);
        assert(rows.drop_last() =~= Seq::new(h.len(), |j: int| qsum(h[j])));
        // Each full column is the shorter column with the last row's entry pushed.
        assert forall|k: int| 0 <= k < m implies
            qsum(grid_col(g, k)) == qadd(qsum(grid_col(h, k)), lastrow[k]) by {
            assert(grid_col(g, k).drop_last() =~= grid_col(h, k));
            assert(grid_col(g, k).last() == lastrow[k]);
        }
        assert(cols =~= Seq::new(m, |k: int| qadd(colsh[k], lastrow[k])));
        lemma_qsum_add(colsh, lastrow);
        assert(lastrow =~= Seq::new(m, |k: int| lastrow[k]));
        assert(cols =~= Seq::new(colsh.len(), |k: int| qadd(colsh[k], lastrow[k])));
    }
}

/// Splitting a sum at a concatenation point.
pub proof fn lemma_qsum_concat(s1: Seq<(int, int)>, s2: Seq<(int, int)>)
    ensures
        qsum(s1 + s2) == qadd(qsum(s1), qsum(s2)),
    decreases s2.len(),
{
    if s2.len() == 0 {
        assert(s1 + s2 =~= s1);
        let q = qsum(s1);
        assert(q.0 * 1 + 0 * q.1 == q.0 && q.1 * 1 == q.1) by (nonlinear_arith);
    } else {
        let d = s2.drop_last();
        lemma_qsum_concat(s1, d);
        assert((s1 + s2).drop_last() =~= s1 + d);
        assert((s1 + s2).last() == s2.last());
        lemma_qadd_assoc(qsum(s1), qsum(d), s2.last());
    }
}

/// A sequence of zeros sums, on the nose, to zero.
pub proof fn lemma_qsum_all_zero(s: Seq<(int, int)>)
    requires
        forall|i: int| 0 <= i < s.len() ==> #[trigger] s[i] == qzero(),
    ensures
        qsum(s) == qzero(),
    decreases s.len(),
{
    if s.len() == 0 {
    } else {
        lemma_qsum_all_zero(s.drop_last());
        assert(qadd(qzero(), qzero()) == qzero());
    }
}

// ---------------------------------------------------------------------------
// The executable scalar.
// ---------------------------------------------------------------------------

/// An exact rational number with a positive arbitrary-precision denominator.
#[derive(Debug)]
pub struct Rat {
    num: BigInt,
    den: BigInt,
}

impl Rat {
    /// The pair of integers this scalar holds.
    pub closed spec fn v(self) -> (int, int) {
        (big_value(self.num), big_value(self.den))
    }

    pub open spec fn wf(self) -> bool {
        qwf(self.v())
    }

    pub fn from_int(n: i64) -> (r: Rat)
        ensures
            r.v() == (n as int, 1int),
            r.wf(),
    {
        Rat { num: big_from_i64(n), den: big_from_i64(1) }
    }

    /// The rational `n / d`, stored with a positive denominator.
    pub fn from_frac(n: i64, d: i64) -> (r: Rat)
        requires
            d != 0,
        ensures
            r.wf(),
            qeq(r.v(), (n as int, d as int)),
    {
        let num = big_from_i64(n);
        let den = big_from_i64(d);
        if big_lt(&den, &big_from_i64(0)) {
            let r = Rat { num: big_neg(&num), den: big_neg(&den) };
            proof {
                assert((-(n as int)) * (d as int) == (n as int) * (-(d as int)))
                    by (nonlinear_arith);
            }
            r
        } else {
            Rat { num, den }
        }
    }

    pub fn zero() -> (r: Rat)
        ensures
            r.v() == qzero(),
            r.wf(),
    {
        Rat::from_int(0)
    }

    pub fn one() -> (r: Rat)
        ensures
            r.v() == qone(),
            r.wf(),
    {
        Rat::from_int(1)
    }

    pub fn dup(&self) -> (r: Rat)
        ensures
            r.v() == self.v(),
    {
        Rat { num: big_clone(&self.num), den: big_clone(&self.den) }
    }

    pub fn add(&self, other: &Rat) -> (r: Rat)
        requires
            self.wf(),
            other.wf(),
        ensures
            r.v() == qadd(self.v(), other.v()),
            r.wf(),
    {
        let num = big_add(&big_mul(&self.num, &other.den), &big_mul(&other.num, &self.den));
        let den = big_mul(&self.den, &other.den);
        proof {
            lemma_qwf_qadd(self.v(), other.v());
        }
        Rat { num, den }
    }

    pub fn sub(&self, other: &Rat) -> (r: Rat)
        requires
            self.wf(),
            other.wf(),
        ensures
            r.v() == qsub(self.v(), other.v()),
            r.wf(),
    {
        let num = big_sub(&big_mul(&self.num, &other.den), &big_mul(&other.num, &self.den));
        let den = big_mul(&self.den, &other.den);
        proof {
            assert(big_value(num) == self.v().0 * other.v().1 + (-other.v().0) * self.v().1)
                by (nonlinear_arith)
                requires
                    big_value(num) == big_value(self.num) * big_value(other.den)
                        - big_value(other.num) * big_value(self.den);
            lemma_qwf_qadd(self.v(), qneg(other.v()));
        }
        Rat { num, den }
    }

    pub fn mul(&self, other: &Rat) -> (r: Rat)
        requires
            self.wf(),
            other.wf(),
        ensures
            r.v() == qmul(self.v(), other.v()),
            r.wf(),
    {
        let num = big_mul(&self.num, &other.num);
        let den = big_mul(&self.den, &other.den);
        proof {
            lemma_qwf_qmul(self.v(), other.v());
        }
        Rat { num, den }
    }

    pub fn neg(&self) -> (r: Rat)
        requires
            self.wf(),
        ensures
            r.v() == qneg(self.v()),
            r.wf(),
    {
        Rat { num: big_neg(&self.num), den: big_clone(&self.den) }
    }

    /// Exact division; the divisor must denote a nonzero value.
    pub fn div(&self, other: &Rat) -> (r: Rat)
        requires
            self.wf(),
            other.wf(),
            other.v().0 != 0,
        ensures
            r.wf(),
            qeq(qmul(r.v(), other.v()), self.v()),
    {
        let num = big_mul(&self.num, &other.den);
        let den = big_mul(&self.den, &other.num);
        let ghost a0 = self.v().0;
        let ghost a1 = self.v().1;
        let ghost b0 = other.v().0;
        let ghost b1 = other.v().1;
        if big_lt(&den, &big_from_i64(0)) {
            let r = Rat { num: big_neg(&num), den: big_neg(&den) };
            proof {
                assert(((-(a0 * b1)) * b0) * a1 == a0 * ((-(a1 * b0)) * b1)) by (nonlinear_arith);
            }
            r
        } else {
            let r = Rat { num, den };
            proof {
                assert(a1 * b0 != 0 && ((a0 * b1) * b0) * a1 == a0 * ((a1 * b0) * b1))
                    by (nonlinear_arith)
                    requires
                        a1 > 0,
                        b0 != 0;
            }
            r
        }
    }

    pub fn is_zero(&self) -> (r: bool)
        ensures
            r == (self.v().0 == 0),
    {
        big_eq(&self.num, &big_from_i64(0))
    }

    pub fn lt(&self, other: &Rat) -> (r: bool)
        requires
            self.wf(),
            other.wf(),
        ensures
            r == qlt(self.v(), other.v()),
    {
        big_lt(&big_mul(&self.num, &other.den), &big_mul(&other.num, &self.den))
    }

    /// Value equality: do the two scalars denote the same rational?
    pub fn eq_val(&self, other: &Rat) -> (r: bool)
        ensures
            r == qeq(self.v(), other.v()),
    {
        big_eq(&big_mul(&self.num, &other.den), &big_mul(&other.num, &self.den))
    }
}

} // verus!
