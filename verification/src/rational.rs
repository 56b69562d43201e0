//! The mathematical rationals behind the finite fractions: numerator and
//! denominator pairs of unbounded integers, identified up to cross-multiplied
//! equality.  The pivot laws are stated and proved in this model, where
//! arithmetic is exact and never leaves a machine range.

use vstd::prelude::*;

verus! {

use crate::fraction::Fraction;

/// A rational as an unreduced pair; valid when the denominator is nonzero.
pub open spec fn rat_valid(a: (int, int)) -> bool {
    a.1 != 0
}

/// The rational a fraction's fields denote.
pub open spec fn rat_of(f: Fraction) -> (int, int) {
    (f.numerator as int, f.denominator as int)
}

/// Equality of rationals by cross multiplication.
pub open spec fn rat_eqv(a: (int, int), b: (int, int)) -> bool {
    a.0 * b.1 == b.0 * a.1
}

pub open spec fn radd(a: (int, int), b: (int, int)) -> (int, int) {
    (a.0 * b.1 + b.0 * a.1, a.1 * b.1)
}

pub open spec fn rsub(a: (int, int), b: (int, int)) -> (int, int) {
    (a.0 * b.1 - b.0 * a.1, a.1 * b.1)
}

pub open spec fn rmul(a: (int, int), b: (int, int)) -> (int, int) {
    (a.0 * b.0, a.1 * b.1)
}

pub open spec fn rdiv(a: (int, int), b: (int, int)) -> (int, int) {
    (a.0 * b.1, a.1 * b.0)
}

/// Nonnegative: numerator and denominator agree in sign (or the value is
/// zero).
pub open spec fn rat_nonneg(a: (int, int)) -> bool {
    a.0 * a.1 >= 0
}

/// Strictly positive.
pub open spec fn rat_pos(a: (int, int)) -> bool {
    a.0 * a.1 > 0
}

/// Equality of rationals is transitive through a valid middle value.
pub proof fn lemma_rat_eqv_trans(a: (int, int), b: (int, int), c: (int, int))
    requires
        rat_valid(a),
        rat_valid(b),
        rat_valid(c),
        rat_eqv(a, b),
        rat_eqv(b, c),
    ensures
        rat_eqv(a, c),
{
    if b.0 == 0 {
        assert(a.0 == 0 && c.0 == 0) by (nonlinear_arith)
            requires
                a.0 * b.1 == b.0 * a.1,
                b.0 * c.1 == c.0 * b.1,
                b.0 == 0,
                b.1 != 0,
        ;
    } else {
        assert(a.0 * c.1 == c.0 * a.1) by (nonlinear_arith)
            requires
                a.0 * b.1 == b.0 * a.1,
                b.0 * c.1 == c.0 * b.1,
                b.0 != 0,
                b.1 != 0,
        ;
    }
}

/// Addition respects rational equality in its left operand.
pub proof fn lemma_radd_cong(a: (int, int), a2: (int, int), c: (int, int))
    requires
        rat_valid(a),
        rat_valid(a2),
        rat_valid(c),
        rat_eqv(a, a2),
    ensures
        rat_eqv(radd(a, c), radd(a2, c)),
        rat_valid(radd(a, c)),
        rat_valid(radd(a2, c)),
{
    let x = a.0 * c.1;
    let y = c.0 * a.1;
    let z = a2.1 * c.1;
    let x2 = a2.0 * c.1;
    let y2 = c.0 * a2.1;
    let z2 = a.1 * c.1;
    assert((x + y) * z == x * z + y * z) by (nonlinear_arith);
    assert((x2 + y2) * z2 == x2 * z2 + y2 * z2) by (nonlinear_arith);
    assert(x * z == (a.0 * a2.1) * (c.1 * c.1)) by (nonlinear_arith)
        requires
            x == a.0 * c.1,
            z == a2.1 * c.1,
    ;
    assert(x2 * z2 == (a2.0 * a.1) * (c.1 * c.1)) by (nonlinear_arith)
        requires
            x2 == a2.0 * c.1,
            z2 == a.1 * c.1,
    ;
    assert(y * z == y2 * z2) by (nonlinear_arith)
        requires
            y == c.0 * a.1,
            z == a2.1 * c.1,
            y2 == c.0 * a2.1,
            z2 == a.1 * c.1,
    ;
    assert((a.0 * a2.1) * (c.1 * c.1) == (a2.0 * a.1) * (c.1 * c.1));
    assert(z != 0 && z2 != 0) by (nonlinear_arith)
        requires
            a.1 != 0,
            a2.1 != 0,
            c.1 != 0,
            z == a2.1 * c.1,
            z2 == a.1 * c.1,
    ;
}

/// The negation of a rational.
pub open spec fn rneg(a: (int, int)) -> (int, int) {
    (-a.0, a.1)
}

/// Subtracting is adding the negation, and addition commutes, exactly at the
/// pair level.
pub proof fn lemma_rsub_is_radd_neg(a: (int, int), b: (int, int))
    ensures
        rsub(a, b) == radd(a, rneg(b)),
        radd(a, b) == radd(b, a),
{
    assert((-b.0) * a.1 == -(b.0 * a.1)) by (nonlinear_arith);
    assert(a.1 * b.1 == b.1 * a.1) by (nonlinear_arith);
}

/// Subtraction respects rational equality in both operands.
pub proof fn lemma_rsub_cong(a: (int, int), a2: (int, int), b: (int, int), b2: (int, int))
    requires
        rat_valid(a),
        rat_valid(a2),
        rat_valid(b),
        rat_valid(b2),
        rat_eqv(a, a2),
        rat_eqv(b, b2),
    ensures
        rat_eqv(rsub(a, b), rsub(a2, b2)),
        rat_valid(rsub(a, b)),
        rat_valid(rsub(a2, b2)),
{
    let nb = rneg(b);
    let nb2 = rneg(b2);
    lemma_rsub_is_radd_neg(a, b);
    lemma_rsub_is_radd_neg(a2, b2);
    assert((-b.0) * b2.1 == (-b2.0) * b.1) by (nonlinear_arith)
        requires
            b.0 * b2.1 == b2.0 * b.1,
    ;
    assert(rat_eqv(nb, nb2));
    lemma_radd_cong(a, a2, nb);
    lemma_rsub_is_radd_neg(a2, nb);
    lemma_radd_cong(nb, nb2, a2);
    lemma_rsub_is_radd_neg(nb2, a2);
    lemma_rat_eqv_trans(radd(a, nb), radd(a2, nb), radd(a2, nb2));
}

/// Multiplication respects rational equality in both operands.
#[verifier::rlimit(50)]
pub proof fn lemma_rmul_cong(a: (int, int), a2: (int, int), b: (int, int), b2: (int, int))
    requires
        rat_valid(a),
        rat_valid(a2),
        rat_valid(b),
        rat_valid(b2),
        rat_eqv(a, a2),
        rat_eqv(b, b2),
    ensures
        rat_eqv(rmul(a, b), rmul(a2, b2)),
        rat_valid(rmul(a, b)),
        rat_valid(rmul(a2, b2)),
{
    assert((a.0 * b.0) * (a2.1 * b2.1) == (a.0 * a2.1) * (b.0 * b2.1)) by (nonlinear_arith);
    assert((a.0 * a2.1) * (b.0 * b2.1) == (a2.0 * a.1) * (b2.0 * b.1)) by (nonlinear_arith)
        requires
            a.0 * a2.1 == a2.0 * a.1,
            b.0 * b2.1 == b2.0 * b.1,
    ;
    assert((a2.0 * a.1) * (b2.0 * b.1) == (a2.0 * b2.0) * (a.1 * b.1)) by (nonlinear_arith);
    assert(a.1 * b.1 != 0 && a2.1 * b2.1 != 0) by (nonlinear_arith)
        requires
            a.1 != 0,
            a2.1 != 0,
            b.1 != 0,
            b2.1 != 0,
    ;
}

/// Rational equality preserves the sign classes.
pub proof fn lemma_rat_eqv_sign(a: (int, int), b: (int, int))
    requires
        rat_valid(a),
        rat_valid(b),
        rat_eqv(a, b),
    ensures
        rat_nonneg(a) <==> rat_nonneg(b),
        rat_pos(a) <==> rat_pos(b),
{
    assert((a.0 * a.1) * (b.1 * b.1) == (b.0 * b.1) * (a.1 * a.1) && a.1 * a.1 > 0 && b.1 * b.1
        > 0) by (nonlinear_arith)
        requires
            a.0 * b.1 == b.0 * a.1,
            a.1 != 0,
            b.1 != 0,
    ;
    assert(rat_nonneg(a) <==> rat_nonneg(b)) by (nonlinear_arith)
        requires
            (a.0 * a.1) * (b.1 * b.1) == (b.0 * b.1) * (a.1 * a.1),
            a.1 * a.1 > 0,
            b.1 * b.1 > 0,
    ;
    assert(rat_pos(a) <==> rat_pos(b)) by (nonlinear_arith)
        requires
            (a.0 * a.1) * (b.1 * b.1) == (b.0 * b.1) * (a.1 * a.1),
            a.1 * a.1 > 0,
            b.1 * b.1 > 0,
    ;
}

/// A finite product of fractions denotes the product of their rationals.
pub proof fn lemma_mul_val_rat(a: Fraction, b: Fraction)
    requires
        a.wf(),
        b.wf(),
        a.is_finite(),
        b.is_finite(),
        a.mul_ok(b),
    ensures
        rat_valid(rat_of(a.mul_val(b))),
        a.mul_val(b).wf(),
        rat_eqv(rat_of(a.mul_val(b)), rmul(rat_of(a), rat_of(b))),
{
    let n0 = a.numerator * b.numerator;
    let d0 = a.denominator * b.denominator;
    assert(d0 != 0) by (nonlinear_arith)
        requires
            d0 == a.denominator * b.denominator,
            a.denominator != 0,
            b.denominator != 0,
    ;
    crate::fraction::lemma_canon_in_range(n0, d0);
    crate::fraction::lemma_canon_props(n0, d0);
}

/// A finite quotient of fractions denotes the quotient of their rationals.
pub proof fn lemma_div_val_rat(a: Fraction, b: Fraction)
    requires
        a.wf(),
        b.wf(),
        a.is_finite(),
        b.is_finite(),
        b.numerator != 0,
        a.div_ok(b),
    ensures
        rat_valid(rat_of(a.div_val(b))),
        a.div_val(b).wf(),
        rat_eqv(rat_of(a.div_val(b)), rdiv(rat_of(a), rat_of(b))),
{
    let n0 = a.numerator * b.denominator;
    let d0 = a.denominator * b.numerator;
    assert(d0 != 0) by (nonlinear_arith)
        requires
            d0 == a.denominator * b.numerator,
            a.denominator != 0,
            b.numerator != 0,
    ;
    crate::fraction::lemma_canon_in_range(n0, d0);
    crate::fraction::lemma_canon_props(n0, d0);
}

/// A finite difference of fractions denotes the difference of their
/// rationals.
pub proof fn lemma_sub_val_rat(a: Fraction, b: Fraction)
    requires
        a.wf(),
        b.wf(),
        a.is_finite(),
        b.is_finite(),
        a.sub_ok(b),
    ensures
        rat_valid(rat_of(a.sub_val(b))),
        a.sub_val(b).wf(),
        rat_eqv(rat_of(a.sub_val(b)), rsub(rat_of(a), rat_of(b))),
{
    let n0 = a.numerator * b.denominator - b.numerator * a.denominator;
    let d0 = a.denominator * b.denominator;
    assert(d0 != 0) by (nonlinear_arith)
        requires
            d0 == a.denominator * b.denominator,
            a.denominator != 0,
            b.denominator != 0,
    ;
    crate::fraction::lemma_canon_in_range(n0, d0);
    crate::fraction::lemma_canon_props(n0, d0);
}

/// Subtracting and adding back cancel: `(a - b) - a` is the negation of `b`.
proof fn lemma_rsub_cancel(a: (int, int), b: (int, int))
    requires
        rat_valid(a),
        rat_valid(b),
    ensures
        rat_eqv(rsub(rsub(a, b), a), rneg(b)),
        rat_valid(rsub(rsub(a, b), a)),
{
    assert(((a.0 * b.1 - b.0 * a.1) * a.1 - a.0 * (a.1 * b.1)) * b.1 == (-b.0) * ((a.1 * b.1)
        * a.1)) by (nonlinear_arith);
    assert((a.1 * b.1) * a.1 != 0) by (nonlinear_arith)
        requires
            a.1 != 0,
            b.1 != 0,
    ;
}

/// Law (pivot progress): a primal pivot never decreases the objective.  The
/// entering column has a negative reduced cost, the pivot element is positive
/// and the leaving row's right-hand side is nonnegative, so the update
/// subtracts a nonpositive amount from the objective; without degeneracy (a
/// strictly positive right-hand side) the objective strictly increases.
/// Stated for finite values whose intermediates stay finite and in range.
pub proof fn lemma_pivot_objective_monotone(obj: Fraction, br: Fraction, rce: Fraction, p: Fraction)
    requires
        obj.wf(),
        br.wf(),
        rce.wf(),
        p.wf(),
        obj.is_finite(),
        br.is_finite(),
        rce.is_finite(),
        p.is_finite(),
        rat_nonneg(rat_of(br)),
        !rat_nonneg(rat_of(rce)),
        rat_pos(rat_of(p)),
        br.mul_ok(rce),
        br.mul_val(rce).is_finite(),
        br.mul_val(rce).div_ok(p),
        br.mul_val(rce).div_val(p).is_finite(),
        obj.sub_ok(br.mul_val(rce).div_val(p)),
    ensures
        crate::solver::pivot_elim_entry(obj, br, rce, p) is Some,
        rat_nonneg(
            rsub(
                rat_of(crate::solver::pivot_elim_entry(obj, br, rce, p)->Some_0),
                rat_of(obj),
            ),
        ),
        rat_pos(rat_of(br)) ==> rat_pos(
            rsub(
                rat_of(crate::solver::pivot_elim_entry(obj, br, rce, p)->Some_0),
                rat_of(obj),
            ),
        ),
{
    let prod = br.mul_val(rce);
    let quot = prod.div_val(p);
    let v = obj.sub_val(quot);
    assert(crate::solver::pivot_elim_entry(obj, br, rce, p) == Some(v));
    lemma_mul_val_rat(br, rce);
    lemma_div_val_rat(prod, p);
    lemma_sub_val_rat(obj, quot);
    // The subtracted amount is the rational (br * rce) / p.
    let t = rdiv(rmul(rat_of(br), rat_of(rce)), rat_of(p));
    assert(rat_valid(t)) by (nonlinear_arith)
        requires
            t == rdiv(rmul(rat_of(br), rat_of(rce)), rat_of(p)),
            br.denominator != 0,
            rce.denominator != 0,
            p.numerator != 0,
    ;
    assert(rat_valid(rmul(rat_of(br), rat_of(rce)))) by (nonlinear_arith)
        requires
            br.denominator != 0,
            rce.denominator != 0,
    ;
    assert(rat_eqv(rat_of(quot), t)) by {
        lemma_rdiv_cong_left(rat_of(prod), rmul(rat_of(br), rat_of(rce)), rat_of(p));
        lemma_rat_eqv_trans(rat_of(quot), rdiv(rat_of(prod), rat_of(p)), t);
    }
    // The amount is nonpositive, strictly negative when br is positive.
    assert(!rat_pos(t)) by (nonlinear_arith)
        requires
            t == rdiv(rmul(rat_of(br), rat_of(rce)), rat_of(p)),
            rat_nonneg(rat_of(br)),
            !rat_nonneg(rat_of(rce)),
            rat_pos(rat_of(p)),
    ;
    assert(rat_pos(rat_of(br)) ==> !rat_nonneg(t)) by (nonlinear_arith)
        requires
            t == rdiv(rmul(rat_of(br), rat_of(rce)), rat_of(p)),
            !rat_nonneg(rat_of(rce)),
            rat_pos(rat_of(p)),
    ;
    // The change in objective is the negation of that amount.
    let d = rsub(rat_of(v), rat_of(obj));
    lemma_rsub_cong(rat_of(obj), rat_of(obj), rat_of(quot), t);
    lemma_rat_eqv_trans(rat_of(v), rsub(rat_of(obj), rat_of(quot)), rsub(rat_of(obj), t));
    lemma_rsub_cong(rat_of(v), rsub(rat_of(obj), t), rat_of(obj), rat_of(obj));
    lemma_rsub_cancel(rat_of(obj), t);
    lemma_rat_eqv_trans(d, rsub(rsub(rat_of(obj), t), rat_of(obj)), rneg(t));
    lemma_rat_eqv_sign(d, rneg(t));
    assert(!rat_pos(t) ==> rat_nonneg(rneg(t))) by (nonlinear_arith);
    assert(!rat_nonneg(t) ==> rat_pos(rneg(t))) by (nonlinear_arith);
}

/// Division respects rational equality in its dividend.
pub proof fn lemma_rdiv_cong_left(a: (int, int), a2: (int, int), p: (int, int))
    requires
        rat_valid(a),
        rat_valid(a2),
        rat_valid(p),
        p.0 != 0,
        rat_eqv(a, a2),
    ensures
        rat_eqv(rdiv(a, p), rdiv(a2, p)),
        rat_valid(rdiv(a, p)),
        rat_valid(rdiv(a2, p)),
{
    assert((a.0 * p.1) * (a2.1 * p.0) == (a.0 * a2.1) * (p.0 * p.1)) by (nonlinear_arith);
    assert((a2.0 * p.1) * (a.1 * p.0) == (a2.0 * a.1) * (p.0 * p.1)) by (nonlinear_arith);
    assert((a.0 * a2.1) * (p.0 * p.1) == (a2.0 * a.1) * (p.0 * p.1));
    assert(a.1 * p.0 != 0 && a2.1 * p.0 != 0) by (nonlinear_arith)
        requires
            a.1 != 0,
            a2.1 != 0,
            p.0 != 0,
    ;
}

/// Adding back what was subtracted restores the value.
proof fn lemma_rsub_radd_back(a: (int, int), b: (int, int))
    requires
        rat_valid(a),
        rat_valid(b),
    ensures
        rat_eqv(radd(rsub(a, b), b), a),
{
    assert(((a.0 * b.1 - b.0 * a.1) * b.1 + b.0 * (a.1 * b.1)) * a.1 == a.0 * ((a.1 * b.1)
        * b.1)) by (nonlinear_arith);
}

/// Law (pivot reversibility, eliminated entries): an entry rewritten by the
/// elimination step `cur - x * y / p` is recovered exactly by adding
/// `x * y / p` back, so the rewrite loses no solutions.  Stated for finite
/// values whose intermediates stay finite.
pub proof fn lemma_pivot_elim_invertible(cur: Fraction, x: Fraction, y: Fraction, p: Fraction)
    requires
        cur.wf(),
        x.wf(),
        y.wf(),
        p.wf(),
        cur.is_finite(),
        x.is_finite(),
        y.is_finite(),
        p.is_finite(),
        p.numerator != 0,
        x.mul_ok(y),
        x.mul_val(y).is_finite(),
        x.mul_val(y).div_ok(p),
        x.mul_val(y).div_val(p).is_finite(),
        cur.sub_ok(x.mul_val(y).div_val(p)),
    ensures
        crate::solver::pivot_elim_entry(cur, x, y, p) is Some,
        rat_eqv(
            radd(
                rat_of(crate::solver::pivot_elim_entry(cur, x, y, p)->Some_0),
                rdiv(rmul(rat_of(x), rat_of(y)), rat_of(p)),
            ),
            rat_of(cur),
        ),
{
    let prod = x.mul_val(y);
    let quot = prod.div_val(p);
    let v = cur.sub_val(quot);
    assert(crate::solver::pivot_elim_entry(cur, x, y, p) == Some(v));
    lemma_mul_val_rat(x, y);
    lemma_div_val_rat(prod, p);
    lemma_sub_val_rat(cur, quot);
    let t = rdiv(rmul(rat_of(x), rat_of(y)), rat_of(p));
    assert(rat_valid(rmul(rat_of(x), rat_of(y)))) by (nonlinear_arith)
        requires
            x.denominator != 0,
            y.denominator != 0,
    ;
    assert(rat_valid(t)) by (nonlinear_arith)
        requires
            t == rdiv(rmul(rat_of(x), rat_of(y)), rat_of(p)),
            x.denominator != 0,
            y.denominator != 0,
            p.numerator != 0,
    ;
    lemma_rdiv_cong_left(rat_of(prod), rmul(rat_of(x), rat_of(y)), rat_of(p));
    lemma_rat_eqv_trans(rat_of(quot), rdiv(rat_of(prod), rat_of(p)), t);
    // v ~ cur - t, so v + t ~ (cur - t) + t ~ cur.
    lemma_rsub_cong(rat_of(cur), rat_of(cur), rat_of(quot), t);
    lemma_rat_eqv_trans(rat_of(v), rsub(rat_of(cur), rat_of(quot)), rsub(rat_of(cur), t));
    lemma_radd_cong(rat_of(v), rsub(rat_of(cur), t), t);
    lemma_rsub_radd_back(rat_of(cur), t);
    lemma_rat_eqv_trans(
        radd(rat_of(v), t),
        radd(rsub(rat_of(cur), t), t),
        rat_of(cur),
    );
}

/// Law (pivot reversibility, pivot row): an entry scaled by the pivot step
/// `cur / p` is recovered exactly by multiplying by the pivot again, so the
/// scaling loses no solutions.
pub proof fn lemma_pivot_row_invertible(cur: Fraction, p: Fraction)
    requires
        cur.wf(),
        p.wf(),
        cur.is_finite(),
        p.is_finite(),
        p.numerator != 0,
        cur.div_ok(p),
    ensures
        crate::solver::pivot_row_entry(cur, p) is Some,
        rat_eqv(
            rmul(rat_of(p), rat_of(crate::solver::pivot_row_entry(cur, p)->Some_0)),
            rat_of(cur),
        ),
{
    let v = cur.div_val(p);
    assert(crate::solver::pivot_row_entry(cur, p) == Some(v));
    lemma_div_val_rat(cur, p);
    assert(rat_valid(rdiv(rat_of(cur), rat_of(p)))) by (nonlinear_arith)
        requires
            cur.denominator != 0,
            p.numerator != 0,
    ;
    lemma_rmul_cong(rat_of(p), rat_of(p), rat_of(v), rdiv(rat_of(cur), rat_of(p)));
    assert(rat_eqv(rmul(rat_of(p), rdiv(rat_of(cur), rat_of(p))), rat_of(cur)))
        by (nonlinear_arith)
        requires
            cur.denominator != 0,
            p.denominator != 0,
            p.numerator != 0,
    ;
    assert(rat_valid(rmul(rat_of(p), rdiv(rat_of(cur), rat_of(p))))) by (nonlinear_arith)
        requires
            cur.denominator != 0,
            p.denominator != 0,
            p.numerator != 0,
    ;
    lemma_rat_eqv_trans(
        rmul(rat_of(p), rat_of(v)),
        rmul(rat_of(p), rdiv(rat_of(cur), rat_of(p))),
        rat_of(cur),
    );
}

/// Every fraction in the sequence has a nonzero denominator.
pub open spec fn all_valid(s: Seq<Fraction>) -> bool {
    forall|i: int| 0 <= i < s.len() ==> (#[trigger] s[i]).denominator != 0
}

/// The dot product of a row with an assignment over the first `k` columns,
/// as an exact rational.
pub open spec fn rdot(row: Seq<Fraction>, x: Seq<Fraction>, k: int) -> (int, int)
    decreases k,
{
    if k <= 0 {
        (0int, 1int)
    } else {
        radd(rdot(row, x, k - 1), rmul(rat_of(row[k - 1]), rat_of(x[k - 1])))
    }
}

/// Dot products of valid entries are valid rationals.
proof fn lemma_rdot_valid(row: Seq<Fraction>, x: Seq<Fraction>, k: int)
    requires
        0 <= k <= row.len(),
        k <= x.len(),
        all_valid(row),
        all_valid(x),
    ensures
        rat_valid(rdot(row, x, k)),
    decreases k,
{
    if k > 0 {
        lemma_rdot_valid(row, x, k - 1);
        let prev = rdot(row, x, k - 1);
        assert(prev.1 * (row[k - 1].denominator * x[k - 1].denominator) != 0) by (nonlinear_arith)
            requires
                prev.1 != 0,
                row[k - 1].denominator != 0,
                x[k - 1].denominator != 0,
        ;
    }
}

/// Dividing each entry by `p` divides the whole dot product by `p`: the
/// quotient commutes with the multiply-accumulate.
proof fn lemma_radd_of_rdiv(a: (int, int), b: (int, int), p: (int, int))
    requires
        rat_valid(a),
        rat_valid(b),
        rat_valid(p),
        p.0 != 0,
    ensures
        rat_eqv(radd(rdiv(a, p), rdiv(b, p)), rdiv(radd(a, b), p)),
        rat_valid(radd(rdiv(a, p), rdiv(b, p))),
        rat_valid(rdiv(radd(a, b), p)),
{
    assert((a.0 * p.1) * (b.1 * p.0) == (p.0 * p.1) * (a.0 * b.1)) by (nonlinear_arith);
    assert((b.0 * p.1) * (a.1 * p.0) == (p.0 * p.1) * (b.0 * a.1)) by (nonlinear_arith);
    assert((p.0 * p.1) * (a.0 * b.1) + (p.0 * p.1) * (b.0 * a.1) == (p.0 * p.1) * (a.0 * b.1 + b.0
        * a.1)) by (nonlinear_arith);
    let u = a.0 * b.1 + b.0 * a.1;
    assert(((p.0 * p.1) * u) * ((a.1 * b.1) * p.0) == (u * p.1) * ((a.1 * p.0) * (b.1
        * p.0))) by (nonlinear_arith);
    assert((a.1 * p.0) * (b.1 * p.0) != 0 && a.1 * b.1 * p.0 != 0) by (nonlinear_arith)
        requires
            a.1 != 0,
            b.1 != 0,
            p.0 != 0,
    ;
}

/// Multiplying by a quotient is dividing the product.
proof fn lemma_rmul_of_rdiv(u: (int, int), p: (int, int), x: (int, int))
    ensures
        rmul(rdiv(u, p), x) == rdiv(rmul(u, x), p),
{
    assert((u.0 * p.1) * x.0 == (u.0 * x.0) * p.1) by (nonlinear_arith);
    assert((u.1 * p.0) * x.1 == (u.1 * x.1) * p.0) by (nonlinear_arith);
}

/// Law (pivot row, solutions preserved): when every entry of a row is the
/// original entry divided by the pivot, its dot product with any assignment
/// is the original dot product divided by the pivot; since the right-hand
/// side is scaled the same way, exactly the same assignments satisfy the
/// scaled constraint as the original one.
pub proof fn lemma_rdot_scaled_row(
    w: Seq<Fraction>,
    u: Seq<Fraction>,
    x: Seq<Fraction>,
    p: Fraction,
    k: int,
)
    requires
        0 <= k <= w.len(),
        k <= u.len(),
        k <= x.len(),
        p.denominator != 0,
        p.numerator != 0,
        all_valid(w),
        all_valid(u),
        all_valid(x),
        forall|j: int|
            0 <= j < k ==> rat_eqv(rat_of(#[trigger] w[j]), rdiv(rat_of(u[j]), rat_of(p))),
    ensures
        rat_eqv(rdot(w, x, k), rdiv(rdot(u, x, k), rat_of(p))),
    decreases k,
{
    let pr = rat_of(p);
    if k == 0 {
        assert(rdot(w, x, 0) == (0int, 1int));
        assert(rdot(u, x, 0) == (0int, 1int));
        assert(rat_eqv((0int, 1int), rdiv((0int, 1int), pr))) by (nonlinear_arith);
    } else {
        lemma_rdot_scaled_row(w, u, x, p, k - 1);
        lemma_rdot_valid(w, x, k - 1);
        lemma_rdot_valid(u, x, k - 1);
        lemma_rdot_valid(u, x, k);
        let wd = rdot(w, x, k - 1);
        let ud = rdot(u, x, k - 1);
        let wk = rat_of(w[k - 1]);
        let uk = rat_of(u[k - 1]);
        let xk = rat_of(x[k - 1]);
        assert(rat_valid(rdiv(ud, pr)) && rat_valid(rdiv(uk, pr)) && rat_valid(
            rmul(uk, xk),
        )) by (nonlinear_arith)
            requires
                ud.1 != 0,
                uk.1 != 0,
                xk.1 != 0,
                pr.0 != 0,
        ;
        assert(rat_valid(rmul(wk, xk)) && rat_valid(rmul(rdiv(uk, pr), xk))) by (nonlinear_arith)
            requires
                wk.1 != 0,
                uk.1 != 0,
                xk.1 != 0,
                pr.0 != 0,
        ;
        // The accumulator and the new term each carry the division by p.
        lemma_radd_cong(wd, rdiv(ud, pr), rmul(wk, xk));
        lemma_rmul_cong(wk, rdiv(uk, pr), xk, xk);
        lemma_rsub_is_radd_neg(rdiv(ud, pr), rmul(wk, xk));
        lemma_radd_cong(rmul(wk, xk), rmul(rdiv(uk, pr), xk), rdiv(ud, pr));
        lemma_rsub_is_radd_neg(rmul(rdiv(uk, pr), xk), rdiv(ud, pr));
        lemma_rmul_of_rdiv(uk, pr, xk);
        lemma_radd_of_rdiv(ud, rmul(uk, xk), pr);
        assert(rdot(w, x, k) == radd(wd, rmul(wk, xk)));
        assert(rdot(u, x, k) == radd(ud, rmul(uk, xk)));
        assert(rat_eqv(rdot(w, x, k), radd(rdiv(ud, pr), rmul(wk, xk))));
        assert(rat_eqv(rmul(wk, xk), rmul(rdiv(uk, pr), xk)));
        assert(radd(rdiv(ud, pr), rmul(wk, xk)) == radd(rmul(wk, xk), rdiv(ud, pr)));
        assert(rat_eqv(
            radd(rmul(wk, xk), rdiv(ud, pr)),
            radd(rmul(rdiv(uk, pr), xk), rdiv(ud, pr)),
        ));
        assert(radd(rmul(rdiv(uk, pr), xk), rdiv(ud, pr)) == radd(
            rdiv(ud, pr),
            rmul(rdiv(uk, pr), xk),
        ));
        assert(rat_eqv(
            radd(rdiv(ud, pr), rmul(wk, xk)),
            radd(rdiv(ud, pr), rmul(rdiv(uk, pr), xk)),
        ));
        assert(radd(rdiv(ud, pr), rmul(rdiv(uk, pr), xk)) == radd(
            rdiv(ud, pr),
            rdiv(rmul(uk, xk), pr),
        ));
        assert(rat_eqv(
            radd(rdiv(ud, pr), rdiv(rmul(uk, xk), pr)),
            rdiv(radd(ud, rmul(uk, xk)), pr),
        ));
        lemma_rat_eqv_trans(
            rdot(w, x, k),
            radd(rdiv(ud, pr), rmul(wk, xk)),
            radd(rdiv(ud, pr), rmul(rdiv(uk, pr), xk)),
        );
        lemma_rat_eqv_trans(
            rdot(w, x, k),
            radd(rdiv(ud, pr), rmul(rdiv(uk, pr), xk)),
            rdiv(radd(ud, rmul(uk, xk)), pr),
        );
    }
}

/// Corollary: an assignment satisfies the scaled pivot row exactly when it
/// satisfied the original row (division by a nonzero pivot is injective on
/// rationals).
pub proof fn lemma_scaled_row_same_solutions(
    w: Seq<Fraction>,
    u: Seq<Fraction>,
    x: Seq<Fraction>,
    p: Fraction,
    br: Fraction,
    br2: Fraction,
    k: int,
)
    requires
        0 <= k <= w.len(),
        k <= u.len(),
        k <= x.len(),
        p.denominator != 0,
        p.numerator != 0,
        br.denominator != 0,
        br2.denominator != 0,
        all_valid(w),
        all_valid(u),
        all_valid(x),
        forall|j: int|
            0 <= j < k ==> rat_eqv(rat_of(#[trigger] w[j]), rdiv(rat_of(u[j]), rat_of(p))),
        rat_eqv(rat_of(br2), rdiv(rat_of(br), rat_of(p))),
    ensures
        rat_eqv(rdot(w, x, k), rat_of(br2)) <==> rat_eqv(rdot(u, x, k), rat_of(br)),
{
    let pr = rat_of(p);
    lemma_rdot_scaled_row(w, u, x, p, k);
    lemma_rdot_valid(w, x, k);
    lemma_rdot_valid(u, x, k);
    let sw = rdot(w, x, k);
    let su = rdot(u, x, k);
    assert(rat_valid(rdiv(su, pr)) && rat_valid(rdiv(rat_of(br), pr))) by (nonlinear_arith)
        requires
            su.1 != 0,
            br.denominator != 0,
            pr.0 != 0,
    ;
    if rat_eqv(sw, rat_of(br2)) {
        lemma_rat_eqv_trans(rdiv(su, pr), sw, rat_of(br2));
        lemma_rat_eqv_trans(rdiv(su, pr), rat_of(br2), rdiv(rat_of(br), pr));
        // Cancel the common division by p.
        assert(rat_eqv(su, rat_of(br))) by (nonlinear_arith)
            requires
                rat_eqv(rdiv(su, pr), rdiv(rat_of(br), pr)),
                su.1 != 0,
                br.denominator != 0,
                pr.0 != 0,
                pr.1 != 0,
        ;
    }
    if rat_eqv(su, rat_of(br)) {
        lemma_rdiv_cong_left(su, rat_of(br), pr);
        lemma_rat_eqv_trans(sw, rdiv(su, pr), rdiv(rat_of(br), pr));
        assert(rat_eqv(rdiv(rat_of(br), pr), rat_of(br2)));
        lemma_rat_eqv_trans(sw, rdiv(rat_of(br), pr), rat_of(br2));
    }
}

} // verus!
