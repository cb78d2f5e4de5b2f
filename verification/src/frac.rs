use vstd::prelude::*;

verus! {

/// A mathematical fraction: the specification-level value of an exact
/// rational.  A fraction is meaningful when its denominator is positive;
/// equality and order are read through cross multiplication, so one value
/// has many representations.
pub struct Frac {
    pub n: int,
    pub d: int,
}

/// A meaningful fraction: positive denominator.
pub open spec fn fok(a: Frac) -> bool {
    a.d > 0
}

/// The fraction of an integer.
pub open spec fn fint(n: int) -> Frac {
    Frac { n: n, d: 1 }
}

/// Sum of two fractions.
pub open spec fn fadd(a: Frac, b: Frac) -> Frac {
    Frac { n: a.n * b.d + b.n * a.d, d: a.d * b.d }
}

/// Difference of two fractions.
pub open spec fn fsub(a: Frac, b: Frac) -> Frac {
    Frac { n: a.n * b.d - b.n * a.d, d: a.d * b.d }
}

/// Product of two fractions.
pub open spec fn fmul(a: Frac, b: Frac) -> Frac {
    Frac { n: a.n * b.n, d: a.d * b.d }
}

/// Additive inverse.
pub open spec fn fneg(a: Frac) -> Frac {
    Frac { n: -a.n, d: a.d }
}

/// The square of a fraction.
pub open spec fn fsq(a: Frac) -> Frac {
    fmul(a, a)
}

/// Equality of the encoded rational values.
pub open spec fn feq(a: Frac, b: Frac) -> bool {
    a.n * b.d == b.n * a.d
}

/// Order of the encoded rational values (for positive denominators).
pub open spec fn fle(a: Frac, b: Frac) -> bool {
    a.n * b.d <= b.n * a.d
}

/// Strict order of the encoded rational values (for positive denominators).
pub open spec fn flt(a: Frac, b: Frac) -> bool {
    a.n * b.d < b.n * a.d
}

/// The absolute value of a fraction (for a positive denominator).
pub open spec fn fabs(a: Frac) -> Frac {
    Frac { n: vstd::math::abs(a.n) as int, d: a.d }
}

/// The fraction one half.
pub open spec fn fhalf() -> Frac {
    Frac { n: 1, d: 2 }
}

/// The fraction one quarter.
pub open spec fn fquarter() -> Frac {
    Frac { n: 1, d: 4 }
}

/// Equal fractions have equal absolute values.
pub proof fn lemma_fabs_feq(a: Frac, b: Frac)
    requires
        fok(a),
        fok(b),
        feq(a, b),
    ensures
        feq(fabs(a), fabs(b)),
{
    if a.n >= 0 {
        assert(b.n >= 0) by (nonlinear_arith)
            requires
                a.n * b.d == b.n * a.d,
                a.n >= 0,
                a.d > 0,
                b.d > 0,
        ;
    } else {
        assert(b.n < 0) by (nonlinear_arith)
            requires
                a.n * b.d == b.n * a.d,
                a.n < 0,
                a.d > 0,
                b.d > 0,
        ;
        assert((-a.n) * b.d == (-b.n) * a.d) by (nonlinear_arith)
            requires
                a.n * b.d == b.n * a.d,
        ;
    }
}

/// If `c` equals `x - y` then `c + y` equals `x`.
pub proof fn lemma_fsub_fadd(x: Frac, y: Frac, c: Frac)
    requires
        fok(x),
        fok(y),
        fok(c),
        feq(c, fsub(x, y)),
    ensures
        feq(fadd(c, y), x),
        fok(fadd(c, y)),
{
    assert((c.n * y.d + y.n * c.d) * x.d == x.n * (c.d * y.d)) by (nonlinear_arith)
        requires
            c.n * (x.d * y.d) == (x.n * y.d - y.n * x.d) * c.d,
            x.d > 0,
            y.d > 0,
            c.d > 0,
    ;
    assert(c.d * y.d > 0) by (nonlinear_arith)
        requires
            c.d > 0,
            y.d > 0,
    ;
}

/// A pair that passes the Lovasz test with a size-reduced coefficient and a
/// positive leading norm has a positive trailing norm; this is what makes
/// each processed Gram-Schmidt norm a legal divisor.
pub proof fn lemma_advance_pos(delta: Frac, ck1: Frac, ck: Frac, mu: Frac)
    requires
        fok(delta),
        fok(ck1),
        fok(ck),
        fok(mu),
        flt(fquarter(), delta),
        fle(fabs(mu), fhalf()),
        ck1.n > 0,
        fle(fmul(delta, ck1), fadd(ck, fmul(fsq(mu), ck1))),
    ensures
        ck.n > 0,
{
    if ck.n <= 0 {
        let lhs = (delta.n * ck1.n) * ((ck.d * (mu.d * mu.d * ck1.d)));
        let rhs = (ck.n * (mu.d * mu.d * ck1.d) + (mu.n * mu.n * ck1.n) * ck.d) * (delta.d
            * ck1.d);
        assert(lhs <= rhs);
        assert(4 * (mu.n * mu.n) <= mu.d * mu.d) by (nonlinear_arith)
            requires
                2 * (vstd::math::abs(mu.n) as int) <= mu.d,
        ;
        assert(ck.n * (mu.d * mu.d * ck1.d) * (delta.d * ck1.d) <= 0) by (nonlinear_arith)
            requires
                ck.n <= 0,
                mu.d > 0,
                ck1.d > 0,
                delta.d > 0,
        ;
        assert(4 * ((mu.n * mu.n * ck1.n) * ck.d) * (delta.d * ck1.d) <= (mu.d * mu.d) * ck1.n
            * ck.d * delta.d * ck1.d) by (nonlinear_arith)
            requires
                4 * (mu.n * mu.n) <= mu.d * mu.d,
                ck1.n > 0,
                ck.d > 0,
                delta.d > 0,
                ck1.d > 0,
        ;
        assert(4 * rhs <= (mu.d * mu.d) * ck1.n * ck.d * delta.d * ck1.d) by (nonlinear_arith)
            requires
                rhs == (ck.n * (mu.d * mu.d * ck1.d) + (mu.n * mu.n * ck1.n) * ck.d) * (delta.d
                    * ck1.d),
                ck.n * (mu.d * mu.d * ck1.d) * (delta.d * ck1.d) <= 0,
                4 * ((mu.n * mu.n * ck1.n) * ck.d) * (delta.d * ck1.d) <= (mu.d * mu.d) * ck1.n
                    * ck.d * delta.d * ck1.d,
        ;
        assert(delta.d < 4 * delta.n);
        assert((mu.d * mu.d) * ck1.n * ck.d * delta.d * ck1.d < 4 * lhs) by (nonlinear_arith)
            requires
                lhs == (delta.n * ck1.n) * ((ck.d * (mu.d * mu.d * ck1.d))),
                delta.d < 4 * delta.n,
                mu.d > 0,
                ck1.n > 0,
                ck.d > 0,
                ck1.d > 0,
        ;
        assert(false);
    }
}

/// Fraction equality is transitive.
pub proof fn lemma_feq_trans(a: Frac, b: Frac, c: Frac)
    requires
        fok(a),
        fok(b),
        fok(c),
        feq(a, b),
        feq(b, c),
    ensures
        feq(a, c),
{
    assert(a.n * c.d == c.n * a.d) by (nonlinear_arith)
        requires
            a.n * b.d == b.n * a.d,
            b.n * c.d == c.n * b.d,
            a.d > 0,
            b.d > 0,
            c.d > 0,
    ;
}

/// Equal fractions compare equally: order may be transported along `feq` on
/// both sides.
pub proof fn lemma_fle_subst(a: Frac, b: Frac, a2: Frac, b2: Frac)
    requires
        fok(a),
        fok(b),
        fok(a2),
        fok(b2),
        feq(a, a2),
        feq(b, b2),
        fle(a, b),
    ensures
        fle(a2, b2),
{
    assert(a2.n * b2.d <= b2.n * a2.d) by (nonlinear_arith)
        requires
            a.n * a2.d == a2.n * a.d,
            b.n * b2.d == b2.n * b.d,
            a.n * b.d <= b.n * a.d,
            a.d > 0,
            b.d > 0,
            a2.d > 0,
            b2.d > 0,
    ;
}

/// Strict order may be transported along `feq` on both sides.
pub proof fn lemma_flt_subst(a: Frac, b: Frac, a2: Frac, b2: Frac)
    requires
        fok(a),
        fok(b),
        fok(a2),
        fok(b2),
        feq(a, a2),
        feq(b, b2),
        flt(a, b),
    ensures
        flt(a2, b2),
{
    assert(a2.n * b2.d < b2.n * a2.d) by (nonlinear_arith)
        requires
            a.n * a2.d == a2.n * a.d,
            b.n * b2.d == b2.n * b.d,
            a.n * b.d < b.n * a.d,
            a.d > 0,
            b.d > 0,
            a2.d > 0,
            b2.d > 0,
    ;
}

/// Sums of equal fractions are equal.
pub proof fn lemma_fadd_feq(a: Frac, b: Frac, a2: Frac, b2: Frac)
    requires
        fok(a),
        fok(b),
        fok(a2),
        fok(b2),
        feq(a, a2),
        feq(b, b2),
    ensures
        feq(fadd(a, b), fadd(a2, b2)),
        fok(fadd(a, b)),
        fok(fadd(a2, b2)),
{
    assert((a.n * b.d) * (a2.d * b2.d) == (a2.n * b2.d) * (a.d * b.d)) by (nonlinear_arith)
        requires
            a.n * a2.d == a2.n * a.d,
    ;
    assert((b.n * a.d) * (a2.d * b2.d) == (b2.n * a2.d) * (a.d * b.d)) by (nonlinear_arith)
        requires
            b.n * b2.d == b2.n * b.d,
    ;
    assert((a.n * b.d + b.n * a.d) * (a2.d * b2.d) == (a2.n * b2.d + b2.n * a2.d) * (a.d
        * b.d)) by (nonlinear_arith)
        requires
            (a.n * b.d) * (a2.d * b2.d) == (a2.n * b2.d) * (a.d * b.d),
            (b.n * a.d) * (a2.d * b2.d) == (b2.n * a2.d) * (a.d * b.d),
    ;
    assert(a.d * b.d > 0) by (nonlinear_arith)
        requires
            a.d > 0,
            b.d > 0,
    ;
    assert(a2.d * b2.d > 0) by (nonlinear_arith)
        requires
            a2.d > 0,
            b2.d > 0,
    ;
}

/// Differences of equal fractions are equal.
pub proof fn lemma_fsub_feq(a: Frac, b: Frac, a2: Frac, b2: Frac)
    requires
        fok(a),
        fok(b),
        fok(a2),
        fok(b2),
        feq(a, a2),
        feq(b, b2),
    ensures
        feq(fsub(a, b), fsub(a2, b2)),
        fok(fsub(a, b)),
        fok(fsub(a2, b2)),
{
    assert((a.n * b.d) * (a2.d * b2.d) == (a2.n * b2.d) * (a.d * b.d)) by (nonlinear_arith)
        requires
            a.n * a2.d == a2.n * a.d,
    ;
    assert((b.n * a.d) * (a2.d * b2.d) == (b2.n * a2.d) * (a.d * b.d)) by (nonlinear_arith)
        requires
            b.n * b2.d == b2.n * b.d,
    ;
    assert((a.n * b.d - b.n * a.d) * (a2.d * b2.d) == (a2.n * b2.d - b2.n * a2.d) * (a.d
        * b.d)) by (nonlinear_arith)
        requires
            (a.n * b.d) * (a2.d * b2.d) == (a2.n * b2.d) * (a.d * b.d),
            (b.n * a.d) * (a2.d * b2.d) == (b2.n * a2.d) * (a.d * b.d),
    ;
    assert(a.d * b.d > 0) by (nonlinear_arith)
        requires
            a.d > 0,
            b.d > 0,
    ;
    assert(a2.d * b2.d > 0) by (nonlinear_arith)
        requires
            a2.d > 0,
            b2.d > 0,
    ;
}

/// Products of equal fractions are equal.
pub proof fn lemma_fmul_feq(a: Frac, b: Frac, a2: Frac, b2: Frac)
    requires
        fok(a),
        fok(b),
        fok(a2),
        fok(b2),
        feq(a, a2),
        feq(b, b2),
    ensures
        feq(fmul(a, b), fmul(a2, b2)),
        fok(fmul(a, b)),
        fok(fmul(a2, b2)),
{
    assert((a.n * b.n) * (a2.d * b2.d) == (a2.n * b2.n) * (a.d * b.d)) by (nonlinear_arith)
        requires
            a.n * a2.d == a2.n * a.d,
            b.n * b2.d == b2.n * b.d,
    ;
    assert(a.d * b.d > 0) by (nonlinear_arith)
        requires
            a.d > 0,
            b.d > 0,
    ;
    assert(a2.d * b2.d > 0) by (nonlinear_arith)
        requires
            a2.d > 0,
            b2.d > 0,
    ;
}

/// The strict order of fractions is transitive.
pub proof fn lemma_flt_trans(a: Frac, b: Frac, c: Frac)
    requires
        fok(a),
        fok(b),
        fok(c),
        flt(a, b),
        flt(b, c),
    ensures
        flt(a, c),
{
    assert(a.n * c.d < c.n * a.d) by (nonlinear_arith)
        requires
            a.n * b.d < b.n * a.d,
            b.n * c.d < c.n * b.d,
            a.d > 0,
            b.d > 0,
            c.d > 0,
    ;
}

/// A strict bound below a value carries through a non-strict bound above.
pub proof fn lemma_flt_fle_trans(a: Frac, b: Frac, c: Frac)
    requires
        fok(a),
        fok(b),
        fok(c),
        flt(a, b),
        fle(b, c),
    ensures
        flt(a, c),
{
    assert(a.n * c.d < c.n * a.d) by (nonlinear_arith)
        requires
            a.n * b.d < b.n * a.d,
            b.n * c.d <= c.n * b.d,
            a.d > 0,
            b.d > 0,
            c.d > 0,
    ;
}

/// The order of fractions is transitive.
pub proof fn lemma_fle_trans(a: Frac, b: Frac, c: Frac)
    requires
        fok(a),
        fok(b),
        fok(c),
        fle(a, b),
        fle(b, c),
    ensures
        fle(a, c),
{
    assert(a.n * c.d <= c.n * a.d) by (nonlinear_arith)
        requires
            a.n * b.d <= b.n * a.d,
            b.n * c.d <= c.n * b.d,
            a.d > 0,
            b.d > 0,
            c.d > 0,
    ;
}

} // verus!
