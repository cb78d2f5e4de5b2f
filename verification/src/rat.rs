use vstd::prelude::*;
use crate::big::Big;
use crate::big::big_add;
use crate::big::big_sub;
use crate::big::big_mul;
use crate::big::big_cmp;
use crate::big::big_divrem;
use crate::big::big_gcd;
use crate::frac::Frac;
use crate::frac::fadd;
use crate::frac::fsub;
use crate::frac::fmul;
use crate::frac::feq;
use crate::frac::fle;
use crate::frac::flt;

verus! {

/// An exact rational number: a pair of arbitrary precision integers with a
/// positive denominator.  The reduction engine keeps every Gram-Schmidt
/// coefficient and squared norm as such a value, so its comparisons are
/// exact where a floating-point implementation would only approximate.
#[derive(Clone, Debug)]
pub struct Rat {
    /// Numerator.
    pub num: Big,
    /// Denominator, strictly positive.
    pub den: Big,
}

impl Rat {
    /// Well-formed rational: canonical parts and a positive denominator.
    pub open spec fn wf(&self) -> bool {
        &&& self.num.wf()
        &&& self.den.wf()
        &&& self.den@ > 0
    }

    /// The fraction this value encodes.
    pub open spec fn frac(&self) -> Frac {
        Frac { n: self.num@, d: self.den@ }
    }

    /// The rational encoding of a machine integer.
    pub fn from_i64(v: i64) -> (r: Rat)
        ensures
            r.wf(),
            r.frac() == (Frac { n: v as int, d: 1int }),
    {
        let one = Big::from_i64(1);
        Rat { num: Big::from_i64(v), den: one }
    }

    /// The rational `n / d` for machine integers, `d` positive.
    pub fn ratio_i64(n: i64, d: i64) -> (r: Rat)
        requires
            d >= 1,
        ensures
            r.wf(),
            r.frac() == (Frac { n: n as int, d: d as int }),
    {
        Rat { num: Big::from_i64(n), den: Big::from_i64(d) }
    }

    /// The rational encoding of an arbitrary precision integer.
    pub fn from_big(v: &Big) -> (r: Rat)
        requires
            v.wf(),
        ensures
            r.wf(),
            r.frac() == (Frac { n: v@, d: 1int }),
    {
        Rat { num: v.copy(), den: Big::from_i64(1) }
    }

    /// Whether the value is zero.
    pub fn is_zero(&self) -> (r: bool)
        requires
            self.wf(),
        ensures
            r <==> self.num@ == 0,
    {
        self.num.is_zero()
    }

    /// A structural copy.
    pub fn copy(&self) -> (r: Rat)
        requires
            self.wf(),
        ensures
            r.wf(),
            r.frac() == self.frac(),
    {
        Rat { num: self.num.copy(), den: self.den.copy() }
    }
}

/// Divide out the greatest common divisor of `n` and `d`, keeping the value
/// of the fraction `n / d` and a positive denominator.
fn rat_reduce(n: Big, d: Big) -> (r: Rat)
    requires
        n.wf(),
        d.wf(),
        d@ > 0,
    ensures
        r.wf(),
        feq(r.frac(), Frac { n: n@, d: d@ }),
{
    let g = big_gcd(&n, &d);
    let (qn, rn) = big_divrem(&n, &g);
    let (qd, rd) = big_divrem(&d, &g);
    proof {
        lemma_exact_div(n@, g@, qn@, rn@);
        lemma_exact_div(d@, g@, qd@, rd@);
        assert(qd@ > 0) by (nonlinear_arith)
            requires
                d@ == qd@ * g@,
                d@ > 0,
                g@ > 0,
        ;
        assert(qn@ * d@ == n@ * qd@) by (nonlinear_arith)
            requires
                n@ == qn@ * g@,
                d@ == qd@ * g@,
        ;
    }
    Rat { num: qn, den: qd }
}

/// A remainder smaller than a positive divisor that divides the dividend
/// exactly must be zero.
proof fn lemma_exact_div(x: int, g: int, q: int, r: int)
    requires
        g > 0,
        x % g == 0,
        x == q * g + r,
        vstd::math::abs(r) < g,
    ensures
        r == 0,
        x == q * g,
{
    vstd::arithmetic::div_mod::lemma_fundamental_div_mod(x, g);
    assert(-g < r && r < g);
    assert(r == (x / g - q) * g) by (nonlinear_arith)
        requires
            x == g * (x / g) + x % g,
            x % g == 0,
            x == q * g + r,
    ;
    assert(r == 0) by (nonlinear_arith)
        requires
            r == (x / g - q) * g,
            -g < r && r < g,
            g > 0,
    ;
}

/// Exact sum of two rationals.
pub fn rat_add(a: &Rat, b: &Rat) -> (r: Rat)
    requires
        a.wf(),
        b.wf(),
    ensures
        r.wf(),
        feq(r.frac(), fadd(a.frac(), b.frac())),
{
    let n = big_add(&big_mul(&a.num, &b.den), &big_mul(&b.num, &a.den));
    let d = big_mul(&a.den, &b.den);
    proof {
        assert(d@ > 0) by (nonlinear_arith)
            requires
                d@ == a.den@ * b.den@,
                a.den@ > 0,
                b.den@ > 0,
        ;
    }
    rat_reduce(n, d)
}

/// Exact difference of two rationals.
pub fn rat_sub(a: &Rat, b: &Rat) -> (r: Rat)
    requires
        a.wf(),
        b.wf(),
    ensures
        r.wf(),
        feq(r.frac(), fsub(a.frac(), b.frac())),
{
    let n = big_sub(&big_mul(&a.num, &b.den), &big_mul(&b.num, &a.den));
    let d = big_mul(&a.den, &b.den);
    proof {
        assert(d@ > 0) by (nonlinear_arith)
            requires
                d@ == a.den@ * b.den@,
                a.den@ > 0,
                b.den@ > 0,
        ;
    }
    rat_reduce(n, d)
}

/// Exact product of two rationals.
pub fn rat_mul(a: &Rat, b: &Rat) -> (r: Rat)
    requires
        a.wf(),
        b.wf(),
    ensures
        r.wf(),
        feq(r.frac(), fmul(a.frac(), b.frac())),
{
    let n = big_mul(&a.num, &b.num);
    let d = big_mul(&a.den, &b.den);
    proof {
        assert(d@ > 0) by (nonlinear_arith)
            requires
                d@ == a.den@ * b.den@,
                a.den@ > 0,
                b.den@ > 0,
        ;
    }
    rat_reduce(n, d)
}

/// Exact quotient of two rationals; the divisor must be nonzero.  The
/// result is the rational `r` with `r * b == a`.
pub fn rat_div(a: &Rat, b: &Rat) -> (r: Rat)
    requires
        a.wf(),
        b.wf(),
        b.num@ != 0,
    ensures
        r.wf(),
        feq(fmul(r.frac(), b.frac()), a.frac()),
{
    let n0 = big_mul(&a.num, &b.den);
    let d0 = big_mul(&a.den, &b.num);
    let n;
    let d;
    if b.num.is_neg() {
        n = n0.neg_of();
        d = d0.neg_of();
        proof {
            assert(d@ > 0) by (nonlinear_arith)
                requires
                    d@ == -(a.den@ * b.num@),
                    a.den@ > 0,
                    b.num@ < 0,
            ;
        }
    } else {
        n = n0;
        d = d0;
        proof {
            assert(d@ > 0) by (nonlinear_arith)
                requires
                    d@ == a.den@ * b.num@,
                    a.den@ > 0,
                    b.num@ > 0,
            ;
        }
    }
    let ghost nn = n@;
    let ghost dd = d@;
    let r = rat_reduce(n, d);
    proof {
        assert(r.num@ * dd == nn * r.den@);
        assert(r.num@ * (a.den@ * b.num@) == (a.num@ * b.den@) * r.den@) by (nonlinear_arith)
            requires
                r.num@ * dd == nn * r.den@,
                (nn == a.num@ * b.den@ && dd == a.den@ * b.num@) || (nn == -(a.num@ * b.den@)
                    && dd == -(a.den@ * b.num@)),
        ;
        assert((r.num@ * b.num@) * a.den@ == a.num@ * (r.den@ * b.den@)) by (nonlinear_arith)
            requires
                r.num@ * (a.den@ * b.num@) == (a.num@ * b.den@) * r.den@,
        ;
    }
    r
}

/// Exact order test: `a <= b`.
pub fn rat_le(a: &Rat, b: &Rat) -> (r: bool)
    requires
        a.wf(),
        b.wf(),
    ensures
        r <==> fle(a.frac(), b.frac()),
{
    let x = big_mul(&a.num, &b.den);
    let y = big_mul(&b.num, &a.den);
    !matches!(big_cmp(&x, &y), core::cmp::Ordering::Greater)
}

/// Exact order test: `a < b`.
pub fn rat_lt(a: &Rat, b: &Rat) -> (r: bool)
    requires
        a.wf(),
        b.wf(),
    ensures
        r <==> flt(a.frac(), b.frac()),
{
    let x = big_mul(&a.num, &b.den);
    let y = big_mul(&b.num, &a.den);
    matches!(big_cmp(&x, &y), core::cmp::Ordering::Less)
}

/// Additive inverse of a rational.
pub fn rat_neg(a: &Rat) -> (r: Rat)
    requires
        a.wf(),
    ensures
        r.wf(),
        r.frac() == (Frac { n: -a.frac().n, d: a.frac().d }),
{
    Rat { num: a.num.neg_of(), den: a.den.copy() }
}

/// Absolute value of a rational.
pub fn rat_abs(a: &Rat) -> (r: Rat)
    requires
        a.wf(),
    ensures
        r.wf(),
        r.frac() == (Frac { n: vstd::math::abs(a.frac().n) as int, d: a.frac().d }),
{
    Rat { num: a.num.abs_of(), den: a.den.copy() }
}

/// Round a rational to the nearest integer, ties away from zero.  The
/// contract pins the result exactly: the doubled distance of `num - r*den`
/// to zero is at most `den`, and at a tie the magnitude of the result is the
/// larger choice.
pub fn rat_round(a: &Rat) -> (r: Big)
    requires
        a.wf(),
    ensures
        r.wf(),
        2 * (vstd::math::abs(a.num@ - r@ * a.den@) as int) <= a.den@,
        2 * (a.num@ - r@ * a.den@) == a.den@ ==> a.num@ < 0,
        2 * (a.num@ - r@ * a.den@) == -a.den@ ==> a.num@ > 0,
{
    let (q, rm) = big_divrem(&a.num, &a.den);
    let rm_abs = rm.abs_of();
    let t = big_add(&rm_abs, &rm_abs);
    let half_up = !matches!(big_cmp(&t, &a.den), core::cmp::Ordering::Less);
    if half_up {
        proof {
            assert(rm@ != 0);
        }
        if a.num.is_neg() {
            let r = big_sub(&q, &Big::from_i64(1));
            proof {
                assert(rm@ < 0);
                assert(a.num@ - r@ * a.den@ == rm@ + a.den@) by (nonlinear_arith)
                    requires
                        a.num@ == q@ * a.den@ + rm@,
                        r@ == q@ - 1,
                ;
            }
            r
        } else {
            let r = big_add(&q, &Big::from_i64(1));
            proof {
                assert(a.num@ != 0) by (nonlinear_arith)
                    requires
                        a.num@ == q@ * a.den@ + rm@,
                        rm@ != 0,
                        -a.den@ < rm@ < a.den@,
                        a.den@ > 0,
                        rm@ > 0 <==> a.num@ > 0,
                ;
                assert(rm@ > 0);
                assert(a.num@ - r@ * a.den@ == rm@ - a.den@) by (nonlinear_arith)
                    requires
                        a.num@ == q@ * a.den@ + rm@,
                        r@ == q@ + 1,
                ;
            }
            r
        }
    } else {
        proof {
            assert(a.num@ - q@ * a.den@ == rm@);
        }
        q
    }
}

} // verus!
