use vstd::prelude::*;
use num_bigint::BigInt;
use num_bigint::Sign;
use num_integer::Integer;

verus! {

/// An arbitrary precision signed integer: a sign and the magnitude as base
/// 2^32 limbs, least significant first, with no trailing zero limb.  All
/// basis entries and all numerators and denominators of the exact
/// Gram-Schmidt bookkeeping are of this type, so no arithmetic in the
/// reduction engine can overflow.
#[derive(Clone, Debug, PartialEq, Eq)]
pub struct Big {
    /// True exactly for strictly negative values.
    pub neg: bool,
    /// Magnitude limbs, least significant first.
    pub mag: Vec<u32>,
}

/// The natural number encoded by little endian base 2^32 limbs.
pub open spec fn mag_val(s: Seq<u32>) -> nat
    decreases s.len(),
{
    if s.len() == 0 {
        0
    } else {
        s[0] as nat + 0x1_0000_0000 * mag_val(s.drop_first())
    }
}

impl View for Big {
    type V = int;

    open spec fn view(&self) -> int {
        if self.neg {
            -(mag_val(self.mag@) as int)
        } else {
            mag_val(self.mag@) as int
        }
    }
}

impl DeepView for Big {
    type V = int;

    open spec fn deep_view(&self) -> int {
        self.view()
    }
}

impl Big {
    /// Canonical form: no trailing zero limb, and a negative sign only on a
    /// nonzero magnitude.  Two canonical values are structurally equal if
    /// and only if they encode the same integer.
    pub open spec fn wf(&self) -> bool {
        &&& (self.mag@.len() > 0 ==> self.mag@.last() != 0)
        &&& (self.neg ==> self.mag@.len() > 0)
    }

    /// The integer zero.
    pub fn zero() -> (r: Big)
        ensures
            r.wf(),
            r@ == 0,
    {
        Big { neg: false, mag: Vec::new() }
    }

    /// The encoding of a machine integer.
    pub fn from_i64(v: i64) -> (r: Big)
        ensures
            r.wf(),
            r@ == v as int,
    {
        let m: u64;
        if v < 0 {
            let w: i128 = -(v as i128);
            assert(0 < w <= 0x8000_0000_0000_0000);
            m = w as u64;
        } else {
            m = v as u64;
        }
        assert(m == vstd::math::abs(v as int));
        let lo: u32 = m as u32;
        let hi: u32 = (m >> 32) as u32;
        assert(m == lo + 0x1_0000_0000u64 * hi) by (bit_vector)
            requires lo == m as u32 && hi == (m >> 32) as u32;
        let mut mag: Vec<u32> = Vec::new();
        if hi != 0 {
            mag.push(lo);
            mag.push(hi);
            proof {
                let s = mag@;
                assert(s.drop_first() =~= seq![hi]);
                assert(seq![hi].drop_first() =~= Seq::<u32>::empty());
                assert(mag_val(Seq::<u32>::empty()) == 0);
                assert(mag_val(seq![hi]) == hi as nat + 0x1_0000_0000 * mag_val(
                    seq![hi].drop_first(),
                ));
                assert(mag_val(s) == lo as nat + 0x1_0000_0000 * mag_val(s.drop_first()));
                assert(mag_val(s) == m);
            }
        } else if lo != 0 {
            mag.push(lo);
            proof {
                let s = mag@;
                assert(s.drop_first() =~= Seq::<u32>::empty());
                assert(mag_val(Seq::<u32>::empty()) == 0);
                assert(mag_val(s) == lo as nat + 0x1_0000_0000 * mag_val(s.drop_first()));
                assert(mag_val(s) == m);
            }
        } else {
            assert(mag_val(mag@) == m);
        }
        Big { neg: v < 0, mag }
    }

    /// Whether the value is zero; in canonical form that is an empty
    /// magnitude.
    pub fn is_zero(&self) -> (r: bool)
        requires
            self.wf(),
        ensures
            r <==> self@ == 0,
    {
        proof {
            if self.mag@.len() > 0 {
                lemma_mag_val_nonzero(self.mag@);
            }
        }
        self.mag.len() == 0
    }

    /// Whether the value is strictly negative; in canonical form that is
    /// the sign flag.
    pub fn is_neg(&self) -> (r: bool)
        requires
            self.wf(),
        ensures
            r <==> self@ < 0,
    {
        proof {
            if self.mag@.len() > 0 {
                lemma_mag_val_nonzero(self.mag@);
            }
        }
        self.neg
    }

    /// A structural copy of the value.
    pub fn copy(&self) -> (r: Big)
        ensures
            r.neg == self.neg,
            r.mag@ == self.mag@,
            r@ == self@,
            self.wf() ==> r.wf(),
    {
        let mut mag: Vec<u32> = Vec::new();
        let mut i: usize = 0;
        while i < self.mag.len()
            invariant
                i <= self.mag@.len(),
                mag@ == self.mag@.take(i as int),
            decreases self.mag@.len() - i,
        {
            mag.push(self.mag[i]);
            proof {
                assert(mag@ =~= self.mag@.take(i + 1));
            }
            i = i + 1;
        }
        proof {
            assert(mag@ =~= self.mag@);
        }
        Big { neg: self.neg, mag }
    }

    /// The absolute value.
    pub fn abs_of(&self) -> (r: Big)
        requires
            self.wf(),
        ensures
            r.wf(),
            r@ == vstd::math::abs(self@) as int,
    {
        let r = Big { neg: false, mag: self.copy().mag };
        r
    }

    /// The additive inverse.
    pub fn neg_of(&self) -> (r: Big)
        requires
            self.wf(),
        ensures
            r.wf(),
            r@ == -self@,
    {
        let flipped: bool = if self.mag.len() == 0 {
            false
        } else {
            !self.neg
        };
        Big { neg: flipped, mag: self.mag.clone() }
    }
}

/// The decimal digits of a natural number, as ASCII bytes, most
/// significant first.
pub open spec fn dec_digits(v: nat) -> Seq<u8>
    decreases v,
{
    if v < 10 {
        seq![(48 + v) as u8]
    } else {
        dec_digits(v / 10).push((48 + v % 10) as u8)
    }
}

impl Big {
    /// Read a value that fits one limb.
    fn small_value(&self) -> (r: u64)
        requires
            self.wf(),
            0 <= self@ < 0x1_0000_0000,
        ensures
            r == self@,
    {
        proof {
            if self.mag@.len() > 0 {
                lemma_mag_val_nonzero(self.mag@);
            }
            if self.mag@.len() >= 2 {
                let rest = self.mag@.drop_first();
                assert(rest.last() == self.mag@.last());
                lemma_mag_val_nonzero(rest);
                assert(mag_val(self.mag@) >= 0x1_0000_0000);
            }
        }
        if self.mag.len() == 0 {
            0
        } else {
            self.mag[0] as u64
        }
    }

    /// The decimal rendering of the value, as ASCII bytes: an optional
    /// leading minus sign, then the digits, most significant first.
    pub fn to_decimal_bytes(&self) -> (r: Vec<u8>)
        requires
            self.wf(),
        ensures
            r@ == (if self@ < 0 {
                seq![45u8] + dec_digits((-self@) as nat)
            } else {
                dec_digits(self@ as nat)
            }),
    {
        let ghost v0 = vstd::math::abs(self@) as nat;
        let mut x = self.abs_of();
        let mut d: Vec<u8> = Vec::new();
        if x.is_zero() {
            d.push(48);
            proof {
                assert(dec_digits(0) =~= seq![48u8]);
                assert(d@ =~= dec_digits(v0));
            }
        } else {
            let ten = Big::from_i64(10);
            let mut go = true;
            proof {
                assert(dec_digits(v0) =~= dec_digits(x@ as nat) + d@);
            }
            while go
                invariant
                    x.wf(),
                    x@ >= 0,
                    ten.wf(),
                    ten@ == 10,
                    go <==> x@ != 0,
                    go ==> dec_digits(v0) == dec_digits(x@ as nat) + d@,
                    !go ==> d@ == dec_digits(v0),
                decreases x@,
            {
                let (q, rm) = big_divrem(&x, &ten);
                proof {
                    assert(rm@ >= 0 && q@ >= 0) by (nonlinear_arith)
                        requires
                            x@ >= 1,
                            x@ == q@ * 10 + rm@,
                            -10 < rm@ < 10,
                            rm@ != 0 ==> rm@ > 0,
                    ;
                    vstd::arithmetic::div_mod::lemma_fundamental_div_mod(x@, 10);
                    assert(q@ == x@ / 10 && rm@ == x@ % 10) by (nonlinear_arith)
                        requires
                            x@ == q@ * 10 + rm@,
                            0 <= rm@ < 10,
                            x@ == 10 * (x@ / 10) + x@ % 10,
                            0 <= x@ % 10 < 10,
                    ;
                }
                let dig: u8 = (48 + rm.small_value()) as u8;
                let ghost d_pre = d@;
                d.insert(0, dig);
                proof {
                    assert(d@ =~= seq![dig] + d_pre);
                    let xv = x@ as nat;
                    if xv < 10 {
                        assert(q@ == 0);
                        assert(dec_digits(xv) =~= seq![dig]);
                        assert(dec_digits(v0) =~= d@);
                    } else {
                        assert(dec_digits(xv) =~= dec_digits(xv / 10) + seq![dig]) by {
                            assert(dec_digits(xv) == dec_digits(xv / 10).push(
                                (48 + xv % 10) as u8,
                            ));
                        }
                        assert(dec_digits(v0) =~= dec_digits(q@ as nat) + d@);
                    }
                }
                x = q;
                go = !x.is_zero();
            }
        }
        if self.is_neg() {
            let ghost d_pre = d@;
            d.insert(0, 45);
            proof {
                assert(d@ =~= seq![45u8] + d_pre);
            }
        }
        d
    }
}

/// A canonical nonempty magnitude encodes a strictly positive natural.
proof fn lemma_mag_val_nonzero(s: Seq<u32>)
    requires
        s.len() > 0,
        s.last() != 0,
    ensures
        mag_val(s) > 0,
    decreases s.len(),
{
    if s.len() == 1 {
        assert(mag_val(s) == s[0] as nat + 0x1_0000_0000 * mag_val(s.drop_first()));
    } else {
        lemma_mag_val_nonzero(s.drop_first());
    }
}

/// Relies on num_bigint addition of `BigInt`; limbs map one for one to the
/// base 2^32 digits that `BigInt::new` and `BigInt::to_u32_digits` exchange,
/// and `to_u32_digits` returns a normalized digit vector.
#[verifier::external_body]
pub(crate) fn big_add(a: &Big, b: &Big) -> (r: Big)
    ensures
        r.wf(),
        r@ == a@ + b@,
{
    let x = BigInt::new(if a.neg { Sign::Minus } else { Sign::Plus }, a.mag.clone());
    let y = BigInt::new(if b.neg { Sign::Minus } else { Sign::Plus }, b.mag.clone());
    let (s, d) = (x + y).to_u32_digits();
    Big { neg: s == Sign::Minus, mag: d }
}

/// Relies on num_bigint subtraction of `BigInt`, with the same limb encoding
/// as `big_add`.
#[verifier::external_body]
pub(crate) fn big_sub(a: &Big, b: &Big) -> (r: Big)
    ensures
        r.wf(),
        r@ == a@ - b@,
{
    let x = BigInt::new(if a.neg { Sign::Minus } else { Sign::Plus }, a.mag.clone());
    let y = BigInt::new(if b.neg { Sign::Minus } else { Sign::Plus }, b.mag.clone());
    let (s, d) = (x - y).to_u32_digits();
    Big { neg: s == Sign::Minus, mag: d }
}

/// Relies on num_bigint multiplication of `BigInt`, with the same limb
/// encoding as `big_add`.
#[verifier::external_body]
pub(crate) fn big_mul(a: &Big, b: &Big) -> (r: Big)
    ensures
        r.wf(),
        r@ == a@ * b@,
{
    let x = BigInt::new(if a.neg { Sign::Minus } else { Sign::Plus }, a.mag.clone());
    let y = BigInt::new(if b.neg { Sign::Minus } else { Sign::Plus }, b.mag.clone());
    let (s, d) = (x * y).to_u32_digits();
    Big { neg: s == Sign::Minus, mag: d }
}

/// Relies on the `Ord` order of num_bigint's `BigInt`, which is the numeric
/// order.
#[verifier::external_body]
pub(crate) fn big_cmp(a: &Big, b: &Big) -> (r: core::cmp::Ordering)
    ensures
        r == core::cmp::Ordering::Less <==> a@ < b@,
        r == core::cmp::Ordering::Equal <==> a@ == b@,
        r == core::cmp::Ordering::Greater <==> a@ > b@,
{
    let x = BigInt::new(if a.neg { Sign::Minus } else { Sign::Plus }, a.mag.clone());
    let y = BigInt::new(if b.neg { Sign::Minus } else { Sign::Plus }, b.mag.clone());
    x.cmp(&y)
}

/// Relies on num_integer's `Integer::div_rem` for `BigInt`: truncated
/// division, with the remainder of the dividend's sign and smaller in
/// magnitude than the divisor.
#[verifier::external_body]
pub(crate) fn big_divrem(a: &Big, b: &Big) -> (r: (Big, Big))
    requires
        b@ != 0,
    ensures
        r.0.wf(),
        r.1.wf(),
        a@ == r.0@ * b@ + r.1@,
        vstd::math::abs(r.1@) < vstd::math::abs(b@),
        r.1@ != 0 ==> ((r.1@ > 0) <==> (a@ > 0)),
{
    let x = BigInt::new(if a.neg { Sign::Minus } else { Sign::Plus }, a.mag.clone());
    let y = BigInt::new(if b.neg { Sign::Minus } else { Sign::Plus }, b.mag.clone());
    let (q, m) = x.div_rem(&y);
    let (qs, qd) = q.to_u32_digits();
    let (ms, md) = m.to_u32_digits();
    (Big { neg: qs == Sign::Minus, mag: qd }, Big { neg: ms == Sign::Minus, mag: md })
}

/// Relies on num_integer's `Integer::gcd` for `BigInt`: the non-negative
/// greatest common divisor of the two values.
#[verifier::external_body]
pub(crate) fn big_gcd(a: &Big, b: &Big) -> (r: Big)
    ensures
        r.wf(),
        r@ >= 0,
        (r@ == 0) <==> (a@ == 0 && b@ == 0),
        r@ != 0 ==> a@ % r@ == 0 && b@ % r@ == 0,
        forall|e: int|
            1 <= e && #[trigger] (a@ % e) == 0 && b@ % e == 0 ==> r@ % e == 0,
{
    let x = BigInt::new(if a.neg { Sign::Minus } else { Sign::Plus }, a.mag.clone());
    let y = BigInt::new(if b.neg { Sign::Minus } else { Sign::Plus }, b.mag.clone());
    let (s, d) = x.gcd(&y).to_u32_digits();
    Big { neg: s == Sign::Minus, mag: d }
}

} // verus!
