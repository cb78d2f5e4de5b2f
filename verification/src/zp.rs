use vstd::prelude::*;
use crate::service::congruent;
use crate::service::gcd_nat;

verus! {

/// Congruences combine linearly: from `x1 == y1` and `x2 == y2` modulo `m`
/// follows `x1 - q * x2 == y1 - q * y2` modulo `m`.
pub proof fn lemma_congruent_linear(x1: int, y1: int, x2: int, y2: int, q: int, m: int)
    requires
        congruent(x1, y1, m),
        congruent(x2, y2, m),
    ensures
        congruent(x1 - q * x2, y1 - q * y2, m),
{
    let k1 = choose|k: int| x1 - y1 == #[trigger] (k * m);
    let k2 = choose|k: int| x2 - y2 == #[trigger] (k * m);
    assert((x1 - q * x2) - (y1 - q * y2) == (k1 - q * k2) * m) by (nonlinear_arith)
        requires
            x1 - y1 == k1 * m,
            x2 - y2 == k2 * m,
    ;
}

/// A congruence survives multiplication by a constant.
pub proof fn lemma_congruent_scale(x: int, y: int, z: int, m: int)
    requires
        congruent(x, y, m),
    ensures
        congruent(x * z, y * z, m),
{
    let k = choose|kk: int| x - y == #[trigger] (kk * m);
    assert(x * z - y * z == (k * z) * m) by (nonlinear_arith)
        requires
            x - y == k * m,
    ;
}

/// Congruence is symmetric.
pub proof fn lemma_congruent_symm(x: int, y: int, m: int)
    requires
        congruent(x, y, m),
    ensures
        congruent(y, x, m),
{
    let k = choose|kk: int| x - y == #[trigger] (kk * m);
    assert(y - x == (-k) * m) by (nonlinear_arith)
        requires
            x - y == k * m,
    ;
}

/// Congruence is transitive.
pub proof fn lemma_congruent_trans(x: int, y: int, z: int, m: int)
    requires
        congruent(x, y, m),
        congruent(y, z, m),
    ensures
        congruent(x, z, m),
{
    let k1 = choose|kk: int| x - y == #[trigger] (kk * m);
    let k2 = choose|kk: int| y - z == #[trigger] (kk * m);
    assert(x - z == (k1 + k2) * m) by (nonlinear_arith)
        requires
            x - y == k1 * m,
            y - z == k2 * m,
    ;
}

/// The multiplicative inverse of `a` modulo `p`, by the extended Euclidean
/// algorithm with the Bezout coefficient kept reduced modulo `p`.  Returns
/// a value exactly when `a` is a unit modulo `p`.
pub fn find_inv(a: i64, p: u64) -> (r: Option<i64>)
    requires
        a >= 0,
        1 <= p <= 0x7fff_ffff,
    ensures
        r is Some <==> gcd_nat(p as nat, a as nat) == 1,
        r matches Some(x) ==> 0 <= x < p && congruent(a * x, 1, p as int),
{
    let pi: i64 = p as i64;
    let mut r0: i64 = pi;
    let mut r1: i64 = a;
    let mut t0: i64 = 0;
    let mut t1: i64 = if pi == 1 {
        0
    } else {
        1
    };
    proof {
        assert(congruent(r0 as int, t0 * a, pi as int)) by {
            assert(r0 - t0 * a == 1 * (pi as int)) by (nonlinear_arith)
                requires
                    r0 == pi,
                    t0 == 0,
            ;
        }
        assert(congruent(r1 as int, t1 * a, pi as int)) by {
            if pi == 1 {
                assert(r1 - t1 * a == a * (pi as int)) by (nonlinear_arith)
                    requires
                        r1 == a,
                        t1 == 0,
                        pi == 1,
                ;
            } else {
                assert(r1 - t1 * a == 0 * (pi as int)) by (nonlinear_arith)
                    requires
                        r1 == a,
                        t1 == 1,
                ;
            }
        }
    }
    while r1 != 0
        invariant
            1 <= p <= 0x7fff_ffff,
            pi == p,
            a >= 0,
            r0 >= 1,
            r1 >= 0,
            0 <= t0 < pi,
            0 <= t1 < pi,
            congruent(r0 as int, t0 * a, pi as int),
            congruent(r1 as int, t1 * a, pi as int),
            gcd_nat(r0 as nat, r1 as nat) == gcd_nat(p as nat, a as nat),
        decreases r1,
    {
        let q: i64 = r0 / r1;
        let r2: i64 = r0 % r1;
        proof {
            assert(q >= 0 && r0 == q * r1 + r2 && 0 <= r2 < r1) by (nonlinear_arith)
                requires
                    r0 >= 1,
                    1 <= r1,
                    q == r0 / r1,
                    r2 == r0 % r1,
            ;
            assert(r2 as nat == r0 as nat % r1 as nat);
        }
        let qm: i64 = q % pi;
        proof {
            assert(0 <= qm < pi && congruent(qm as int, q as int, pi as int)) by {
                assert(0 <= qm < pi && qm == q - (q / pi) * pi) by (nonlinear_arith)
                    requires
                        pi >= 1,
                        q >= 0,
                        qm == q % pi,
                ;
                assert(qm - q == (-(q / pi)) * (pi as int)) by (nonlinear_arith)
                    requires
                        qm == q - (q / pi) * pi,
                ;
            }
            assert(0 <= qm * t1 < 0x4000_0000_0000_0000) by (nonlinear_arith)
                requires
                    0 <= qm < 0x8000_0000,
                    0 <= t1 < 0x8000_0000,
            ;
        }
        let prod: i64 = qm * t1;
        let pm: i64 = prod % pi;
        let diff: i64 = t0 - pm;
        let t2: i64 = if diff < 0 {
            diff + pi
        } else {
            diff
        };
        proof {
            assert(0 <= pm < pi && congruent(pm as int, prod as int, pi as int)) by {
                assert(0 <= pm < pi && pm == prod - (prod / pi) * pi) by (nonlinear_arith)
                    requires
                        pi >= 1,
                        prod >= 0,
                        pm == prod % pi,
                ;
                assert(pm - prod == (-(prod / pi)) * (pi as int)) by (nonlinear_arith)
                    requires
                        pm == prod - (prod / pi) * pi,
                ;
            }
            assert(0 <= t2 < pi);
            assert(congruent(t2 as int, t0 - pm, pi as int)) by {
                if diff < 0 {
                    assert(t2 - (t0 - pm) == 1 * (pi as int)) by (nonlinear_arith)
                        requires
                            t2 == t0 - pm + pi,
                    ;
                } else {
                    assert(t2 - (t0 - pm) == 0 * (pi as int)) by (nonlinear_arith)
                        requires
                            t2 == t0 - pm,
                    ;
                }
            }
            // t2 == t0 - q * t1 modulo p, step by step
            lemma_congruent_scale(qm as int, q as int, t1 as int, pi as int);
            lemma_congruent_trans(pm as int, prod as int, (q as int) * t1, pi as int);
            assert(congruent(t0 as int, t0 as int, pi as int)) by {
                assert(t0 - t0 == 0 * (pi as int)) by (nonlinear_arith);
            }
            lemma_congruent_linear(
                t0 as int,
                t0 as int,
                pm as int,
                (q as int) * t1,
                1,
                pi as int,
            );
            assert(t0 - 1 * (pm as int) == t0 - pm);
            assert(t0 - 1 * ((q as int) * t1) == t0 - q * t1);
            lemma_congruent_trans(t2 as int, t0 - pm, t0 - q * t1, pi as int);
            // the remainder keeps the Bezout congruence
            lemma_congruent_linear(r0 as int, t0 * a, r1 as int, t1 * a, q as int, pi as int);
            assert(t0 * a - q * (t1 * a) == (t0 - q * t1) * a) by (nonlinear_arith);
            lemma_congruent_scale(t2 as int, t0 - q * t1, a as int, pi as int);
            lemma_congruent_symm(t2 * a, (t0 - q * t1) * a, pi as int);
            lemma_congruent_trans(r2 as int, (t0 - q * t1) * a, t2 * a, pi as int);
        }
        r0 = r1;
        r1 = r2;
        t0 = t1;
        t1 = t2;
    }
    assert(gcd_nat(r0 as nat, 0) == r0 as nat);
    if r0 == 1 {
        proof {
            assert(congruent(1, t0 * a, pi as int));
            lemma_congruent_symm(1, t0 * a, pi as int);
            assert(t0 * a == a * t0) by (nonlinear_arith);
        }
        Some(t0)
    } else {
        None
    }
}

/// An element of the ring of integers modulo `m`: a canonical value in
/// `[0, m)` together with its modulus.
#[derive(Clone, Copy, Debug, PartialEq, Eq)]
pub struct Zp {
    /// The canonical representative.
    pub value: i64,
    /// The modulus.
    pub modulus: u64,
}

impl Zp {
    /// Canonical element: the representative lies in `[0, m)` and the
    /// modulus is positive and small enough that products cannot overflow.
    pub open spec fn wf(&self) -> bool {
        &&& 1 <= self.modulus <= 0x7fff_ffff
        &&& 0 <= self.value < self.modulus
    }

    /// The residue class of `value` modulo `m`.
    pub fn new(value: i64, m: u64) -> (r: Zp)
        requires
            1 <= m <= 0x7fff_ffff,
        ensures
            r.wf(),
            r.modulus == m,
            congruent(r.value as int, value as int, m as int),
    {
        let mi: i64 = m as i64;
        let v: i64;
        if value >= 0 {
            v = value % mi;
            proof {
                assert(0 <= v < mi && v == value - (value / mi) * mi) by (nonlinear_arith)
                    requires
                        mi >= 1,
                        value >= 0,
                        v == value % mi,
                ;
                assert(v - value == (-(value / mi)) * (mi as int)) by (nonlinear_arith)
                    requires
                        v == value - (value / mi) * mi,
                ;
            }
        } else {
            let w: i64 = -(value + 1);
            let wm: i64 = w % mi;
            v = mi - 1 - wm;
            proof {
                assert(0 <= wm < mi && wm == w - (w / mi) * mi) by (nonlinear_arith)
                    requires
                        mi >= 1,
                        w >= 0,
                        wm == w % mi,
                ;
                assert(0 <= v < mi);
                assert(v - value == (1 + w / mi) * (mi as int)) by (nonlinear_arith)
                    requires
                        v == mi - 1 - wm,
                        wm == w - (w / mi) * mi,
                        w == -(value + 1),
                ;
            }
        }
        Zp { value: v, modulus: m }
    }

    /// The canonical representative.
    pub fn get(&self) -> (r: i64)
        ensures
            r == self.value,
    {
        self.value
    }

    /// Sum in the ring.
    pub fn add(&self, rhs: &Zp) -> (r: Zp)
        requires
            self.wf(),
            rhs.wf(),
            self.modulus == rhs.modulus,
        ensures
            r.wf(),
            r.modulus == self.modulus,
            congruent(r.value as int, self.value + rhs.value, self.modulus as int),
    {
        let r = Zp::new(self.value + rhs.value, self.modulus);
        r
    }

    /// Difference in the ring.
    pub fn sub(&self, rhs: &Zp) -> (r: Zp)
        requires
            self.wf(),
            rhs.wf(),
            self.modulus == rhs.modulus,
        ensures
            r.wf(),
            r.modulus == self.modulus,
            congruent(r.value as int, self.value - rhs.value, self.modulus as int),
    {
        let r = Zp::new(self.value - rhs.value, self.modulus);
        r
    }

    /// Product in the ring.
    pub fn mul(&self, rhs: &Zp) -> (r: Zp)
        requires
            self.wf(),
            rhs.wf(),
            self.modulus == rhs.modulus,
        ensures
            r.wf(),
            r.modulus == self.modulus,
            congruent(r.value as int, self.value * rhs.value, self.modulus as int),
    {
        proof {
            assert(0 <= self.value * rhs.value < 0x4000_0000_0000_0000) by (nonlinear_arith)
                requires
                    0 <= self.value < 0x8000_0000,
                    0 <= rhs.value < 0x8000_0000,
            ;
        }
        let r = Zp::new(self.value * rhs.value, self.modulus);
        r
    }

    /// Quotient in the ring; the divisor must be a unit.
    pub fn div(&self, rhs: &Zp) -> (r: Zp)
        requires
            self.wf(),
            rhs.wf(),
            self.modulus == rhs.modulus,
            gcd_nat(self.modulus as nat, rhs.value as nat) == 1,
        ensures
            r.wf(),
            r.modulus == self.modulus,
            congruent(r.value * rhs.value, self.value as int, self.modulus as int),
    {
        let inv_opt = find_inv(rhs.value, self.modulus);
        match inv_opt {
            Some(inv) => {
                proof {
                    assert(0 <= self.value * inv < 0x4000_0000_0000_0000) by (nonlinear_arith)
                        requires
                            0 <= self.value < 0x8000_0000,
                            0 <= inv < 0x8000_0000,
                    ;
                }
                let r = Zp::new(self.value * inv, self.modulus);
                proof {
                    let m = self.modulus as int;
                    lemma_congruent_scale(r.value as int, self.value * inv, rhs.value as int, m);
                    lemma_congruent_scale(
                        (rhs.value as int) * inv,
                        1,
                        self.value as int,
                        m,
                    );
                    assert(self.value * inv * rhs.value == (rhs.value as int) * inv
                        * (self.value as int)) by (nonlinear_arith);
                    assert(1 * (self.value as int) == self.value as int);
                    lemma_congruent_trans(
                        r.value * rhs.value,
                        self.value * inv * rhs.value,
                        self.value as int,
                        m,
                    );
                }
                r
            },
            None => {
                proof {
                    assert(false);
                }
                Zp { value: 0, modulus: 1 }
            },
        }
    }
}

} // verus!
