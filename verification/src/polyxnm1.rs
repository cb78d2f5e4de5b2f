use vstd::prelude::*;
use crate::service::congruent;
use crate::service::gcd_nat;
use crate::zp::Zp;
use crate::zp::lemma_congruent_trans;

verus! {

/// The parameters of the quotient ring `Z[x] / (x^n - 1)` with its two
/// moduli: the ring dimension `n`, the small modulus `p` and the large
/// modulus `q`, which must be coprime.
#[derive(Clone, Copy, Debug)]
pub struct RingParams {
    /// Ring dimension: polynomials have `n` coefficients.
    pub n: usize,
    /// The small (plaintext) modulus.
    pub p: u64,
    /// The large (ciphertext) modulus.
    pub q: u64,
}

impl RingParams {
    /// Legal ring parameters.
    pub open spec fn wf(&self) -> bool {
        &&& 1 <= self.n <= 0xffff
        &&& 2 <= self.p <= 0x7fff
        &&& 2 <= self.q <= 0x7fff
        &&& gcd_nat(self.p as nat, self.q as nat) == 1
    }
}

/// Fix the ring parameters once; every ring operation takes them
/// explicitly, so the library holds no global state.
pub fn init_polynomial_ring(n: usize, p: u64, q: u64) -> (r: RingParams)
    requires
        1 <= n <= 0xffff,
        2 <= p <= 0x7fff,
        2 <= q <= 0x7fff,
        gcd_nat(p as nat, q as nat) == 1,
    ensures
        r.wf(),
        r.n == n,
        r.p == p,
        r.q == q,
{
    RingParams { n, p, q }
}

/// The index of `b`'s coefficient paired with `a[i]` in the cyclic
/// convolution entry `t`: `t - i` modulo `n`.
pub open spec fn cyc_idx(t: int, i: int, n: int) -> int {
    if t - i >= 0 {
        t - i
    } else {
        t - i + n
    }
}

/// The first `cnt` terms of the cyclic convolution of `a` and `b` at
/// output index `t`.
pub open spec fn conv_partial(a: Seq<i64>, b: Seq<i64>, n: int, t: int, cnt: nat) -> int
    decreases cnt,
{
    if cnt == 0 {
        0
    } else {
        conv_partial(a, b, n, t, (cnt - 1) as nat) + a[cnt - 1] * b[cyc_idx(t, cnt - 1, n)]
    }
}

/// Entry `t` of the cyclic convolution of `a` and `b` over `n`
/// coefficients: the coefficient of `x^t` in `a * b` modulo `x^n - 1`.
pub open spec fn conv_at(a: Seq<i64>, b: Seq<i64>, n: int, t: int) -> int {
    conv_partial(a, b, n, t, n as nat)
}

/// Coefficients all lie in `[0, m)`.
pub open spec fn coeffs_canon(v: Seq<i64>, m: int) -> bool {
    forall|i: int| 0 <= i < v.len() ==> 0 <= #[trigger] v[i] < m
}

/// The canonical reduction of a coefficient sequence modulo `m`.
pub open spec fn reduce_seq(v: Seq<i64>, m: int) -> Seq<i64> {
    Seq::new(v.len(), |i: int| ((v[i] as int) % m) as i64)
}

/// The constant polynomial one, over `n` coefficients.
pub open spec fn one_seq(v: Seq<i64>, n: int) -> bool {
    v.len() == n && v[0] == 1 && (forall|i: int| 1 <= i < n ==> #[trigger] v[i] == 0)
}

/// Reduce every coefficient modulo `m` into canonical range.
pub fn reduce_coeffs(v: &Vec<i64>, m: u64) -> (r: Vec<i64>)
    requires
        2 <= m <= 0x7fff_ffff,
    ensures
        r@.len() == v@.len(),
        coeffs_canon(r@, m as int),
        r@ == reduce_seq(v@, m as int),
{
    let mut r: Vec<i64> = Vec::new();
    let mut i: usize = 0;
    while i < v.len()
        invariant
            i <= v@.len(),
            2 <= m <= 0x7fff_ffff,
            r@.len() == i,
            forall|t: int| 0 <= t < i ==> 0 <= #[trigger] r@[t] < m,
            forall|t: int| 0 <= t < i ==> r@[t] == reduce_seq(v@, m as int)[t],
        decreases v@.len() - i,
    {
        let z = Zp::new(v[i], m);
        proof {
            crate::cryptoanalysis::lemma_congruent_canon(z.value as int, v@[i as int] as int, m as int);
        }
        r.push(z.get());
        i = i + 1;
    }
    proof {
        assert(r@ =~= reduce_seq(v@, m as int));
    }
    r
}

/// The centered representative of every coefficient modulo `m`.
pub fn center_coeffs(v: &Vec<i64>, m: u64) -> (r: Vec<i64>)
    requires
        2 <= m <= 0x3fff_ffff,
    ensures
        r@.len() == v@.len(),
        forall|t: int|
            0 <= t < v@.len() ==> congruent(#[trigger] r@[t] as int, v@[t] as int, m as int) && 2
                * r@[t] <= m && -(m as int) <= 2 * r@[t],
{
    let mut r: Vec<i64> = Vec::new();
    let mut i: usize = 0;
    while i < v.len()
        invariant
            i <= v@.len(),
            2 <= m <= 0x3fff_ffff,
            r@.len() == i,
            forall|t: int|
                0 <= t < i ==> congruent(#[trigger] r@[t] as int, v@[t] as int, m as int) && 2
                    * r@[t] <= m && -(m as int) <= 2 * r@[t],
        decreases v@.len() - i,
    {
        r.push(crate::service::mod_center(v[i], m));
        i = i + 1;
    }
    r
}

/// Cyclic convolution of two coefficient sequences modulo `m`: the product
/// in `Z_m[x] / (x^n - 1)`.
pub fn poly_mul_cyclic(a: &Vec<i64>, b: &Vec<i64>, n: usize, m: u64) -> (r: Vec<i64>)
    requires
        1 <= n <= 0xffff,
        a@.len() == n,
        b@.len() == n,
        2 <= m <= 0x7fff_ffff,
        coeffs_canon(a@, m as int),
        coeffs_canon(b@, m as int),
    ensures
        r@.len() == n,
        coeffs_canon(r@, m as int),
        forall|t: int|
            0 <= t < n ==> congruent(
                #[trigger] r@[t] as int,
                conv_at(a@, b@, n as int, t),
                m as int,
            ),
{
    let mi: i64 = m as i64;
    let mut r: Vec<i64> = Vec::new();
    let mut t: usize = 0;
    while t < n
        invariant
            t <= n,
            1 <= n <= 0xffff,
            a@.len() == n,
            b@.len() == n,
            2 <= m <= 0x7fff_ffff,
            mi == m,
            coeffs_canon(a@, m as int),
            coeffs_canon(b@, m as int),
            r@.len() == t,
            forall|x: int| 0 <= x < t ==> 0 <= #[trigger] r@[x] < m,
            forall|x: int|
                0 <= x < t ==> congruent(
                    #[trigger] r@[x] as int,
                    conv_at(a@, b@, n as int, x),
                    m as int,
                ),
        decreases n - t,
    {
        let mut acc: i64 = 0;
        let mut i: usize = 0;
        proof {
            assert(congruent(acc as int, conv_partial(a@, b@, n as int, t as int, 0), m as int))
                by {
                assert(acc - conv_partial(a@, b@, n as int, t as int, 0) == 0 * (m as int))
                    by (nonlinear_arith)
                    requires
                        acc == 0,
                        conv_partial(a@, b@, n as int, t as int, 0) == 0,
                ;
            }
        }
        while i < n
            invariant
                i <= n,
                t < n,
                1 <= n <= 0xffff,
                a@.len() == n,
                b@.len() == n,
                2 <= m <= 0x7fff_ffff,
                mi == m,
                coeffs_canon(a@, m as int),
                coeffs_canon(b@, m as int),
                0 <= acc < m,
                congruent(acc as int, conv_partial(a@, b@, n as int, t as int, i as nat), m as int),
            decreases n - i,
        {
            let idx = if t >= i {
                t - i
            } else {
                t + n - i
            };
            assert(idx as int == cyc_idx(t as int, i as int, n as int));
            proof {
                assert(0 <= a@[i as int] * b@[idx as int] < 0x4000_0000_0000_0000)
                    by (nonlinear_arith)
                    requires
                        0 <= a@[i as int] < m,
                        0 <= b@[idx as int] < m,
                        m <= 0x7fff_ffff,
                ;
            }
            let prod: i64 = a[i] * b[idx];
            let sum: i64 = acc + prod;
            let newacc: i64 = sum % mi;
            proof {
                assert(0 <= newacc < mi && newacc == sum - (sum / mi) * mi) by (nonlinear_arith)
                    requires
                        mi >= 1,
                        sum >= 0,
                        newacc == sum % mi,
                ;
                assert(newacc - sum == (-(sum / mi)) * (mi as int)) by (nonlinear_arith)
                    requires
                        newacc == sum - (sum / mi) * mi,
                ;
                assert(congruent(newacc as int, sum as int, m as int));
                assert(congruent(sum as int, conv_partial(a@, b@, n as int, t as int, (i + 1) as nat), m as int)) by {
                    let c0 = conv_partial(a@, b@, n as int, t as int, i as nat);
                    let c1 = conv_partial(a@, b@, n as int, t as int, (i + 1) as nat);
                    assert(c1 == c0 + a@[i as int] * b@[cyc_idx(t as int, i as int, n as int)]);
                    let k = choose|kk: int| acc - c0 == #[trigger] (kk * (m as int));
                    assert(sum - c1 == k * (m as int)) by (nonlinear_arith)
                        requires
                            acc - c0 == k * (m as int),
                            sum == acc + prod,
                            c1 == c0 + prod,
                    ;
                }
                lemma_congruent_trans(
                    newacc as int,
                    sum as int,
                    conv_partial(a@, b@, n as int, t as int, (i + 1) as nat),
                    m as int,
                );
            }
            acc = newacc;
            i = i + 1;
        }
        r.push(acc);
        t = t + 1;
    }
    r
}

/// Pointwise sum of two coefficient sequences modulo `m`.
pub fn poly_add_mod(a: &Vec<i64>, b: &Vec<i64>, m: u64) -> (r: Vec<i64>)
    requires
        a@.len() == b@.len(),
        2 <= m <= 0x7fff_ffff,
        coeffs_canon(a@, m as int),
        coeffs_canon(b@, m as int),
    ensures
        r@.len() == a@.len(),
        coeffs_canon(r@, m as int),
        forall|t: int|
            0 <= t < a@.len() ==> congruent(#[trigger] r@[t] as int, a@[t] + b@[t], m as int),
{
    let mut r: Vec<i64> = Vec::new();
    let mut i: usize = 0;
    while i < a.len()
        invariant
            i <= a@.len(),
            a@.len() == b@.len(),
            2 <= m <= 0x7fff_ffff,
            coeffs_canon(a@, m as int),
            coeffs_canon(b@, m as int),
            r@.len() == i,
            forall|t: int| 0 <= t < i ==> 0 <= #[trigger] r@[t] < m,
            forall|t: int|
                0 <= t < i ==> congruent(#[trigger] r@[t] as int, a@[t] + b@[t], m as int),
        decreases a@.len() - i,
    {
        let z = Zp::new(a[i] + b[i], m);
        r.push(z.get());
        i = i + 1;
    }
    r
}

/// Every coefficient scaled by a constant, modulo `m`.
pub fn poly_scale_mod(a: &Vec<i64>, c: i64, m: u64) -> (r: Vec<i64>)
    requires
        2 <= m <= 0x7fff_ffff,
        0 <= c <= 0x7fff_ffff,
        coeffs_canon(a@, m as int),
    ensures
        r@.len() == a@.len(),
        coeffs_canon(r@, m as int),
        forall|t: int|
            0 <= t < a@.len() ==> congruent(#[trigger] r@[t] as int, c * a@[t], m as int),
{
    let mut r: Vec<i64> = Vec::new();
    let mut i: usize = 0;
    while i < a.len()
        invariant
            i <= a@.len(),
            2 <= m <= 0x7fff_ffff,
            0 <= c <= 0x7fff_ffff,
            coeffs_canon(a@, m as int),
            r@.len() == i,
            forall|t: int| 0 <= t < i ==> 0 <= #[trigger] r@[t] < m,
            forall|t: int|
                0 <= t < i ==> congruent(#[trigger] r@[t] as int, c * a@[t], m as int),
        decreases a@.len() - i,
    {
        proof {
            assert(0 <= c * a@[i as int] < 0x4000_0000_0000_0000) by (nonlinear_arith)
                requires
                    0 <= c <= 0x7fff_ffff,
                    0 <= a@[i as int] < 0x8000_0000,
            ;
        }
        let z = Zp::new(c * a[i], m);
        r.push(z.get());
        i = i + 1;
    }
    r
}

/// Whether the sequence is the constant polynomial one.
pub fn poly_is_one(v: &Vec<i64>, n: usize) -> (r: bool)
    requires
        v@.len() == n,
        n >= 1,
    ensures
        r <==> one_seq(v@, n as int),
{
    if v[0] != 1 {
        return false;
    }
    let mut i: usize = 1;
    while i < n
        invariant
            1 <= i <= n,
            v@.len() == n,
            v@[0] == 1,
            forall|t: int| 1 <= t < i ==> #[trigger] v@[t] == 0,
        decreases n - i,
    {
        if v[i] != 0 {
            return false;
        }
        i = i + 1;
    }
    true
}

} // verus!
