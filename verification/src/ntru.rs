use vstd::prelude::*;
use crate::service::congruent;
use crate::zp::Zp;
use crate::zp::find_inv;
use crate::zp::lemma_congruent_symm;
use crate::polyxnm1::RingParams;
use crate::polyxnm1::conv_at;
use crate::polyxnm1::coeffs_canon;
use crate::polyxnm1::reduce_seq;
use crate::polyxnm1::reduce_coeffs;
use crate::polyxnm1::center_coeffs;
use crate::polyxnm1::poly_mul_cyclic;
use crate::polyxnm1::poly_add_mod;
use crate::polyxnm1::poly_scale_mod;
use crate::polyxnm1::poly_is_one;

verus! {

/// Relies on rand::random for `bool`: one fresh draw of a random bit;
/// nothing can be promised of its value.
#[verifier::external_body]
fn coin() -> (r: bool) {
    rand::random::<bool>()
}

/// Relies on rand::random_range over `0 .. k`: the draw lies below `k`.
/// The range must be nonempty, or the callee panics.
#[verifier::external_body]
fn rand_below(k: u64) -> (r: u64)
    requires
        k >= 1,
    ensures
        r < k,
{
    rand::random_range(0..k)
}

/// How many entries of the sequence equal `v`.
pub open spec fn count_val(s: Seq<i64>, v: i64) -> int
    decreases s.len(),
{
    if s.len() == 0 {
        0
    } else {
        count_val(s.drop_last(), v) + if s.last() == v {
            1int
        } else {
            0int
        }
    }
}

/// Updating one entry moves the count of a value by the obvious amount.
proof fn lemma_count_update(s: Seq<i64>, i: int, x: i64, v: i64)
    requires
        0 <= i < s.len(),
    ensures
        count_val(s.update(i, x), v) == count_val(s, v) + (if x == v {
            1int
        } else {
            0int
        }) - (if s[i] == v {
            1int
        } else {
            0int
        }),
    decreases s.len(),
{
    let su = s.update(i, x);
    if i == s.len() - 1 {
        assert(su.drop_last() =~= s.drop_last());
        assert(su.last() == x);
    } else {
        assert(su.drop_last() =~= s.drop_last().update(i, x));
        lemma_count_update(s.drop_last(), i, x, v);
        assert(su.last() == s.last());
    }
}

/// All entries lie in `{-1, 0, 1}`.
pub open spec fn ternary(s: Seq<i64>) -> bool {
    forall|i: int| 0 <= i < s.len() ==> -1 <= #[trigger] s[i] <= 1
}

/// Draw a random ternary polynomial with exactly `d_pos` coefficients one
/// and `d_neg` coefficients minus one, the rest zero.  The draw retries
/// random positions; a failure is only possible if the internal step
/// budget, which no feasible run reaches, is exhausted.
pub fn gen_polynomial(d_pos: u8, d_neg: u8, n: usize) -> (r: Option<Vec<i64>>)
    requires
        1 <= n <= 0xffff,
        d_pos + d_neg <= n,
    ensures
        r matches Some(v) ==> v@.len() == n && ternary(v@) && count_val(v@, 1i64) == d_pos
            && count_val(v@, -1i64) == d_neg,
{
    let mut v: Vec<i64> = Vec::new();
    let mut t: usize = 0;
    while t < n
        invariant
            t <= n,
            v@.len() == t,
            forall|x: int| 0 <= x < t ==> #[trigger] v@[x] == 0,
        decreases n - t,
    {
        v.push(0);
        t = t + 1;
    }
    proof {
        lemma_count_zero_seq(v@, 1i64);
        lemma_count_zero_seq(v@, -1i64);
    }
    let mut placed_pos: u64 = 0;
    let mut fuel: u64 = 0xFFFF_FFFF;
    let mut i: usize = 0;
    while placed_pos < d_pos as u64 && fuel > 0
        invariant
            1 <= n <= 0xffff,
            d_pos + d_neg <= n,
            i < n,
            v@.len() == n,
            ternary(v@),
            placed_pos <= d_pos as u64,
            count_val(v@, 1i64) == placed_pos,
            count_val(v@, -1i64) == 0,
            forall|x: int| 0 <= x < n ==> #[trigger] v@[x] == 0 || v@[x] == 1,
        decreases fuel,
    {
        fuel = fuel - 1;
        if v[i] == 0 && coin() {
            proof {
                lemma_count_update(v@, i as int, 1i64, 1i64);
                lemma_count_update(v@, i as int, 1i64, -1i64);
            }
            v.set(i, 1);
            placed_pos = placed_pos + 1;
        }
        i = i + 1;
        if i == n {
            i = 0;
        }
    }
    if placed_pos < d_pos as u64 {
        return None;
    }
    let mut placed_neg: u64 = 0;
    i = 0;
    fuel = 0xFFFF_FFFF;
    while placed_neg < d_neg as u64 && fuel > 0
        invariant
            1 <= n <= 0xffff,
            d_pos + d_neg <= n,
            i < n,
            v@.len() == n,
            ternary(v@),
            placed_neg <= d_neg as u64,
            count_val(v@, 1i64) == d_pos,
            count_val(v@, -1i64) == placed_neg,
        decreases fuel,
    {
        fuel = fuel - 1;
        if v[i] == 0 && coin() {
            proof {
                lemma_count_update(v@, i as int, -1i64, 1i64);
                lemma_count_update(v@, i as int, -1i64, -1i64);
            }
            v.set(i, -1);
            placed_neg = placed_neg + 1;
        }
        i = i + 1;
        if i == n {
            i = 0;
        }
    }
    if placed_neg < d_neg as u64 {
        return None;
    }
    Some(v)
}

/// A sequence of zeros holds no copy of a nonzero value.
proof fn lemma_count_zero_seq(s: Seq<i64>, v: i64)
    requires
        forall|x: int| 0 <= x < s.len() ==> #[trigger] s[x] == 0,
        v != 0,
    ensures
        count_val(s, v) == 0,
    decreases s.len(),
{
    if s.len() > 0 {
        lemma_count_zero_seq(s.drop_last(), v);
    }
}

/// The degree of a coefficient vector: the highest index with a nonzero
/// entry, if any.
fn poly_deg(v: &Vec<i64>) -> (r: Option<usize>)
    ensures
        r matches Some(d) ==> d < v@.len() && v@[d as int] != 0 && (forall|t: int|
            d < t < v@.len() ==> #[trigger] v@[t] == 0),
        r is None ==> forall|t: int| 0 <= t < v@.len() ==> #[trigger] v@[t] == 0,
{
    let mut d: usize = v.len();
    while d > 0
        invariant
            d <= v@.len(),
            forall|t: int| d <= t < v@.len() ==> #[trigger] v@[t] == 0,
        decreases d,
    {
        d = d - 1;
        if v[d] != 0 {
            return Some(d);
        }
    }
    None
}

/// Plain polynomial product of two coefficient vectors modulo `m`, without
/// the cyclic reduction; used only inside the inverse search, whose result
/// is checked by a verified multiplication.
fn poly_mul_plain(a: &Vec<i64>, b: &Vec<i64>, m: u64) -> (r: Vec<i64>)
    requires
        2 <= m <= 0x7fff_ffff,
        1 <= a@.len(),
        1 <= b@.len(),
        a@.len() + b@.len() <= 0x10_0000,
        coeffs_canon(a@, m as int),
        coeffs_canon(b@, m as int),
    ensures
        r@.len() == a@.len() + b@.len() - 1,
        coeffs_canon(r@, m as int),
{
    let out_len = a.len() + b.len() - 1;
    let mut r: Vec<i64> = Vec::new();
    let mut t: usize = 0;
    while t < out_len
        invariant
            t <= out_len,
            out_len == a@.len() + b@.len() - 1,
            a@.len() + b@.len() <= 0x10_0000,
            1 <= a@.len(),
            1 <= b@.len(),
            2 <= m <= 0x7fff_ffff,
            coeffs_canon(a@, m as int),
            coeffs_canon(b@, m as int),
            r@.len() == t,
            forall|x: int| 0 <= x < t ==> 0 <= #[trigger] r@[x] < m,
        decreases out_len - t,
    {
        let mi: i64 = m as i64;
        let mut acc: i64 = 0;
        let mut x: usize = 0;
        while x < a.len()
            invariant
                x <= a@.len(),
                t < out_len,
                out_len == a@.len() + b@.len() - 1,
                2 <= m <= 0x7fff_ffff,
                mi == m,
                coeffs_canon(a@, m as int),
                coeffs_canon(b@, m as int),
                0 <= acc < m,
            decreases a@.len() - x,
        {
            if t >= x && t - x < b.len() {
                proof {
                    assert(0 <= a@[x as int] * b@[t - x] < 0x4000_0000_0000_0000)
                        by (nonlinear_arith)
                        requires
                            0 <= a@[x as int] < m,
                            0 <= b@[t - x] < m,
                            m <= 0x7fff_ffff,
                    ;
                }
                let sum: i64 = acc + a[x] * b[t - x];
                let na: i64 = sum % mi;
                proof {
                    assert(0 <= na < mi) by (nonlinear_arith)
                        requires
                            mi >= 1,
                            sum >= 0,
                            na == sum % mi,
                    ;
                }
                acc = na;
            }
            x = x + 1;
        }
        r.push(acc);
        t = t + 1;
    }
    r
}

/// Pointwise difference of two coefficient vectors modulo `m`, the first
/// padded as needed; used only inside the inverse search.
fn poly_sub_pad(a: &Vec<i64>, b: &Vec<i64>, m: u64) -> (r: Vec<i64>)
    requires
        2 <= m <= 0x7fff_ffff,
        coeffs_canon(a@, m as int),
        coeffs_canon(b@, m as int),
    ensures
        r@.len() == vstd::math::max(a@.len() as int, b@.len() as int),
        coeffs_canon(r@, m as int),
{
    let len = if a.len() >= b.len() {
        a.len()
    } else {
        b.len()
    };
    let mut r: Vec<i64> = Vec::new();
    let mut i: usize = 0;
    while i < len
        invariant
            i <= len,
            len == vstd::math::max(a@.len() as int, b@.len() as int),
            2 <= m <= 0x7fff_ffff,
            coeffs_canon(a@, m as int),
            coeffs_canon(b@, m as int),
            r@.len() == i,
            forall|x: int| 0 <= x < i ==> 0 <= #[trigger] r@[x] < m,
        decreases len - i,
    {
        let av: i64 = if i < a.len() {
            a[i]
        } else {
            0
        };
        let bv: i64 = if i < b.len() {
            b[i]
        } else {
            0
        };
        let z = Zp::new(av - bv, m);
        r.push(z.get());
        i = i + 1;
    }
    r
}

/// Drop trailing zero coefficients, keeping at least one entry.  The true
/// degrees of the Euclid chain stay below the ring dimension, so trimming
/// keeps every intermediate vector small and the width guards below out of
/// practical reach.
fn poly_trim(v: &mut Vec<i64>)
    requires
        old(v)@.len() >= 1,
    ensures
        1 <= final(v)@.len() <= old(v)@.len(),
        forall|t: int| 0 <= t < final(v)@.len() ==> final(v)@[t] == old(v)@[t],
{
    let mut nl: usize = v.len();
    while nl > 1
        invariant
            1 <= nl <= v@.len(),
            v@ == old(v)@,
        decreases nl,
    {
        if v[nl - 1] != 0 {
            break ;
        }
        nl = nl - 1;
    }
    v.truncate(nl);
    proof {
        assert(v@ == old(v)@.subrange(0, nl as int));
    }
}

/// One division with remainder in `Z_m[x]`, where the divisor's leading
/// coefficient must be a unit; returns quotient and remainder.  Used only
/// inside the inverse search.
fn poly_divmod(a: &Vec<i64>, b: &Vec<i64>, m: u64) -> (r: Option<(Vec<i64>, Vec<i64>)>)
    requires
        2 <= m <= 0x7fff_ffff,
        1 <= a@.len() <= 0x2_0000,
        1 <= b@.len() <= 0x2_0000,
        coeffs_canon(a@, m as int),
        coeffs_canon(b@, m as int),
    ensures
        r matches Some(qr) ==> qr.0@.len() == a@.len() && qr.1@.len() == a@.len()
            && coeffs_canon(qr.0@, m as int) && coeffs_canon(qr.1@, m as int),
{
    let db_opt = poly_deg(b);
    if matches!(db_opt, Option::None) {
        return None;
    }
    let db: usize = match db_opt {
        Some(d) => d,
        None => 0,
    };
    let binv_opt = find_inv(b[db], m);
    if matches!(binv_opt, Option::None) {
        return None;
    }
    let binv: i64 = match binv_opt {
        Some(x) => x,
        None => 0,
    };
    let alen = a.len();
    let mut quot: Vec<i64> = Vec::new();
    let mut i0: usize = 0;
    while i0 < alen
        invariant
            i0 <= alen,
            quot@.len() == i0,
            forall|x: int| 0 <= x < i0 ==> #[trigger] quot@[x] == 0,
        decreases alen - i0,
    {
        quot.push(0);
        i0 = i0 + 1;
    }
    let mut rem: Vec<i64> = Vec::new();
    let mut i1: usize = 0;
    while i1 < alen
        invariant
            i1 <= alen,
            alen == a@.len(),
            coeffs_canon(a@, m as int),
            rem@.len() == i1,
            forall|x: int| 0 <= x < i1 ==> 0 <= #[trigger] rem@[x] < m,
        decreases alen - i1,
    {
        rem.push(a[i1]);
        i1 = i1 + 1;
    }
    let mut fuel: usize = alen + 1;
    let ghost mint = m as int;
    while fuel > 0
        invariant
            2 <= m <= 0x7fff_ffff,
            db < b@.len(),
            b@.len() <= 0x2_0000,
            alen == a@.len(),
            alen <= 0x2_0000,
            0 <= binv < m,
            coeffs_canon(b@, mint),
            mint == m,
            quot@.len() == alen,
            rem@.len() == alen,
            coeffs_canon(quot@, mint),
            coeffs_canon(rem@, mint),
        decreases fuel,
    {
        fuel = fuel - 1;
        let dr_opt = poly_deg(&rem);
        if matches!(dr_opt, Option::None) {
            return Some((quot, rem));
        }
        let dr: usize = match dr_opt {
            Some(d) => d,
            None => 0,
        };
        if dr < db {
            return Some((quot, rem));
        }
        assert(dr < alen && dr >= db);
        proof {
            assert(0 <= rem@[dr as int] * binv < 0x4000_0000_0000_0000) by (nonlinear_arith)
                requires
                    0 <= rem@[dr as int] < m,
                    0 <= binv < m,
                    m <= 0x7fff_ffff,
            ;
        }
        let c = Zp::new(rem[dr] * binv, m);
        let cv = c.get();
        let shift = dr - db;
        assert(shift + db < alen);
        let qo = quot[shift];
        let qn = Zp::new(qo + cv, m);
        quot.set(shift, qn.get());
        let mut x: usize = 0;
        while x <= db
            invariant
                x <= db + 1,
                db < b@.len(),
                dr < alen,
                db <= dr,
                shift == dr - db,
                alen == rem@.len(),
                2 <= m <= 0x7fff_ffff,
                mint == m,
                0 <= cv < m,
                coeffs_canon(b@, mint),
                coeffs_canon(rem@, mint),
            decreases db + 1 - x,
        {
            proof {
                assert(0 <= cv * b@[x as int] < 0x4000_0000_0000_0000) by (nonlinear_arith)
                    requires
                        0 <= cv < m,
                        0 <= b@[x as int] < m,
                        m <= 0x7fff_ffff,
                ;
            }
            let nv = Zp::new(rem[shift + x] - cv * b[x], m);
            rem.set(shift + x, nv.get());
            x = x + 1;
        }
    }
    None
}

/// The inverse of `f` in `Z_m[x] / (x^n - 1)`, by the extended Euclidean
/// algorithm against `x^n - 1`, with the result verified by an exact
/// multiplication before it is returned.
///
/// Only the `Some` direction is part of the contract: a returned vector is
/// a checked inverse.  `None` means the search produced no verified
/// inverse — because none exists, or, in principle, because the step
/// budget or the width guards below cut the search short; the chain is
/// trimmed to its true degrees, which keeps those guards out of reach for
/// any legal ring dimension, but completeness on invertible inputs is not
/// proved.
pub fn find_inv_polynomial(f: &Vec<i64>, n: usize, m: u64) -> (r: Option<Vec<i64>>)
    requires
        1 <= n <= 0xffff,
        f@.len() == n,
        2 <= m <= 0x7fff,
        coeffs_canon(f@, m as int),
    ensures
        r matches Some(v) ==> v@.len() == n && coeffs_canon(v@, m as int) && (forall|t: int|
            0 <= t < n ==> congruent(
                if t == 0 {
                    1int
                } else {
                    0int
                },
                conv_at(f@, v@, n as int, t),
                m as int,
            )),
{
    // x^n - 1, with the canonical representative of -1
    let mut r0: Vec<i64> = Vec::new();
    r0.push((m - 1) as i64);
    let mut i: usize = 1;
    while i < n
        invariant
            1 <= i <= n,
            m >= 2,
            r0@.len() == i,
            r0@[0] == m - 1,
            forall|x: int| 1 <= x < i ==> #[trigger] r0@[x] == 0,
            coeffs_canon(r0@, m as int),
        decreases n - i,
    {
        r0.push(0);
        i = i + 1;
    }
    r0.push(1);
    assert(coeffs_canon(r0@, m as int));
    let mut r1: Vec<i64> = Vec::new();
    let mut i2: usize = 0;
    while i2 < n
        invariant
            i2 <= n,
            f@.len() == n,
            coeffs_canon(f@, m as int),
            r1@.len() == i2,
            coeffs_canon(r1@, m as int),
        decreases n - i2,
    {
        r1.push(f[i2]);
        i2 = i2 + 1;
    }
    r1.push(0);
    let width = n + 1;
    let mut t0: Vec<i64> = Vec::new();
    let mut t1: Vec<i64> = Vec::new();
    let mut i3: usize = 0;
    while i3 < width
        invariant
            i3 <= width,
            t0@.len() == i3,
            t1@.len() == i3,
            coeffs_canon(t0@, m as int),
            coeffs_canon(t1@, m as int),
            m >= 2,
        decreases width - i3,
    {
        t0.push(0);
        if i3 == 0 {
            t1.push(1);
        } else {
            t1.push(0);
        }
        i3 = i3 + 1;
    }
    let mut fuel: usize = n + 2;
    while fuel > 0
        invariant
            1 <= n <= 0xffff,
            2 <= m <= 0x7fff,
            f@.len() == n,
            coeffs_canon(f@, m as int),
            1 <= r0@.len() <= 0x2_0000,
            1 <= r1@.len() <= 0x2_0000,
            1 <= t0@.len() <= 0x8000_0,
            1 <= t1@.len() <= 0x8000_0,
            coeffs_canon(r0@, m as int),
            coeffs_canon(r1@, m as int),
            coeffs_canon(t0@, m as int),
            coeffs_canon(t1@, m as int),
        decreases fuel,
    {
        fuel = fuel - 1;
        let deg1 = poly_deg(&r1);
        if matches!(deg1, Option::None) {
            // r0 is the gcd; it must be a nonzero constant
            let d0 = poly_deg(&r0);
            match d0 {
                Some(0) => {
                    let cinv_opt = find_inv(r0[0], m);
                    let cinv: i64;
                    match cinv_opt {
                        Some(x) => {
                            cinv = x;
                        },
                        None => {
                            return None;
                        },
                    }
                    let cand_long = poly_scale_mod(&t0, cinv, m);
                    // fold the candidate into the quotient ring
                    let mut cand: Vec<i64> = Vec::new();
                    let mut i4: usize = 0;
                    while i4 < n
                        invariant
                            i4 <= n,
                            cand@.len() == i4,
                            forall|x: int| 0 <= x < i4 ==> #[trigger] cand@[x] == 0,
                        decreases n - i4,
                    {
                        cand.push(0);
                        i4 = i4 + 1;
                    }
                    let mut i5: usize = 0;
                    while i5 < cand_long.len()
                        invariant
                            i5 <= cand_long@.len(),
                            1 <= n,
                            2 <= m <= 0x7fff,
                            cand@.len() == n,
                            coeffs_canon(cand@, m as int),
                            coeffs_canon(cand_long@, m as int),
                        decreases cand_long@.len() - i5,
                    {
                        let pos = i5 % n;
                        proof {
                            assert(pos < n) by (nonlinear_arith)
                                requires
                                    n >= 1,
                                    pos == i5 % n,
                            ;
                        }
                        let z = Zp::new(cand[pos] + cand_long[i5], m);
                        cand.set(pos, z.get());
                        i5 = i5 + 1;
                    }
                    // the candidate must verify: f * cand == 1 in the ring
                    let prodv = poly_mul_cyclic(f, &cand, n, m);
                    if poly_is_one(&prodv, n) {
                        proof {
                            assert forall|t: int|
                                0 <= t < n implies congruent(
                                if t == 0 {
                                    1int
                                } else {
                                    0int
                                },
                                conv_at(f@, cand@, n as int, t),
                                m as int,
                            ) by {
                                assert(congruent(
                                    prodv@[t] as int,
                                    conv_at(f@, cand@, n as int, t),
                                    m as int,
                                ));
                            }
                        }
                        return Some(cand);
                    }
                    return None;
                },
                _ => {
                    return None;
                },
            }
        }
        let qr_opt = poly_divmod(&r0, &r1, m);
        let quot: Vec<i64>;
        let remv: Vec<i64>;
        match qr_opt {
            Some(qr) => {
                quot = qr.0;
                remv = qr.1;
            },
            None => {
                return None;
            },
        }
        // t2 = t0 - quot * t1
        let mut quot_t = quot;
        poly_trim(&mut quot_t);
        let qt = poly_mul_plain(&quot_t, &t1, m);
        let mut t2 = poly_sub_pad(&t0, &qt, m);
        poly_trim(&mut t2);
        r0 = r1;
        r1 = remv;
        t0 = t1;
        t1 = t2;
        if t1.len() > 0x8000_0 || r1.len() > 0x2_0000 {
            return None;
        }
    }
    None
}

/// Lift an inverse of `f` modulo 2 to an inverse modulo the power-of-two
/// modulus `q` by successive squaring of the modulus, verifying the result
/// by an exact multiplication.  `None` means the lift did not verify.
pub fn f2_to_fq(f: &Vec<i64>, f2: &Vec<i64>, n: usize, q: u64) -> (r: Option<Vec<i64>>)
    requires
        1 <= n <= 0xffff,
        f@.len() == n,
        f2@.len() == n,
        2 <= q <= 0x7fff,
        coeffs_canon(f@, q as int),
    ensures
        r matches Some(v) ==> v@.len() == n && coeffs_canon(v@, q as int) && (forall|t: int|
            0 <= t < n ==> congruent(
                if t == 0 {
                    1int
                } else {
                    0int
                },
                conv_at(f@, v@, n as int, t),
                q as int,
            )),
{
    let mut fq = reduce_coeffs(f2, q);
    let mut i: u64 = 2;
    let mut lift_fuel: u64 = 64;
    while i <= q && lift_fuel > 0
        invariant
            1 <= n <= 0xffff,
            f@.len() == n,
            2 <= q <= 0x7fff,
            coeffs_canon(f@, q as int),
            fq@.len() == n,
            coeffs_canon(fq@, q as int),
            i >= 2,
        decreases lift_fuel,
    {
        lift_fuel = lift_fuel - 1;
        proof {
            assert(i * i > i) by (nonlinear_arith)
                requires
                    i >= 2,
            ;
            assert(i * i <= 0x3fff_8001) by (nonlinear_arith)
                requires
                    2 <= i <= 0x7fff,
            ;
        }
        i = i * i;
        let t = poly_mul_cyclic(f, &fq, n, q);
        // 2 - f * fq, coefficientwise in the ring
        let mut u: Vec<i64> = Vec::new();
        let mut x: usize = 0;
        while x < n
            invariant
                x <= n,
                t@.len() == n,
                2 <= q <= 0x7fff,
                coeffs_canon(t@, q as int),
                u@.len() == x,
                coeffs_canon(u@, q as int),
            decreases n - x,
        {
            let base: i64 = if x == 0 {
                2
            } else {
                0
            };
            let z = Zp::new(base - t[x], q);
            u.push(z.get());
            x = x + 1;
        }
        fq = poly_mul_cyclic(&fq, &u, n, q);
    }
    let prodv = poly_mul_cyclic(f, &fq, n, q);
    if poly_is_one(&prodv, n) {
        proof {
            assert forall|t: int|
                0 <= t < n implies congruent(
                if t == 0 {
                    1int
                } else {
                    0int
                },
                conv_at(f@, fq@, n as int, t),
                q as int,
            ) by {
                assert(congruent(prodv@[t] as int, conv_at(f@, fq@, n as int, t), q as int));
            }
        }
        Some(fq)
    } else {
        None
    }
}

/// Draw a private key: a ternary `f` with `df` ones and `df - 1` minus
/// ones that is invertible both modulo `p` and modulo `q`, together with
/// both verified inverses.  `None` only on exhaustion of the retry budget.
pub fn gen_f_fp_fq(df: u8, params: &RingParams) -> (r: Option<(Vec<i64>, Vec<i64>, Vec<i64>)>)
    requires
        params.wf(),
        df >= 1,
        2 * df - 1 <= params.n,
    ensures
        r matches Some(v) ==> {
            let (f, fp, fq) = v;
            &&& f@.len() == params.n
            &&& ternary(f@)
            &&& count_val(f@, 1i64) == df
            &&& count_val(f@, -1i64) == df - 1
            &&& fp@.len() == params.n
            &&& coeffs_canon(fp@, params.p as int)
            &&& (forall|t: int|
                0 <= t < params.n ==> congruent(
                    if t == 0 {
                        1int
                    } else {
                        0int
                    },
                    conv_at(reduce_seq(f@, params.p as int), fp@, params.n as int, t),
                    params.p as int,
                ))
            &&& fq@.len() == params.n
            &&& coeffs_canon(fq@, params.q as int)
            &&& (forall|t: int|
                0 <= t < params.n ==> congruent(
                    if t == 0 {
                        1int
                    } else {
                        0int
                    },
                    conv_at(reduce_seq(f@, params.q as int), fq@, params.n as int, t),
                    params.q as int,
                ))
        },
{
    let n = params.n;
    let mut fuel: u64 = 0xFFFF;
    while fuel > 0
        invariant
            params.wf(),
            n == params.n,
            df >= 1,
            2 * df - 1 <= n,
        decreases fuel,
    {
        fuel = fuel - 1;
        let f_opt = gen_polynomial(df, df - 1, n);
        let f: Vec<i64>;
        match f_opt {
            Some(v) => {
                f = v;
            },
            None => {
                return None;
            },
        }
        let f_p = reduce_coeffs(&f, params.p);
        let fp_opt = find_inv_polynomial(&f_p, n, params.p);
        let fp: Vec<i64>;
        match fp_opt {
            Some(v) => {
                fp = v;
            },
            None => {
                continue ;
            },
        }
        let f_2 = reduce_coeffs(&f, 2);
        let f2_opt = find_inv_polynomial(&f_2, n, 2);
        let f2: Vec<i64>;
        match f2_opt {
            Some(v) => {
                f2 = v;
            },
            None => {
                continue ;
            },
        }
        let f_q = reduce_coeffs(&f, params.q);
        let fq_opt = f2_to_fq(&f_q, &f2, n, params.q);
        match fq_opt {
            Some(fq) => {
                return Some((f, fp, fq));
            },
            None => {
                continue ;
            },
        }
    }
    None
}

/// Generate an NTRU key pair: the public key `h == fq * g` in the ring
/// modulo `q`, and the private pair `(f, fp)`.  `None` only on exhaustion
/// of the retry budget.
pub fn ntru_gen_keys(df: u8, dg: u8, params: &RingParams) -> (r: Option<
    (Vec<i64>, (Vec<i64>, Vec<i64>)),
>)
    requires
        params.wf(),
        df >= 1,
        2 * df - 1 <= params.n,
        2 * dg <= params.n,
    ensures
        r matches Some(v) ==> {
            let (h, pair) = v;
            &&& h@.len() == params.n
            &&& coeffs_canon(h@, params.q as int)
            &&& pair.0@.len() == params.n
            &&& ternary(pair.0@)
            &&& count_val(pair.0@, 1i64) == df
            &&& count_val(pair.0@, -1i64) == df - 1
            &&& pair.1@.len() == params.n
            &&& coeffs_canon(pair.1@, params.p as int)
            &&& (forall|t: int|
                0 <= t < params.n ==> congruent(
                    if t == 0 {
                        1int
                    } else {
                        0int
                    },
                    conv_at(
                        reduce_seq(pair.0@, params.p as int),
                        pair.1@,
                        params.n as int,
                        t,
                    ),
                    params.p as int,
                ))
            &&& (exists|fqv: Seq<i64>, gv: Seq<i64>|
                public_key_evidence(h@, pair.0@, fqv, gv, params.n as int, params.q as int, dg as int))
        },
{
    let n = params.n;
    let kp = gen_f_fp_fq(df, params);
    let f: Vec<i64>;
    let fp: Vec<i64>;
    let fq: Vec<i64>;
    match kp {
        Some(v) => {
            let (a, b, c) = v;
            f = a;
            fp = b;
            fq = c;
        },
        None => {
            return None;
        },
    }
    let g_opt = gen_polynomial(dg, dg, n);
    let g: Vec<i64>;
    match g_opt {
        Some(v) => {
            g = v;
        },
        None => {
            return None;
        },
    }
    let g_q = reduce_coeffs(&g, params.q);
    let h = poly_mul_cyclic(&fq, &g_q, n, params.q);
    proof {
        assert(public_key_evidence(
            h@,
            f@,
            fq@,
            g@,
            params.n as int,
            params.q as int,
            dg as int,
        ));
    }
    Some((h, (f, fp)))
}

/// What makes `h` a public key for `f`: some verified inverse `fqv` of `f`
/// modulo `q` and some ternary `gv` with `dg` coefficients of either sign
/// give `h` as their ring product.
pub open spec fn public_key_evidence(
    h: Seq<i64>,
    f: Seq<i64>,
    fqv: Seq<i64>,
    gv: Seq<i64>,
    n: int,
    q: int,
    dg: int,
) -> bool {
    &&& fqv.len() == n
    &&& coeffs_canon(fqv, q)
    &&& (forall|t: int|
        0 <= t < n ==> congruent(
            if t == 0 {
                1int
            } else {
                0int
            },
            conv_at(reduce_seq(f, q), fqv, n, t),
            q,
        ))
    &&& gv.len() == n
    &&& ternary(gv)
    &&& count_val(gv, 1i64) == dg
    &&& count_val(gv, -1i64) == dg
    &&& (forall|t: int|
        0 <= t < n ==> congruent(#[trigger] h[t] as int, conv_at(fqv, reduce_seq(gv, q), n, t), q))
}

/// Encrypt a message polynomial: `e == p * r * h + message` in the ring
/// modulo `q`, for a fresh random ternary blinding `r` with `dr`
/// coefficients of either sign.  `None` only on exhaustion of the retry
/// budget.
pub fn ntru_encrypt(dr: u8, h: &Vec<i64>, message: &Vec<i64>, params: &RingParams) -> (r: Option<
    Vec<i64>,
>)
    requires
        params.wf(),
        2 * dr <= params.n,
        h@.len() == params.n,
        coeffs_canon(h@, params.q as int),
        message@.len() == params.n,
    ensures
        r matches Some(e) ==> e@.len() == params.n && coeffs_canon(e@, params.q as int) && (exists|
            rv: Seq<i64>,
            sv: Seq<i64>,
        |
            ciphertext_evidence(
                e@,
                h@,
                message@,
                rv,
                sv,
                params.n as int,
                params.p as int,
                params.q as int,
                dr as int,
            )),
{
    let n = params.n;
    let r_opt = gen_polynomial(dr, dr, n);
    let rr: Vec<i64>;
    match r_opt {
        Some(v) => {
            rr = v;
        },
        None => {
            return None;
        },
    }
    let r_q = reduce_coeffs(&rr, params.q);
    let pr = poly_scale_mod(&r_q, params.p as i64, params.q);
    let prh = poly_mul_cyclic(&pr, h, n, params.q);
    let m_q = reduce_coeffs(message, params.q);
    let e = poly_add_mod(&prh, &m_q, params.q);
    proof {
        let qi = params.q as int;
        assert forall|t: int| 0 <= t < n implies congruent(
            #[trigger] e@[t] as int,
            conv_at(pr@, h@, params.n as int, t) + message@[t],
            qi,
        ) by {
            assert(congruent(e@[t] as int, prh@[t] + m_q@[t], qi));
            assert(congruent(prh@[t] as int, conv_at(pr@, h@, params.n as int, t), qi));
            assert(m_q@[t] == reduce_seq(message@, qi)[t]);
            assert(congruent(message@[t] as int, m_q@[t] as int, qi)) by {
                vstd::arithmetic::div_mod::lemma_fundamental_div_mod(message@[t] as int, qi);
                assert(message@[t] - (message@[t] as int) % qi == (message@[t] as int / qi)
                    * qi) by (nonlinear_arith)
                    requires
                        message@[t] as int == qi * (message@[t] as int / qi) + (
                        message@[t] as int) % qi,
                ;
            }
            crate::zp::lemma_congruent_symm(message@[t] as int, m_q@[t] as int, qi);
            crate::zp::lemma_congruent_linear(
                prh@[t] as int,
                conv_at(pr@, h@, params.n as int, t),
                m_q@[t] as int,
                message@[t] as int,
                -1,
                qi,
            );
            assert(prh@[t] - (-1) * (m_q@[t] as int) == prh@[t] + m_q@[t]);
            assert(conv_at(pr@, h@, params.n as int, t) - (-1) * (message@[t] as int) == conv_at(
                pr@,
                h@,
                params.n as int,
                t,
            ) + message@[t]);
            crate::zp::lemma_congruent_trans(
                e@[t] as int,
                prh@[t] + m_q@[t],
                conv_at(pr@, h@, params.n as int, t) + message@[t],
                qi,
            );
        }
        assert forall|x: int| 0 <= x < n implies congruent(
            #[trigger] pr@[x] as int,
            (params.p as int) * rr@[x],
            qi,
        ) by {
            assert(congruent(pr@[x] as int, (params.p as int) * r_q@[x], qi));
            assert(r_q@[x] == reduce_seq(rr@, qi)[x]);
            assert(congruent(rr@[x] as int, r_q@[x] as int, qi)) by {
                vstd::arithmetic::div_mod::lemma_fundamental_div_mod(rr@[x] as int, qi);
                assert(rr@[x] - (rr@[x] as int) % qi == (rr@[x] as int / qi) * qi)
                    by (nonlinear_arith)
                    requires
                        rr@[x] as int == qi * (rr@[x] as int / qi) + (rr@[x] as int) % qi,
                ;
            }
            crate::zp::lemma_congruent_symm(rr@[x] as int, r_q@[x] as int, qi);
            crate::zp::lemma_congruent_scale(r_q@[x] as int, rr@[x] as int, params.p as int, qi);
            assert((r_q@[x] as int) * (params.p as int) == (params.p as int) * r_q@[x])
                by (nonlinear_arith);
            assert((rr@[x] as int) * (params.p as int) == (params.p as int) * rr@[x])
                by (nonlinear_arith);
            crate::zp::lemma_congruent_trans(
                pr@[x] as int,
                (params.p as int) * r_q@[x],
                (params.p as int) * rr@[x],
                qi,
            );
        }
        assert(ciphertext_evidence(
            e@,
            h@,
            message@,
            rr@,
            pr@,
            params.n as int,
            params.p as int,
            params.q as int,
            dr as int,
        ));
    }
    Some(e)
}

/// What makes `e` a ciphertext for `message` under `h`: some ternary
/// blinding `rv` with `dr` coefficients of either sign whose scaling `sv`
/// satisfies `sv == p * rv mod q`, with `e == sv * h + message` in the
/// ring modulo `q`.
pub open spec fn ciphertext_evidence(
    e: Seq<i64>,
    h: Seq<i64>,
    message: Seq<i64>,
    rv: Seq<i64>,
    sv: Seq<i64>,
    n: int,
    p: int,
    q: int,
    dr: int,
) -> bool {
    &&& rv.len() == n
    &&& ternary(rv)
    &&& count_val(rv, 1i64) == dr
    &&& count_val(rv, -1i64) == dr
    &&& sv.len() == n
    &&& coeffs_canon(sv, q)
    &&& (forall|x: int| 0 <= x < n ==> congruent(#[trigger] sv[x] as int, p * rv[x], q))
    &&& (forall|t: int|
        0 <= t < n ==> congruent(#[trigger] e[t] as int, conv_at(sv, h, n, t) + message[t], q))
}

/// Decrypt a ciphertext with the private pair: multiply by `f` modulo `q`,
/// center, multiply by `fp` modulo `p`, and center again.
pub fn ntru_decrypt(f: &Vec<i64>, fp: &Vec<i64>, cipher: &Vec<i64>, params: &RingParams) -> (r:
    Vec<i64>)
    requires
        params.wf(),
        f@.len() == params.n,
        fp@.len() == params.n,
        coeffs_canon(fp@, params.p as int),
        cipher@.len() == params.n,
    ensures
        r@.len() == params.n,
        forall|t: int|
            0 <= t < params.n ==> 2 * #[trigger] r@[t] <= params.p && -(params.p as int) <= 2
                * r@[t],
        exists|av: Seq<i64>, cv: Seq<i64>|
            decryption_evidence(
                r@,
                f@,
                fp@,
                cipher@,
                av,
                cv,
                params.n as int,
                params.p as int,
                params.q as int,
            ),
{
    let n = params.n;
    let f_q = reduce_coeffs(f, params.q);
    let c_q = reduce_coeffs(cipher, params.q);
    let a_raw = poly_mul_cyclic(&f_q, &c_q, n, params.q);
    let a = center_coeffs(&a_raw, params.q);
    let a_p = reduce_coeffs(&a, params.p);
    let m1 = poly_mul_cyclic(&a_p, fp, n, params.p);
    let m = center_coeffs(&m1, params.p);
    proof {
        let qi = params.q as int;
        assert forall|t: int| 0 <= t < n implies congruent(
            #[trigger] a@[t] as int,
            conv_at(reduce_seq(f@, qi), reduce_seq(cipher@, qi), params.n as int, t),
            qi,
        ) by {
            assert(congruent(a@[t] as int, a_raw@[t] as int, qi));
            assert(congruent(a_raw@[t] as int, conv_at(f_q@, c_q@, params.n as int, t), qi));
            assert(f_q@ == reduce_seq(f@, qi));
            assert(c_q@ == reduce_seq(cipher@, qi));
            crate::zp::lemma_congruent_trans(
                a@[t] as int,
                a_raw@[t] as int,
                conv_at(f_q@, c_q@, params.n as int, t),
                qi,
            );
        }
        assert(a_p@ == reduce_seq(a@, params.p as int));
        assert(decryption_evidence(
            m@,
            f@,
            fp@,
            cipher@,
            a@,
            m1@,
            params.n as int,
            params.p as int,
            params.q as int,
        ));
    }
    m
}

/// What relates a decryption to its ciphertext: an intermediate `av`,
/// centered modulo `q` and congruent to `f * cipher` in the ring modulo
/// `q`, and a product `cv` congruent to `av * fp` in the ring modulo `p`,
/// of which the result is the centered representative.
pub open spec fn decryption_evidence(
    m: Seq<i64>,
    f: Seq<i64>,
    fp: Seq<i64>,
    cipher: Seq<i64>,
    av: Seq<i64>,
    cv: Seq<i64>,
    n: int,
    p: int,
    q: int,
) -> bool {
    &&& av.len() == n
    &&& (forall|t: int|
        0 <= t < n ==> congruent(
            #[trigger] av[t] as int,
            conv_at(reduce_seq(f, q), reduce_seq(cipher, q), n, t),
            q,
        ) && 2 * av[t] <= q && -q <= 2 * av[t])
    &&& cv.len() == n
    &&& (forall|t: int|
        0 <= t < n ==> congruent(
            #[trigger] cv[t] as int,
            conv_at(reduce_seq(av, p), fp, n, t),
            p,
        ))
    &&& m.len() == n
    &&& (forall|t: int|
        0 <= t < n ==> congruent(#[trigger] m[t] as int, cv[t] as int, p) && 2 * m[t] <= p && -p
            <= 2 * m[t])
}

/// Draw a random message polynomial: `n` small random draws centered
/// modulo `p`.
pub fn gen_m(n: usize, p: u64) -> (r: Vec<i64>)
    requires
        1 <= n <= 0xffff,
        2 <= p <= 0x7fff,
    ensures
        r@.len() == n,
        forall|t: int|
            0 <= t < n ==> 2 * #[trigger] r@[t] <= p && -(p as int) <= 2 * r@[t],
{
    let mut m: Vec<i64> = Vec::new();
    let mut i: usize = 0;
    while i < n
        invariant
            i <= n,
            2 <= p <= 0x7fff,
            m@.len() == i,
            forall|t: int| 0 <= t < i ==> 2 * #[trigger] m@[t] <= p && -(p as int) <= 2 * m@[t],
        decreases n - i,
    {
        let draw = rand_below(10);
        m.push(crate::service::mod_center(draw as i64, p));
        i = i + 1;
    }
    m
}

} // verus!
