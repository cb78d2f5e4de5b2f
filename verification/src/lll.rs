use vstd::prelude::*;
use crate::big::Big;
use crate::rat::Rat;
use crate::rat::rat_add;
use crate::rat::rat_sub;
use crate::rat::rat_mul;
use crate::rat::rat_div;
use crate::rat::rat_lt;
use crate::rat::rat_abs;
use crate::rat::rat_round;
use crate::frac::Frac;
use crate::frac::fint;
use crate::frac::fadd;
use crate::frac::fsub;
use crate::frac::fmul;
use crate::frac::fsq;
use crate::frac::fabs;
use crate::frac::fhalf;
use crate::frac::fquarter;
use crate::frac::feq;
use crate::frac::fle;
use crate::frac::flt;
use crate::frac::fok;
use crate::frac::lemma_fabs_feq;
use crate::frac::lemma_fle_subst;
use crate::frac::lemma_flt_subst;
use crate::frac::lemma_fadd_feq;
use crate::frac::lemma_fmul_feq;
use crate::frac::lemma_feq_trans;
use crate::frac::lemma_fsub_fadd;
use crate::frac::lemma_advance_pos;
use crate::linalg::basis_wf;
use crate::linalg::rows_wide;
use crate::linalg::rows_in_span;
use crate::linalg::row_sub_scaled;
use crate::linalg::sqnorm;
use crate::linalg::scalar_product;
use crate::linalg::squared_norm;
use crate::linalg::sub_vec;
use crate::linalg::is_zero;
use crate::linalg::lemma_span_update_sub;
use crate::linalg::lemma_rows_in_span_trans;
use crate::linalg::lemma_rows_in_span_refl;
use crate::linalg::lemma_dot_sub_scaled_left;
use crate::linalg::lemma_sqnorm_pos;

verus! {

/// Every rational of the sequence is well formed.
pub open spec fn rat_seq_wf(c: Seq<Rat>) -> bool {
    forall|i: int| 0 <= i < c.len() ==> (#[trigger] c[i]).wf()
}

/// Every row of the coefficient table holds well-formed rationals.
pub open spec fn rat_mat_wf(g: Seq<Vec<Rat>>) -> bool {
    forall|i: int| 0 <= i < g.len() ==> rat_seq_wf((#[trigger] g[i])@)
}

/// Every row of the coefficient table is at least `m` wide.
pub open spec fn gs_rows_long(g: Seq<Vec<Rat>>, m: nat) -> bool {
    forall|i: int| 0 <= i < g.len() ==> (#[trigger] g[i])@.len() >= m
}

/// The coefficient at `(i, j)` is size-reduced: its magnitude is at most
/// one half.
pub open spec fn mu_small(g: Seq<Vec<Rat>>, i: int, j: int) -> bool {
    fle(fabs(g[i]@[j].frac()), fhalf())
}

/// All rows below `k` are size-reduced.
pub open spec fn size_reduced_upto(g: Seq<Vec<Rat>>, k: int) -> bool {
    forall|i: int, j: int| 1 <= i < k && 0 <= j < i ==> #[trigger] mu_small(g, i, j)
}

/// The Lovasz condition between rows `i - 1` and `i` of the tables:
/// `delta * c[i-1] <= c[i] + mu[i][i-1]^2 * c[i-1]`.
pub open spec fn lovasz_at(delta: Frac, c: Seq<Rat>, g: Seq<Vec<Rat>>, i: int) -> bool {
    fle(
        fmul(delta, c[i - 1].frac()),
        fadd(c[i].frac(), fmul(fsq(g[i]@[i - 1].frac()), c[i - 1].frac())),
    )
}

/// The Lovasz condition holds at every index below `k`.
pub open spec fn lovasz_upto(delta: Frac, c: Seq<Rat>, g: Seq<Vec<Rat>>, k: int) -> bool {
    forall|i: int| 1 <= i < k ==> #[trigger] lovasz_at(delta, c, g, i)
}

/// The stored norms below `k` are strictly positive rationals.
pub open spec fn c_pos_upto(c: Seq<Rat>, k: int) -> bool {
    forall|i: int| 0 <= i < k ==> (#[trigger] c[i]).frac().n > 0
}

/// Some entry of the row is nonzero.
pub open spec fn row_nonzero(v: Seq<int>) -> bool {
    exists|j: int| 0 <= j < v.len() && v[j] != 0
}

/// A legal reduction parameter: a rational strictly between one quarter
/// and one.
pub open spec fn delta_ok(delta: Rat) -> bool {
    &&& delta.wf()
    &&& flt(fquarter(), delta.frac())
    &&& flt(delta.frac(), fint(1))
}

/// A row of zero rationals.
pub fn zero_rats(m: usize) -> (r: Vec<Rat>)
    ensures
        r@.len() == m,
        rat_seq_wf(r@),
{
    let mut r: Vec<Rat> = Vec::new();
    let mut i: usize = 0;
    while i < m
        invariant
            i <= m,
            r@.len() == i,
            rat_seq_wf(r@),
        decreases m - i,
    {
        r.push(Rat::from_i64(0));
        i = i + 1;
    }
    r
}

/// Orthogonalization step for row `k`: the Gram-Schmidt coefficients of row
/// `k` against all earlier rows, and the squared norm of its orthogonal
/// component, both as exact rationals computed from exact inner products.
fn gso_row(b: &Vec<Vec<Big>>, c: &Vec<Rat>, gs: &Vec<Vec<Rat>>, k: usize, n: usize) -> (r: (
    Vec<Rat>,
    Rat,
))
    requires
        basis_wf(b@, n as nat),
        k < b@.len(),
        c@.len() == b@.len(),
        gs@.len() == b@.len(),
        rat_seq_wf(c@),
        rat_mat_wf(gs@),
        gs_rows_long(gs@, b@.len() as nat),
        c_pos_upto(c@, k as int),
    ensures
        r.0@.len() == b@.len(),
        rat_seq_wf(r.0@),
        r.1.wf(),
{
    let m = b.len();
    let mut gk = zero_rats(m);
    let mut ck = Rat::from_big(&squared_norm(&b[k]));
    let mut j: usize = 0;
    while j < k
        invariant
            j <= k,
            k < b@.len(),
            b@.len() == m,
            basis_wf(b@, n as nat),
            c@.len() == m,
            gs@.len() == m,
            rat_seq_wf(c@),
            rat_mat_wf(gs@),
            gs_rows_long(gs@, m as nat),
            c_pos_upto(c@, k as int),
            gk@.len() == m,
            rat_seq_wf(gk@),
            ck.wf(),
        decreases k - j,
    {
        let s = Rat::from_big(&scalar_product(&b[k], &b[j]));
        let mut sum = Rat::from_i64(0);
        let mut i: usize = 0;
        while i < j
            invariant
                i <= j,
                j < k,
                k < b@.len(),
                b@.len() == m,
                c@.len() == m,
                gs@.len() == m,
                rat_seq_wf(c@),
                rat_mat_wf(gs@),
                gs_rows_long(gs@, m as nat),
                gk@.len() == m,
                rat_seq_wf(gk@),
                sum.wf(),
            decreases j - i,
        {
            assert(gs@[j as int]@.len() >= m);
            assert(gs@[j as int]@[i as int].wf());
            sum = rat_add(&sum, &rat_mul(&rat_mul(&gs[j][i], &gk[i]), &c[i]));
            i = i + 1;
        }
        assert(c@[j as int].frac().n > 0);
        let mu = rat_div(&rat_sub(&s, &sum), &c[j]);
        ck = rat_sub(&ck, &rat_mul(&rat_mul(&mu, &mu), &c[j]));
        gk.set(j, mu);
        j = j + 1;
    }
    (gk, ck)
}

/// The integer rows of a well-formed basis all have width `n`.
pub proof fn lemma_basis_wide(b: &Vec<Vec<Big>>, n: nat)
    requires
        basis_wf(b@, n),
    ensures
        b.deep_view().len() == b@.len(),
        rows_wide(b.deep_view(), n),
        forall|i: int| 0 <= i < b@.len() ==> b.deep_view()[i] == (#[trigger] b@[i]).deep_view(),
{
    assert forall|i: int| 0 <= i < b.deep_view().len() implies (#[trigger] b.deep_view()[i]).len()
        == n by {
        assert(b.deep_view()[i] == b@[i].deep_view());
        assert(b@[i].deep_view().len() == b@[i]@.len());
    }
}

/// Size-reduce row `k` of the basis against all earlier rows, updating the
/// working coefficient row alongside, as one in-place pass from `k - 1`
/// down to `0`.  Afterwards every coefficient of the row has magnitude at
/// most one half, and the lattice spanned by the basis is unchanged.
fn size_reduce_row(b: &mut Vec<Vec<Big>>, gs: &Vec<Vec<Rat>>, gk: &mut Vec<Rat>, k: usize, n: usize)
    requires
        basis_wf(old(b)@, n as nat),
        1 <= k < old(b)@.len(),
        gs@.len() == old(b)@.len(),
        rat_mat_wf(gs@),
        gs_rows_long(gs@, old(b)@.len() as nat),
        old(gk)@.len() == old(b)@.len(),
        rat_seq_wf(old(gk)@),
    ensures
        final(b)@.len() == old(b)@.len(),
        basis_wf(final(b)@, n as nat),
        forall|i: int| 0 <= i < old(b)@.len() && i != k ==> final(b)@[i] == old(b)@[i],
        rows_in_span(final(b).deep_view(), old(b).deep_view(), n as nat),
        rows_in_span(old(b).deep_view(), final(b).deep_view(), n as nat),
        final(gk)@.len() == old(gk)@.len(),
        rat_seq_wf(final(gk)@),
        forall|t: int| 0 <= t < k ==> fle(fabs((#[trigger] final(gk)@[t]).frac()), fhalf()),
{
    let m = b.len();
    let half = Rat::ratio_i64(1, 2);
    proof {
        lemma_basis_wide(b, n as nat);
        lemma_rows_in_span_refl(b.deep_view(), n as nat);
    }
    let mut j: usize = k;
    while j > 0
        invariant
            j <= k,
            1 <= k < m,
            b@.len() == m,
            old(b)@.len() == m,
            basis_wf(b@, n as nat),
            basis_wf(old(b)@, n as nat),
            gs@.len() == m,
            rat_mat_wf(gs@),
            gs_rows_long(gs@, m as nat),
            gk@.len() == old(gk)@.len(),
            old(gk)@.len() == m,
            rat_seq_wf(gk@),
            half.wf(),
            half.frac() == fhalf(),
            forall|i: int| 0 <= i < m && i != k ==> b@[i] == old(b)@[i],
            rows_in_span(b.deep_view(), old(b).deep_view(), n as nat),
            rows_in_span(old(b).deep_view(), b.deep_view(), n as nat),
            forall|t: int| j <= t < k ==> fle(fabs((#[trigger] gk@[t]).frac()), fhalf()),
        decreases j,
    {
        j = j - 1;
        if rat_lt(&half, &rat_abs(&gk[j])) {
            let nu = rat_round(&gk[j]);
            let nu_rat = Rat::from_big(&nu);
            let ghost mu_old = gk@[j as int].frac();
            let mut i: usize = 0;
            while i < j
                invariant
                    i <= j,
                    j < k,
                    k < m,
                    gs@.len() == m,
                    rat_mat_wf(gs@),
                    gs_rows_long(gs@, m as nat),
                    gk@.len() == m,
                    rat_seq_wf(gk@),
                    nu_rat.wf(),
                    gk@[j as int].frac() == mu_old,
                    gk@[j as int].wf(),
                    forall|t: int| j < t < k ==> fle(fabs((#[trigger] gk@[t]).frac()), fhalf()),
                decreases j - i,
            {
                assert(gs@[j as int]@.len() >= m);
                assert(gs@[j as int]@[i as int].wf());
                let upd = rat_sub(&gk[i], &rat_mul(&nu_rat, &gs[j][i]));
                gk.set(i, upd);
                i = i + 1;
            }
            let newmu = rat_sub(&gk[j], &nu_rat);
            proof {
                let exact = fsub(mu_old, nu_rat.frac());
                assert(nu_rat.frac() == (Frac { n: nu@, d: 1int }));
                assert(exact.n == mu_old.n - nu@ * mu_old.d && exact.d == mu_old.d);
                assert(fle(fabs(exact), fhalf()));
                lemma_fabs_feq(newmu.frac(), exact);
                lemma_fle_subst(fabs(exact), fhalf(), fabs(newmu.frac()), fhalf());
            }
            gk.set(j, newmu);
            let ghost bpre_dv = b.deep_view();
            proof {
                lemma_basis_wide(b, n as nat);
                lemma_span_update_sub(bpre_dv, k as int, j as int, nu@, n as nat);
            }
            sub_vec(b, k, j, &nu);
            proof {
                lemma_basis_wide(old(b), n as nat);
                assert(basis_wf(b@, n as nat));
                lemma_basis_wide(b, n as nat);
                assert(b.deep_view() =~= bpre_dv.update(
                    k as int,
                    row_sub_scaled(bpre_dv[k as int], bpre_dv[j as int], nu@),
                ));
                lemma_rows_in_span_trans(b.deep_view(), bpre_dv, old(b).deep_view(), n as nat);
                lemma_rows_in_span_trans(old(b).deep_view(), bpre_dv, b.deep_view(), n as nat);
            }
        } else {
            proof {
                assert(fle(fabs(gk@[j as int].frac()), fhalf()));
            }
        }
    }
}

/// Recompute the Gram-Schmidt data of the leading pair from exact inner
/// products and size-reduce row 1 against row 0.  Everything returned is
/// recomputed from the basis itself, so the returned values carry the norm
/// identity `c1 + mu^2 * c0 == |row 1|^2` that the swap decision at the
/// first position relies on.
fn reduce_pair01(b: &mut Vec<Vec<Big>>, n: usize) -> (r: (Rat, Rat, Rat))
    requires
        basis_wf(old(b)@, n as nat),
        2 <= old(b)@.len(),
        row_nonzero(old(b)@[0].deep_view()),
    ensures
        final(b)@.len() == old(b)@.len(),
        basis_wf(final(b)@, n as nat),
        forall|i: int| 0 <= i < old(b)@.len() && i != 1 ==> final(b)@[i] == old(b)@[i],
        rows_in_span(final(b).deep_view(), old(b).deep_view(), n as nat),
        rows_in_span(old(b).deep_view(), final(b).deep_view(), n as nat),
        r.0.wf(),
        r.1.wf(),
        r.2.wf(),
        r.0.frac() == (Frac { n: sqnorm(final(b).deep_view()[0]), d: 1int }),
        r.0.frac().n > 0,
        fle(fabs(r.1.frac()), fhalf()),
        feq(
            fadd(r.2.frac(), fmul(fsq(r.1.frac()), r.0.frac())),
            fint(sqnorm(final(b).deep_view()[1])),
        ),
{
    proof {
        lemma_basis_wide(b, n as nat);
        lemma_rows_in_span_refl(b.deep_view(), n as nat);
        let jw = choose|j: int| 0 <= j < b@[0].deep_view().len() && b@[0].deep_view()[j] != 0;
        assert(b.deep_view()[0] == b@[0].deep_view());
        lemma_sqnorm_pos(b.deep_view()[0], jw);
    }
    let n0_big = squared_norm(&b[0]);
    let c0 = Rat::from_big(&n0_big);
    let ghost nn0 = n0_big@;
    let s_big = scalar_product(&b[1], &b[0]);
    let s_rat = Rat::from_big(&s_big);
    let mu = rat_div(&s_rat, &c0);
    let ghost s = s_big@;
    let half = Rat::ratio_i64(1, 2);
    let mu_fin: Rat;
    if rat_lt(&half, &rat_abs(&mu)) {
        let nu = rat_round(&mu);
        let ghost bpre_dv = b.deep_view();
        proof {
            lemma_span_update_sub(bpre_dv, 1int, 0int, nu@, n as nat);
        }
        sub_vec(b, 1, 0, &nu);
        proof {
            assert(basis_wf(b@, n as nat));
            lemma_basis_wide(b, n as nat);
            assert(b.deep_view() =~= bpre_dv.update(
                1int,
                row_sub_scaled(bpre_dv[1], bpre_dv[0], nu@),
            ));
        }
        let s2_big = scalar_product(&b[1], &b[0]);
        let s2_rat = Rat::from_big(&s2_big);
        let mu2 = rat_div(&s2_rat, &c0);
        proof {
            lemma_dot_sub_scaled_left(bpre_dv[1], bpre_dv[0], nu@, bpre_dv[0]);
            assert(s2_big@ == s - nu@ * nn0);
            let a1 = mu.frac().n;
            let d1 = mu.frac().d;
            let a2 = mu2.frac().n;
            let d2 = mu2.frac().d;
            let k0 = mu.frac().n - nu@ * mu.frac().d;
            // the two division facts, with the common positive factor nn0
            // cancelled, say that mu2 equals mu - nu
            assert(mu.frac().n * nn0 == s * mu.frac().d) by (nonlinear_arith)
                requires
                    feq(fmul(mu.frac(), c0.frac()), s_rat.frac()),
                    c0.frac() == (Frac { n: nn0, d: 1int }),
                    s_rat.frac() == (Frac { n: s, d: 1int }),
            ;
            assert(mu2.frac().n * nn0 == (s - nu@ * nn0) * mu2.frac().d) by (nonlinear_arith)
                requires
                    feq(fmul(mu2.frac(), c0.frac()), s2_rat.frac()),
                    c0.frac() == (Frac { n: nn0, d: 1int }),
                    s2_rat.frac() == (Frac { n: s - nu@ * nn0, d: 1int }),
            ;
            let nuv = nu@;
            let w = s - nuv * nn0;
            assert(a2 * nn0 * d1 == w * (d2 * d1)) by (nonlinear_arith)
                requires
                    a2 * nn0 == w * d2,
            ;
            assert(a1 * nn0 * d2 == s * (d2 * d1)) by (nonlinear_arith)
                requires
                    a1 * nn0 == s * d1,
            ;
            assert(nn0 * (a2 * d1) == s * (d2 * d1) - nuv * nn0 * (d2 * d1)) by (nonlinear_arith)
                requires
                    a2 * nn0 * d1 == w * (d2 * d1),
                    w == s - nuv * nn0,
            ;
            assert(nn0 * (k0 * d2) == s * (d2 * d1) - nuv * nn0 * (d2 * d1)) by (nonlinear_arith)
                requires
                    k0 == a1 - nuv * d1,
                    a1 * nn0 * d2 == s * (d2 * d1),
            ;
            assert(nn0 * (a2 * d1 - k0 * d2) == 0) by (nonlinear_arith)
                requires
                    nn0 * (a2 * d1) == s * (d2 * d1) - nuv * nn0 * (d2 * d1),
                    nn0 * (k0 * d2) == s * (d2 * d1) - nuv * nn0 * (d2 * d1),
            ;
            assert(a2 * d1 == k0 * d2) by (nonlinear_arith)
                requires
                    nn0 * (a2 * d1 - k0 * d2) == 0,
                    nn0 > 0,
            ;
            assert(2 * (vstd::math::abs(k0) as int) <= mu.frac().d);
            if k0 >= 0 {
                assert(a2 >= 0) by (nonlinear_arith)
                    requires
                        a2 * d1 == k0 * d2,
                        k0 >= 0,
                        d1 > 0,
                        d2 > 0,
                ;
                assert(2 * a2 <= d2) by (nonlinear_arith)
                    requires
                        a2 * d1 == k0 * d2,
                        2 * k0 <= d1,
                        k0 >= 0,
                        d1 > 0,
                        d2 > 0,
                ;
            } else {
                assert(a2 <= 0) by (nonlinear_arith)
                    requires
                        a2 * d1 == k0 * d2,
                        k0 < 0,
                        d1 > 0,
                        d2 > 0,
                ;
                assert(2 * (-a2) <= d2) by (nonlinear_arith)
                    requires
                        a2 * d1 == k0 * d2,
                        2 * (-k0) <= d1,
                        k0 < 0,
                        d1 > 0,
                        d2 > 0,
                ;
            }
            assert(fle(fabs(mu2.frac()), fhalf()));
        }
        mu_fin = mu2;
    } else {
        proof {
            assert(fle(fabs(mu.frac()), fhalf()));
        }
        mu_fin = mu;
    }
    let n1_big = squared_norm(&b[1]);
    let musq = rat_mul(&mu_fin, &mu_fin);
    let n1_rat = Rat::from_big(&n1_big);
    let mprod = rat_mul(&musq, &c0);
    let c1 = rat_sub(&n1_rat, &mprod);
    proof {
        let aa = fsq(mu_fin.frac());
        let cc0 = c0.frac();
        assert(aa.d > 0) by (nonlinear_arith)
            requires
                mu_fin.frac().d > 0,
                aa == fsq(mu_fin.frac()),
        ;
        lemma_fmul_feq(musq.frac(), cc0, aa, cc0);
        lemma_feq_trans(mprod.frac(), fmul(musq.frac(), cc0), fmul(aa, cc0));
        let x = n1_rat.frac();
        crate::frac::lemma_fsub_feq(x, mprod.frac(), x, fmul(aa, cc0));
        lemma_feq_trans(c1.frac(), fsub(x, mprod.frac()), fsub(x, fmul(aa, cc0)));
        lemma_fsub_fadd(x, fmul(aa, cc0), c1.frac());
        lemma_fadd_feq(c1.frac(), fmul(aa, cc0), c1.frac(), fmul(aa, cc0));
        assert(feq(fadd(c1.frac(), fmul(aa, cc0)), x));
        assert(x == fint(sqnorm(b.deep_view()[1]))) by {
            assert(b.deep_view()[1] == b@[1].deep_view());
        }
    }
    (c0, mu_fin, c1)
}

/// The executable Lovasz test compares freshly combined rationals; this
/// carries its verdict over to the stored table entries.
proof fn lemma_test_transfer(delta: Rat, ck1: Rat, ck: Rat, mu: Rat, lhs: Rat, musq: Rat, t: Rat, rhs: Rat)
    requires
        delta.wf(),
        ck1.wf(),
        ck.wf(),
        mu.wf(),
        lhs.wf(),
        musq.wf(),
        t.wf(),
        rhs.wf(),
        feq(lhs.frac(), fmul(delta.frac(), ck1.frac())),
        feq(musq.frac(), fmul(mu.frac(), mu.frac())),
        feq(t.frac(), fmul(musq.frac(), ck1.frac())),
        feq(rhs.frac(), fadd(ck.frac(), t.frac())),
    ensures
        feq(rhs.frac(), fadd(ck.frac(), fmul(fsq(mu.frac()), ck1.frac()))),
        fok(fadd(ck.frac(), fmul(fsq(mu.frac()), ck1.frac()))),
        feq(lhs.frac(), fmul(delta.frac(), ck1.frac())),
        fok(fmul(delta.frac(), ck1.frac())),
{
    let sq = fsq(mu.frac());
    assert(sq.d > 0) by (nonlinear_arith)
        requires
            mu.frac().d > 0,
            sq == fsq(mu.frac()),
    ;
    lemma_fmul_feq(musq.frac(), ck1.frac(), sq, ck1.frac());
    lemma_feq_trans(t.frac(), fmul(musq.frac(), ck1.frac()), fmul(sq, ck1.frac()));
    lemma_fadd_feq(ck.frac(), t.frac(), ck.frac(), fmul(sq, ck1.frac()));
    lemma_feq_trans(rhs.frac(), fadd(ck.frac(), t.frac()), fadd(ck.frac(), fmul(sq, ck1.frac())));
    assert(fmul(delta.frac(), ck1.frac()).d > 0) by (nonlinear_arith)
        requires
            delta.frac().d > 0,
            ck1.frac().d > 0,
    ;
}

/// The Lenstra-Lenstra-Lovasz reducer over exact arithmetic.
///
/// The basis is reduced in place: rows are size-reduced, swapped while the
/// Lovasz condition fails, and rows that collapse to zero are removed.  The
/// returned tables are the Gram-Schmidt squared norms and coefficients of
/// the final basis rows; the third component reports that the sweep ran to
/// completion.
///
/// Completion is not promised by the contract.  Every loop here carries a
/// proved termination measure, and a proved bound on the number of
/// reduction steps would amount to the algorithm's termination theorem,
/// which is not formalized in this crate; the sweep instead runs on a step
/// budget of 2^64, which no feasible run exhausts, and the flag reports
/// whether it finished.  The lattice-span, first-row-norm and leading-norm
/// clauses below hold unconditionally; the reduction clauses
/// (size-reduction, the Lovasz condition, positive norms, no all-zero row)
/// hold whenever the flag is returned true.
///
/// Where the floating-point formulation of this algorithm guards against
/// cancellation by recomputing unreliable inner products over the integers,
/// this implementation computes every inner product over the integers to
/// begin with, so no unreliability arises and no recomputation flag is ever
/// raised internally.  The `fc` parameter of that formulation is kept: when
/// set, the first pass re-orthogonalizes one extra time.
///
/// What is proved: the lattice spanned by the rows is exactly preserved;
/// the first row's squared norm never increases; and on completion the
/// returned tables are size-reduced, satisfy the Lovasz condition at every
/// adjacent pair, and hold strictly positive squared norms.
#[verifier::rlimit(100)]
pub fn lll(b: &mut Vec<Vec<Big>>, delta: &Rat, fc: bool) -> (r: (Vec<Rat>, Vec<Vec<Rat>>, bool))
    requires
        old(b)@.len() >= 1,
        old(b)@[0]@.len() >= 1,
        basis_wf(old(b)@, old(b)@[0]@.len() as nat),
        row_nonzero(old(b)@[0].deep_view()),
        delta_ok(*delta),
    ensures
        1 <= final(b)@.len() <= old(b)@.len(),
        basis_wf(final(b)@, old(b)@[0]@.len() as nat),
        rows_in_span(final(b).deep_view(), old(b).deep_view(), old(b)@[0]@.len() as nat),
        rows_in_span(old(b).deep_view(), final(b).deep_view(), old(b)@[0]@.len() as nat),
        sqnorm(final(b).deep_view()[0]) <= sqnorm(old(b).deep_view()[0]),
        row_nonzero(final(b)@[0].deep_view()),
        r.0@.len() == final(b)@.len(),
        r.1@.len() == final(b)@.len(),
        feq(r.0@[0].frac(), fint(sqnorm(final(b).deep_view()[0]))),
        rat_seq_wf(r.0@),
        rat_mat_wf(r.1@),
        gs_rows_long(r.1@, final(b)@.len() as nat),
        r.2 ==> forall|i: int|
            0 <= i < final(b)@.len() ==> row_nonzero((#[trigger] final(b)@[i]).deep_view()),
        r.2 ==> size_reduced_upto(r.1@, final(b)@.len() as int),
        r.2 ==> lovasz_upto(delta.frac(), r.0@, r.1@, final(b)@.len() as int),
        r.2 ==> c_pos_upto(r.0@, final(b)@.len() as int),
{
    let n = b[0].len();
    let m0 = b.len();
    let mut c = zero_rats(m0);
    let mut gs: Vec<Vec<Rat>> = Vec::new();
    let mut t0: usize = 0;
    while t0 < m0
        invariant
            t0 <= m0,
            gs@.len() == t0,
            rat_mat_wf(gs@),
            gs_rows_long(gs@, m0 as nat),
        decreases m0 - t0,
    {
        gs.push(zero_rats(m0));
        t0 = t0 + 1;
    }
    proof {
        lemma_basis_wide(b, n as nat);
        lemma_rows_in_span_refl(b.deep_view(), n as nat);
        let jw = choose|j: int| 0 <= j < b@[0].deep_view().len() && b@[0].deep_view()[j] != 0;
        assert(b.deep_view()[0] == b@[0].deep_view());
        lemma_sqnorm_pos(b.deep_view()[0], jw);
    }
    let c0init = Rat::from_big(&squared_norm(&b[0]));
    c.set(0, c0init);
    let mut fcf = fc;
    let mut k: usize = 1;
    let mut fuel: u64 = 0xFFFF_FFFF_FFFF_FFFF;
    while k < b.len() && fuel > 0
        invariant
            1 <= k <= b@.len(),
            1 <= b@.len() <= m0,
            n >= 1,
            basis_wf(b@, n as nat),
            old(b)@.len() == m0,
            old(b)@[0]@.len() == n,
            basis_wf(old(b)@, n as nat),
            c@.len() == b@.len(),
            gs@.len() == b@.len(),
            rat_seq_wf(c@),
            rat_mat_wf(gs@),
            gs_rows_long(gs@, b@.len() as nat),
            c_pos_upto(c@, k as int),
            feq(c@[0].frac(), fint(sqnorm(b.deep_view()[0]))),
            size_reduced_upto(gs@, k as int),
            lovasz_upto(delta.frac(), c@, gs@, k as int),
            row_nonzero(b@[0].deep_view()),
            forall|i: int| 1 <= i < k ==> row_nonzero((#[trigger] b@[i]).deep_view()),
            rows_in_span(b.deep_view(), old(b).deep_view(), n as nat),
            rows_in_span(old(b).deep_view(), b.deep_view(), n as nat),
            sqnorm(b.deep_view()[0]) <= sqnorm(old(b).deep_view()[0]),
            delta_ok(*delta),
        decreases fuel,
    {
        fuel = fuel - 1;
        let ghost b_entry = b.deep_view();
        let ghost gs_entry = gs@;
        let ghost c_entry = c@;
        if k == 1 {
            let (c0, mu, c1) = reduce_pair01(b, n);
            proof {
                lemma_basis_wide(b, n as nat);
                lemma_rows_in_span_trans(b.deep_view(), b_entry, old(b).deep_view(), n as nat);
                lemma_rows_in_span_trans(old(b).deep_view(), b_entry, b.deep_view(), n as nat);
                assert(b.deep_view()[0] == b_entry[0]);
            }
            c.set(0, c0);
            c.set(1, c1);
            let mut g1 = zero_rats(b.len());
            g1.set(0, mu);
            gs.set(1, g1);
            proof {
                assert forall|j: int| 0 <= j < k implies mu_small(gs@, k as int, j) by {
                    assert(gs@[1]@[0].frac() == mu.frac());
                }
            }
        } else {
            let (mut gk, ck) = gso_row(b, &c, &gs, k, n);
            size_reduce_row(b, &gs, &mut gk, k, n);
            proof {
                lemma_basis_wide(b, n as nat);
                lemma_rows_in_span_trans(b.deep_view(), b_entry, old(b).deep_view(), n as nat);
                lemma_rows_in_span_trans(old(b).deep_view(), b_entry, b.deep_view(), n as nat);
                assert(b.deep_view()[0] == b_entry[0]);
            }
            gs.set(k, gk);
            c.set(k, ck);
            proof {
                assert forall|j: int| 0 <= j < k implies mu_small(gs@, k as int, j) by {
                    assert(fle(fabs(gs@[k as int]@[j].frac()), fhalf()));
                }
            }
        }
        proof {
            assert forall|i: int, j: int| 1 <= i < k && 0 <= j < i implies mu_small(
                gs@,
                i,
                j,
            ) by {
                assert(mu_small(gs_entry, i, j));
                assert(gs@[i] == gs_entry[i]);
            }
            assert(size_reduced_upto(gs@, k as int));
            assert forall|i: int| 1 <= i < k implies lovasz_at(delta.frac(), c@, gs@, i) by {
                assert(lovasz_at(delta.frac(), c_entry, gs_entry, i));
                assert(gs@[i] == gs_entry[i]);
                assert(c@[i] == c_entry[i]);
                assert(c@[i - 1] == c_entry[i - 1]);
            }
            assert(lovasz_upto(delta.frac(), c@, gs@, k as int));
            assert forall|i: int| 0 <= i < k implies (#[trigger] c@[i]).frac().n > 0 by {
                if k > 1 {
                    assert(c@[i] == c_entry[i]);
                    assert(c_entry[i].frac().n > 0);
                }
            }
            assert(c_pos_upto(c@, k as int));
        }
        if fcf {
            // one forced re-orthogonalization pass, kept from the
            // floating-point formulation of the algorithm
            fcf = false;
            k = if k > 1 {
                k - 1
            } else {
                1
            };
        } else if is_zero(&b[k]) {
            // a row that collapsed to the zero vector leaves the basis
            let ghost bdv = b.deep_view();
            proof {
                lemma_basis_wide(b, n as nat);
                assert(bdv[k as int] =~= crate::linalg::zero_row(n as nat)) by {
                    assert(bdv[k as int] == b@[k as int].deep_view());
                }
                crate::linalg::lemma_span_remove_zero(bdv, k as int, n as nat);
            }
            let _rb = b.remove(k);
            let _rc = c.remove(k);
            let _rg = gs.remove(k);
            proof {
                assert(b.deep_view() =~= bdv.remove(k as int));
                lemma_rows_in_span_trans(b.deep_view(), bdv, old(b).deep_view(), n as nat);
                lemma_rows_in_span_trans(old(b).deep_view(), bdv, b.deep_view(), n as nat);
                assert(b.deep_view()[0] == bdv[0]);
            }
            k = 1;
        } else {
            let lhs = rat_mul(delta, &c[k - 1]);
            let musq = rat_mul(&gs[k][k - 1], &gs[k][k - 1]);
            let tprod = rat_mul(&musq, &c[k - 1]);
            let rhs = rat_add(&c[k], &tprod);
            proof {
                lemma_test_transfer(
                    *delta,
                    c@[k - 1],
                    c@[k as int],
                    gs@[k as int]@[k - 1],
                    lhs,
                    musq,
                    tprod,
                    rhs,
                );
            }
            if rat_lt(&rhs, &lhs) {
                let ghost bdv = b.deep_view();
                let ghost pre_rows = b@;
                let ghost nn1 = sqnorm(bdv[1]);
                let ghost nn0 = sqnorm(bdv[0]);
                proof {
                    lemma_basis_wide(b, n as nat);
                    crate::linalg::lemma_span_swap(bdv, k as int, n as nat);
                    if k == 1 {
                        // the leading swap strictly shortens the first row:
                        // the test verdict, read through the recomputed
                        // tables, says the second row is shorter
                        let muf = gs@[1]@[0].frac();
                        let c0f = c@[0].frac();
                        let c1f = c@[1].frac();
                        assert(c0f == (Frac { n: nn0, d: 1int }));
                        assert(feq(fadd(c1f, fmul(fsq(muf), c0f)), fint(nn1)));
                        lemma_feq_trans(
                            rhs.frac(),
                            fadd(c1f, fmul(fsq(muf), c0f)),
                            fint(nn1),
                        );
                        lemma_flt_subst(
                            rhs.frac(),
                            lhs.frac(),
                            fint(nn1),
                            fmul(delta.frac(), c0f),
                        );
                        assert(delta.frac().n < delta.frac().d);
                        assert(flt(fmul(delta.frac(), c0f), fint(nn0))) by (nonlinear_arith)
                            requires
                                c0f == (Frac { n: nn0, d: 1int }),
                                delta.frac().n < delta.frac().d,
                                delta.frac().d > 0,
                                nn0 > 0,
                        ;
                        crate::frac::lemma_flt_trans(
                            fint(nn1),
                            fmul(delta.frac(), c0f),
                            fint(nn0),
                        );
                        assert(nn1 < nn0);
                    }
                }
                let rk = b.remove(k);
                b.insert(k - 1, rk);
                proof {
                    assert(b@ =~= pre_rows.update(k - 1, pre_rows[k as int]).update(
                        k as int,
                        pre_rows[k - 1],
                    ));
                    assert forall|i: int| 0 <= i < b@.len() implies (#[trigger] b@[i])@.len()
                        == n && (forall|j: int| 0 <= j < n ==> (#[trigger] b@[i]@[j]).wf()) by {
                        if i == k - 1 {
                            assert(b@[i] == pre_rows[k as int]);
                        } else if i == k {
                            assert(b@[i] == pre_rows[k - 1]);
                        } else {
                            assert(b@[i] == pre_rows[i]);
                        }
                    }
                    assert(basis_wf(b@, n as nat));
                    lemma_basis_wide(b, n as nat);
                    assert(b.deep_view() =~= bdv.update(k - 1, bdv[k as int]).update(
                        k as int,
                        bdv[k - 1],
                    ));
                    lemma_rows_in_span_trans(b.deep_view(), bdv, old(b).deep_view(), n as nat);
                    lemma_rows_in_span_trans(old(b).deep_view(), bdv, b.deep_view(), n as nat);
                    if k == 1 {
                        assert(b.deep_view()[0] == bdv[1]);
                        assert(sqnorm(b.deep_view()[0]) == nn1);
                        assert(row_nonzero(b@[0].deep_view())) by {
                            assert(b@[0].deep_view() == bdv[1]);
                            assert(!(forall|j: int|
                                0 <= j < pre_rows[1]@.len() ==> pre_rows[1].deep_view()[j]
                                    == 0));
                            let jw = choose|j: int|
                                !(0 <= j < pre_rows[1]@.len()
                                    ==> pre_rows[1].deep_view()[j] == 0);
                            assert(bdv[1] == pre_rows[1].deep_view());
                            assert(0 <= jw < bdv[1].len() && bdv[1][jw] != 0);
                        }
                    } else {
                        assert(b.deep_view()[0] == bdv[0]);
                    }
                }
                if k == 1 {
                    // the next pass would recompute the leading norm from
                    // the swapped basis; store it now so the table always
                    // describes the current first row
                    let c0new = Rat::from_big(&squared_norm(&b[0]));
                    c.set(0, c0new);
                    proof {
                        assert(b.deep_view()[0] == b@[0].deep_view());
                        assert(c@[0].frac() == (Frac { n: sqnorm(b.deep_view()[0]), d: 1int }));
                        let jw2 = choose|jj: int|
                            0 <= jj < b@[0].deep_view().len() && b@[0].deep_view()[jj] != 0;
                        lemma_sqnorm_pos(b.deep_view()[0], jw2);
                    }
                }
                k = if k > 1 {
                    k - 1
                } else {
                    1
                };
            } else {
                proof {
                    lemma_fle_subst(
                        lhs.frac(),
                        rhs.frac(),
                        fmul(delta.frac(), c@[k - 1].frac()),
                        fadd(
                            c@[k as int].frac(),
                            fmul(fsq(gs@[k as int]@[k - 1].frac()), c@[k - 1].frac()),
                        ),
                    );
                    assert(lovasz_at(delta.frac(), c@, gs@, k as int));
                    assert(mu_small(gs@, k as int, k - 1));
                    lemma_advance_pos(
                        delta.frac(),
                        c@[k - 1].frac(),
                        c@[k as int].frac(),
                        gs@[k as int]@[k - 1].frac(),
                    );
                    assert(size_reduced_upto(gs@, (k + 1) as int)) by {
                        assert forall|i: int, j: int|
                            1 <= i < k + 1 && 0 <= j < i implies mu_small(gs@, i, j) by {
                            if i == k {
                                assert(mu_small(gs@, k as int, j));
                            }
                        }
                    }
                    assert(lovasz_upto(delta.frac(), c@, gs@, (k + 1) as int)) by {
                        assert forall|i: int|
                            1 <= i < k + 1 implies lovasz_at(delta.frac(), c@, gs@, i) by {
                            if i == k as int {
                                assert(lovasz_at(delta.frac(), c@, gs@, k as int));
                            }
                        }
                    }
                    assert(row_nonzero(b@[k as int].deep_view())) by {
                        assert(!(forall|x: int|
                            0 <= x < b@[k as int]@.len() ==> b@[k as int].deep_view()[x] == 0));
                        let xw = choose|x: int|
                            !(0 <= x < b@[k as int]@.len() ==> b@[k as int].deep_view()[x]
                                == 0);
                        assert(b@[k as int].deep_view().len() == b@[k as int]@.len());
                        assert(0 <= xw < b@[k as int].deep_view().len() && b@[
                            k as int].deep_view()[xw] != 0);
                    }
                }
                k = k + 1;
            }
        }
    }
    let done = k >= b.len();
    proof {
        if done {
            assert forall|i: int|
                0 <= i < b@.len() implies row_nonzero((#[trigger] b@[i]).deep_view()) by {
                if i == 0 {
                    assert(row_nonzero(b@[0].deep_view()));
                }
            }
        }
    }
    (c, gs, done)
}

} // verus!
