use vstd::prelude::*;
use crate::big::Big;
use crate::big::big_add;
use crate::big::big_mul;
use crate::big::big_cmp;
use crate::rat::Rat;
use crate::rat::rat_add;
use crate::rat::rat_mul;
use crate::rat::rat_lt;
use crate::rat::rat_neg;
use crate::rat::rat_round;
use crate::frac::fle;
use crate::frac::flt;
use crate::frac::feq;
use crate::linalg::basis_wf;
use crate::linalg::rows_in_span;
use crate::linalg::in_span;
use crate::linalg::lin_comb;
use crate::linalg::row_add;
use crate::linalg::row_scaled;
use crate::linalg::zero_row;
use crate::linalg::sqnorm;
use crate::linalg::squared_norm;
use crate::linalg::is_zero;
use crate::linalg::lemma_lin_comb_len;
use crate::linalg::lemma_unit_comb;
use crate::linalg::lemma_span_trans;
use crate::linalg::lemma_rows_in_span_trans;
use crate::lll::lll;
use crate::lll::lemma_basis_wide;
use crate::lll::rat_seq_wf;
use crate::lll::rat_mat_wf;
use crate::lll::gs_rows_long;
use crate::lll::row_nonzero;
use crate::lll::delta_ok;
use crate::lll::zero_rats;
use crate::lll::lovasz_upto;
use crate::lll::size_reduced_upto;
use crate::lll::c_pos_upto;
use crate::frac::fint;

verus! {

/// A row of zero integers, as `Big` values.
fn zero_bigs(m: usize) -> (r: Vec<Big>)
    ensures
        r@.len() == m,
        forall|i: int| 0 <= i < m ==> (#[trigger] r@[i]).wf(),
        forall|i: int| 0 <= i < m ==> (#[trigger] r@[i])@ == 0,
        forall|i: int| 0 <= i < m ==> r.deep_view()[i] == 0,
{
    let mut r: Vec<Big> = Vec::new();
    let mut i: usize = 0;
    while i < m
        invariant
            i <= m,
            r@.len() == i,
            forall|t: int| 0 <= t < i ==> (#[trigger] r@[t]).wf(),
            forall|t: int| 0 <= t < i ==> r@[t]@ == 0,
        decreases m - i,
    {
        r.push(Big::zero());
        i = i + 1;
    }
    r
}

/// The untouched enumeration seed: coefficient one at the window start
/// and zero everywhere else.
pub open spec fn unit_window_seed(u: Seq<Big>, j: int) -> bool {
    forall|i: int|
        0 <= i < u.len() ==> (#[trigger] u[i])@ == if i == j {
            1int
        } else {
            0int
        }
}

/// The weighted sum of basis rows `j ..= k` with the coefficients
/// `u[j ..= k]`: one candidate lattice vector, built with exact integer
/// arithmetic.
pub fn sum_ui_bi(u: &Vec<Big>, b: &Vec<Vec<Big>>, j: usize, k: usize) -> (r: Vec<Big>)
    requires
        b@.len() >= 1,
        basis_wf(b@, b@[0]@.len() as nat),
        j <= k < b@.len(),
        k + 2 <= usize::MAX,
        k + 1 <= u@.len(),
        forall|i: int| 0 <= i < u@.len() ==> (#[trigger] u@[i]).wf(),
    ensures
        r@.len() == b@[0]@.len(),
        forall|x: int| 0 <= x < r@.len() ==> (#[trigger] r@[x]).wf(),
        r.deep_view() == lin_comb(
            u.deep_view().subrange(j as int, k + 1),
            b.deep_view().subrange(j as int, k + 1),
            b@[0]@.len() as nat,
        ),
        in_span(r.deep_view(), b.deep_view(), b@[0]@.len() as nat),
{
    let ghost n = b@[0]@.len() as nat;
    let n_ex = b[0].len();
    let mut acc = zero_bigs(n_ex);
    proof {
        lemma_basis_wide(b, n);
        assert(u.deep_view().subrange(j as int, j as int) =~= Seq::<int>::empty());
        assert(b.deep_view().subrange(j as int, j as int) =~= Seq::<Seq<int>>::empty());
        assert(acc.deep_view() =~= zero_row(n));
    }
    let mut i: usize = j;
    while i <= k
        invariant
            j <= i <= k + 1,
            k + 2 <= usize::MAX,
            k < b@.len(),
            k + 1 <= u@.len(),
            b@.len() >= 1,
            n == b@[0]@.len(),
            n_ex == n,
            basis_wf(b@, n),
            forall|t: int| 0 <= t < u@.len() ==> (#[trigger] u@[t]).wf(),
            acc@.len() == n,
            forall|x: int| 0 <= x < n ==> (#[trigger] acc@[x]).wf(),
            acc.deep_view() == lin_comb(
                u.deep_view().subrange(j as int, i as int),
                b.deep_view().subrange(j as int, i as int),
                n,
            ),
        decreases k + 1 - i,
    {
        let ghost acc_pre = acc.deep_view();
        let mut newacc: Vec<Big> = Vec::new();
        let mut x: usize = 0;
        while x < n_ex
            invariant
                x <= n_ex,
                i <= k,
                k < b@.len(),
                k + 1 <= u@.len(),
                n == b@[0]@.len(),
                n_ex == n,
                basis_wf(b@, n),
                forall|t: int| 0 <= t < u@.len() ==> (#[trigger] u@[t]).wf(),
                acc@.len() == n,
                forall|t: int| 0 <= t < n ==> (#[trigger] acc@[t]).wf(),
                acc.deep_view() == acc_pre,
                newacc@.len() == x,
                forall|t: int| 0 <= t < x ==> (#[trigger] newacc@[t]).wf(),
                forall|t: int|
                    0 <= t < x ==> (#[trigger] newacc@[t])@ == acc@[t]@ + u@[i as int]@ * b@[
                        i as int]@[t]@,
            decreases n_ex - x,
        {
            assert(b@[i as int]@[x as int].wf());
            let ghost newacc_pre = newacc@;
            let val = big_add(&acc[x], &big_mul(&u[i], &b[i][x]));
            newacc.push(val);
            proof {
                assert(newacc@ == newacc_pre.push(val));
                assert forall|t: int|
                    0 <= t < x + 1 implies (#[trigger] newacc@[t])@ == acc@[t]@ + u@[i as int]@
                        * b@[i as int]@[t]@ by {
                    if t < x {
                        assert(newacc@[t] == newacc_pre[t]);
                    }
                }
            }
            x = x + 1;
        }
        acc = newacc;
        proof {
            lemma_basis_wide(b, n);
            let cs = u.deep_view().subrange(j as int, i + 1);
            let rs = b.deep_view().subrange(j as int, i + 1);
            assert(cs.drop_last() =~= u.deep_view().subrange(j as int, i as int));
            assert(rs.drop_last() =~= b.deep_view().subrange(j as int, i as int));
            assert(rs.last() == b.deep_view()[i as int]);
            assert(cs.last() == u.deep_view()[i as int]);
            lemma_lin_comb_len(cs.drop_last(), rs.drop_last(), n);
            assert(acc.deep_view() =~= row_add(
                lin_comb(cs.drop_last(), rs.drop_last(), n),
                row_scaled(cs.last(), rs.last()),
            )) by {
                assert forall|t: int| 0 <= t < n implies acc.deep_view()[t] == row_add(
                    lin_comb(cs.drop_last(), rs.drop_last(), n),
                    row_scaled(cs.last(), rs.last()),
                )[t] by {
                    assert(acc.deep_view()[t] == acc@[t]@);
                    assert(acc@[t]@ == acc_pre[t] + u@[i as int]@ * b@[i as int]@[t]@);
                    assert(u.deep_view()[i as int] == u@[i as int]@);
                    assert(b.deep_view()[i as int] == b@[i as int].deep_view());
                    assert(b@[i as int].deep_view()[t] == b@[i as int]@[t]@);
                }
            }
        }
        i = i + 1;
    }
    proof {
        let cs = u.deep_view().subrange(j as int, k + 1);
        let rs = b.deep_view().subrange(j as int, k + 1);
        lemma_basis_wide(b, n);
        assert forall|t: int| 0 <= t < rs.len() implies in_span(#[trigger] rs[t], b.deep_view(), n) by {
            assert(rs[t] == b.deep_view()[j + t]);
            lemma_unit_comb(b.deep_view(), n, j + t);
        }
        assert(in_span(acc.deep_view(), rs, n));
        lemma_span_trans(acc.deep_view(), rs, b.deep_view(), n);
    }
    acc
}

/// Depth-first, branch-and-bound enumeration of the coefficient vectors
/// `u[j ..= k]` over the projected block, pruning any partial combination
/// whose accumulated squared norm already reaches the best bound found so
/// far, which starts at the stored norm of position `j`.  Candidates at
/// each level are visited in a zig-zag around the rounded continuous
/// optimum.  Returns the best coefficient vector, its squared-norm bound
/// (never above the stored norm of position `j`), and the combined lattice
/// vector it describes.
///
/// What is proved: the combined vector is exactly the integer combination
/// of the window rows under the returned coefficients, coefficients
/// outside the window are zero, and either the untouched seed comes back
/// with exactly the starting bound, or the bound strictly improved on it.
/// That the bound is minimal over the whole search space is not part of
/// the contract: relating the pruned traversal to the set of all
/// coefficient vectors needs the stored tables to be the true
/// Gram-Schmidt data of the basis, a connection this crate does not
/// formalize.
pub fn bkz_enum(b: &Vec<Vec<Big>>, c: &Vec<Rat>, gs: &Vec<Vec<Rat>>, j: usize, k: usize) -> (r: (
    Vec<Big>,
    Rat,
    Vec<Big>,
))
    requires
        b@.len() >= 1,
        basis_wf(b@, b@[0]@.len() as nat),
        j <= k < b@.len(),
        k + 2 <= usize::MAX,
        c@.len() == b@.len(),
        gs@.len() == b@.len(),
        rat_seq_wf(c@),
        rat_mat_wf(gs@),
        gs_rows_long(gs@, b@.len() as nat),
    ensures
        r.0@.len() == k + 2,
        forall|i: int| 0 <= i < r.0@.len() ==> (#[trigger] r.0@[i]).wf(),
        forall|i: int|
            0 <= i < r.0@.len() && !(j <= i <= k) ==> (#[trigger] r.0@[i])@ == 0,
        r.1.wf(),
        fle(r.1.frac(), c@[j as int].frac()),
        (unit_window_seed(r.0@, j as int) && feq(r.1.frac(), c@[j as int].frac())) || flt(
            r.1.frac(),
            c@[j as int].frac(),
        ),
        r.2@.len() == b@[0]@.len(),
        forall|x: int| 0 <= x < r.2@.len() ==> (#[trigger] r.2@[x]).wf(),
        r.2.deep_view() == lin_comb(
            r.0.deep_view().subrange(j as int, k + 1),
            b.deep_view().subrange(j as int, k + 1),
            b@[0]@.len() as nat,
        ),
        in_span(r.2.deep_view(), b.deep_view(), b@[0]@.len() as nat),
{
    let vec_size = k + 2;
    let mut c_j = c[j].copy();
    let mut u = zero_bigs(vec_size);
    let mut u_ = zero_bigs(vec_size);
    let mut big_delta = zero_bigs(vec_size);
    let mut y = zero_rats(vec_size);
    let mut dlt: Vec<i64> = Vec::new();
    let mut c_ = zero_rats(vec_size);
    let mut v = zero_bigs(vec_size);
    let mut t0: usize = 0;
    while t0 < vec_size
        invariant
            t0 <= vec_size,
            dlt@.len() == t0,
        decreases vec_size - t0,
    {
        dlt.push(1);
        t0 = t0 + 1;
    }
    u.set(j, Big::from_i64(1));
    u_.set(j, Big::from_i64(1));
    proof {
        assert(unit_window_seed(u@, j as int));
    }

    let mut t: usize = j;
    let mut s_lvl: usize = j;
    let mut fuel: u64 = 0xFFFF_FFFF_FFFF_FFFF;
    while t <= k && fuel > 0
        invariant
            j <= t,
            t <= k + 1,
            t <= s_lvl || t == s_lvl + 1 || t <= k,
            j <= s_lvl <= k + 1,
            t <= k ==> s_lvl <= k,
            t <= k ==> t <= s_lvl,
            j <= k < b@.len(),
            vec_size == k + 2,
            c@.len() == b@.len(),
            gs@.len() == b@.len(),
            rat_seq_wf(c@),
            rat_mat_wf(gs@),
            gs_rows_long(gs@, b@.len() as nat),
            u@.len() == vec_size,
            u_@.len() == vec_size,
            big_delta@.len() == vec_size,
            y@.len() == vec_size,
            dlt@.len() == vec_size,
            c_@.len() == vec_size,
            v@.len() == vec_size,
            forall|i: int| 0 <= i < vec_size ==> (#[trigger] u@[i]).wf(),
            forall|i: int| 0 <= i < vec_size ==> (#[trigger] u_@[i]).wf(),
            forall|i: int| 0 <= i < vec_size ==> (#[trigger] big_delta@[i]).wf(),
            forall|i: int| 0 <= i < vec_size ==> (#[trigger] v@[i]).wf(),
            rat_seq_wf(y@),
            rat_seq_wf(c_@),
            c_j.wf(),
            fle(c_j.frac(), c@[j as int].frac()),
            forall|i: int| 0 <= i < vec_size && !(j <= i <= k) ==> (#[trigger] u@[i])@ == 0,
            (unit_window_seed(u@, j as int) && feq(c_j.frac(), c@[j as int].frac())) || flt(
                c_j.frac(),
                c@[j as int].frac(),
            ),
        decreases fuel,
    {
        fuel = fuel - 1;
        let w = rat_add(&y[t], &Rat::from_big(&u_[t]));
        let cval = rat_add(&c_[t + 1], &rat_mul(&rat_mul(&w, &w), &c[t]));
        c_.set(t, cval);
        if rat_lt(&c_[t], &c_j) {
            if t > j {
                t = t - 1;
                let mut sum = Rat::from_i64(0);
                let mut i: usize = t + 1;
                while i <= s_lvl
                    invariant
                        t + 1 <= i <= s_lvl + 1,
                        s_lvl <= k,
                        t < k,
                        k < gs@.len(),
                        rat_mat_wf(gs@),
                        gs_rows_long(gs@, gs@.len() as nat),
                        u_@.len() == vec_size,
                        vec_size == k + 2,
                        forall|q: int| 0 <= q < vec_size ==> (#[trigger] u_@[q]).wf(),
                        sum.wf(),
                    decreases s_lvl + 1 - i,
                {
                    assert(gs@[i as int]@.len() >= gs@.len());
                    assert(gs@[i as int]@[t as int].wf());
                    sum = rat_add(&sum, &rat_mul(&Rat::from_big(&u_[i]), &gs[i][t]));
                    i = i + 1;
                }
                y.set(t, sum);
                let vt = rat_round(&rat_neg(&y[t]));
                u_.set(t, vt.copy());
                v.set(t, vt);
                big_delta.set(t, Big::zero());
                let negy = rat_neg(&y[t]);
                let step: i64 = if rat_lt(&negy, &Rat::from_big(&u_[t])) {
                    -1
                } else {
                    1
                };
                dlt.set(t, step);
            } else {
                let ghost old_cj = c_j;
                c_j = c_[j].copy();
                proof {
                    crate::frac::lemma_flt_fle_trans(
                        c_j.frac(),
                        old_cj.frac(),
                        c@[j as int].frac(),
                    );
                }
                let mut i: usize = j;
                while i <= k
                    invariant
                        j <= i <= k + 1,
                        vec_size == k + 2,
                        u@.len() == vec_size,
                        u_@.len() == vec_size,
                        forall|q: int| 0 <= q < vec_size ==> (#[trigger] u@[q]).wf(),
                        forall|q: int| 0 <= q < vec_size ==> (#[trigger] u_@[q]).wf(),
                        forall|q: int|
                            0 <= q < vec_size && !(j <= q <= k) ==> (#[trigger] u@[q])@ == 0,
                    decreases k + 1 - i,
                {
                    u.set(i, u_[i].copy());
                    i = i + 1;
                }
            }
        } else {
            t = t + 1;
            if t > s_lvl {
                s_lvl = t;
            }
            if t < s_lvl {
                big_delta.set(t, big_delta[t].neg_of());
            }
            let nonneg_product: bool = if dlt[t] >= 0 {
                !big_delta[t].is_neg()
            } else {
                big_delta[t].is_neg() || big_delta[t].is_zero()
            };
            if nonneg_product {
                big_delta.set(t, big_add(&big_delta[t], &Big::from_i64(dlt[t])));
            }
            u_.set(t, big_add(&v[t], &big_delta[t]));
        }
    }
    let bj_new = sum_ui_bi(&u, b, j, k);
    (u, c_j, bj_new)
}

/// The block Korkine-Zolotarev driver: a round-robin sweep of enumeration
/// windows over the basis.  A window whose enumeration finds a combination
/// shorter than the current leading vector of the window (scaled by
/// `delta`) has that combination spliced in front of it, followed by a full
/// re-reduction; otherwise the sweep advances, re-running the reducer to
/// keep the tables consistent.  The sweep stops after a full pass without
/// improvement anywhere (or, in principle, when the internal step budget
/// runs out, which no feasible run reaches).  Returned are the reducer's
/// norm and coefficient tables for the final basis, and whether the sweep
/// and the last reduction both ran to completion.  As for the reducer,
/// completion itself is not promised by the contract, and the terminal
/// no-improvement state is not stated: it would need the enumerator's
/// minimality, which is not formalized here.
///
/// What is proved: every row of the final basis lies in the lattice
/// spanned by the input rows; the squared norm of the leading vector never
/// increases; the leading norm entry of the returned tables is exactly the
/// final first row's squared norm; and on completion the final basis is
/// reduced: its tables are size-reduced, satisfy the Lovasz condition at
/// every adjacent pair with positive norms, and no all-zero row remains.
pub fn bkz(b: &mut Vec<Vec<Big>>, beta: usize, delta: &Rat) -> (r: (Vec<Rat>, Vec<Vec<Rat>>, bool))
    requires
        old(b)@.len() >= 1,
        old(b)@[0]@.len() >= 1,
        basis_wf(old(b)@, old(b)@[0]@.len() as nat),
        row_nonzero(old(b)@[0].deep_view()),
        delta_ok(*delta),
        beta >= 1,
    ensures
        1 <= final(b)@.len(),
        basis_wf(final(b)@, old(b)@[0]@.len() as nat),
        rows_in_span(final(b).deep_view(), old(b).deep_view(), old(b)@[0]@.len() as nat),
        sqnorm(final(b).deep_view()[0]) <= sqnorm(old(b).deep_view()[0]),
        row_nonzero(final(b)@[0].deep_view()),
        r.0@.len() == final(b)@.len(),
        r.1@.len() == final(b)@.len(),
        rat_seq_wf(r.0@),
        rat_mat_wf(r.1@),
        gs_rows_long(r.1@, final(b)@.len() as nat),
        feq(r.0@[0].frac(), fint(sqnorm(final(b).deep_view()[0]))),
        r.2 ==> lovasz_upto(delta.frac(), r.0@, r.1@, final(b)@.len() as int),
        r.2 ==> size_reduced_upto(r.1@, final(b)@.len() as int),
        r.2 ==> c_pos_upto(r.0@, final(b)@.len() as int),
        r.2 ==> forall|i: int|
            0 <= i < final(b)@.len() ==> row_nonzero((#[trigger] final(b)@[i]).deep_view()),
{
    let ghost n = old(b)@[0]@.len() as nat;
    let n_ex = b[0].len();
    let (mut c, mut gs, mut tables_ok) = lll(b, delta, false);
    let mut z: usize = 0;
    let mut j: usize = 0;
    let mut fuel: u64 = 0xFFFF_FFFF_FFFF_FFFF;
    while z < b.len() - 1 && fuel > 0 && b.len() < 0x1000_0000
        invariant
            1 <= b@.len(),
            n == old(b)@[0]@.len(),
            n >= 1,
            basis_wf(b@, n),
            basis_wf(old(b)@, n),
            j < b@.len(),
            c@.len() == b@.len(),
            gs@.len() == b@.len(),
            rat_seq_wf(c@),
            rat_mat_wf(gs@),
            gs_rows_long(gs@, b@.len() as nat),
            rows_in_span(b.deep_view(), old(b).deep_view(), n),
            sqnorm(b.deep_view()[0]) <= sqnorm(old(b).deep_view()[0]),
            row_nonzero(b@[0].deep_view()),
            feq(c@[0].frac(), fint(sqnorm(b.deep_view()[0]))),
            tables_ok ==> lovasz_upto(delta.frac(), c@, gs@, b@.len() as int),
            tables_ok ==> size_reduced_upto(gs@, b@.len() as int),
            tables_ok ==> c_pos_upto(c@, b@.len() as int),
            tables_ok ==> forall|i: int|
                0 <= i < b@.len() ==> row_nonzero((#[trigger] b@[i]).deep_view()),
            delta_ok(*delta),
        decreases fuel,
    {
        fuel = fuel - 1;
        let m = b.len();
        let kk = if beta <= m - 1 - j {
            j + beta
        } else {
            m - 1
        };
        let (_u, c_j, bj_new) = bkz_enum(b, &c, &gs, j, kk);
        let h = if kk + 1 <= m - 1 {
            kk + 1
        } else {
            m - 1
        };
        let lhs = rat_mul(delta, &c[j]);
        let mut improved = rat_lt(&c_j, &lhs);
        if improved && j == 0 {
            // before splicing at the front, check the improvement on the
            // exact integer norms, which the first-vector bound rests on
            let better = !matches!(
                big_cmp(&squared_norm(&bj_new), &squared_norm(&b[0])),
                core::cmp::Ordering::Greater
            );
            if !(better && !is_zero(&bj_new)) {
                improved = false;
            }
        }
        if improved {
            let ghost bdv = b.deep_view();
            let ghost pre_rows = b@;
            proof {
                lemma_basis_wide(b, n);
            }
            b.truncate(h + 1);
            b.insert(j, bj_new);
            proof {
                assert forall|i: int| 0 <= i < b@.len() implies (#[trigger] b@[i])@.len() == n
                    && (forall|x: int| 0 <= x < n ==> (#[trigger] b@[i]@[x]).wf()) by {
                    if i < j {
                        assert(b@[i] == pre_rows[i]);
                    } else if i > j {
                        assert(b@[i] == pre_rows[i - 1]);
                    }
                }
                assert(basis_wf(b@, n));
                lemma_basis_wide(b, n);
                assert forall|i: int| 0 <= i < b.deep_view().len() implies in_span(
                    #[trigger] b.deep_view()[i],
                    bdv,
                    n,
                ) by {
                    if i < j {
                        assert(b.deep_view()[i] == bdv[i]);
                        lemma_unit_comb(bdv, n, i);
                    } else if i == j {
                        assert(b.deep_view()[i] == bj_new.deep_view());
                    } else {
                        assert(b.deep_view()[i] == bdv[i - 1]);
                        lemma_unit_comb(bdv, n, i - 1);
                    }
                }
                lemma_rows_in_span_trans(b.deep_view(), bdv, old(b).deep_view(), n);
                if j == 0 {
                    assert(b.deep_view()[0] == bj_new.deep_view());
                    assert(sqnorm(b.deep_view()[0]) <= sqnorm(bdv[0]));
                    assert(row_nonzero(b@[0].deep_view())) by {
                        assert(b@[0].deep_view() == bj_new.deep_view());
                        assert(!(forall|x: int|
                            0 <= x < bj_new@.len() ==> bj_new.deep_view()[x] == 0));
                        let xw = choose|x: int|
                            !(0 <= x < bj_new@.len() ==> bj_new.deep_view()[x] == 0);
                        assert(0 <= xw < bj_new.deep_view().len() && bj_new.deep_view()[xw]
                            != 0);
                    }
                } else {
                    assert(b.deep_view()[0] == bdv[0]);
                }
            }
            let ghost b_mid = b.deep_view();
            let (c2, gs2, f2) = lll(b, delta, true);
            c = c2;
            gs = gs2;
            tables_ok = f2;
            proof {
                lemma_rows_in_span_trans(b.deep_view(), b_mid, old(b).deep_view(), n);
            }
            z = 0;
        } else {
            z = z + 1;
            let ghost b_mid = b.deep_view();
            let (c2, gs2, f2) = lll(b, delta, false);
            c = c2;
            gs = gs2;
            tables_ok = f2;
            proof {
                lemma_rows_in_span_trans(b.deep_view(), b_mid, old(b).deep_view(), n);
            }
        }
        j = j + 1;
        if j + 1 >= b.len() {
            j = 0;
        }
    }
    let swept = z >= b.len() - 1;
    (c, gs, swept && tables_ok)
}

} // verus!
