use vstd::prelude::*;
use crate::big::Big;
use crate::big::big_add;
use crate::big::big_sub;
use crate::big::big_mul;

verus! {

/// Sum of the pairwise products of two integer rows of equal length.
pub open spec fn dot(a: Seq<int>, b: Seq<int>) -> int
    decreases a.len(),
{
    if a.len() == 0 || b.len() == 0 {
        0
    } else {
        dot(a.drop_last(), b.drop_last()) + a.last() * b.last()
    }
}

/// The squared Euclidean norm of an integer row.
pub open spec fn sqnorm(a: Seq<int>) -> int {
    dot(a, a)
}

/// The all-zero row of a given width.
pub open spec fn zero_row(n: nat) -> Seq<int> {
    Seq::new(n, |i: int| 0)
}

/// A row scaled by an integer.
pub open spec fn row_scaled(c: int, a: Seq<int>) -> Seq<int> {
    Seq::new(a.len(), |i: int| c * a[i])
}

/// Pointwise sum of two rows of equal length.
pub open spec fn row_add(a: Seq<int>, b: Seq<int>) -> Seq<int> {
    Seq::new(a.len(), |i: int| a[i] + b[i])
}

/// `a - c * b`, pointwise.
pub open spec fn row_sub_scaled(a: Seq<int>, b: Seq<int>, c: int) -> Seq<int> {
    Seq::new(a.len(), |i: int| a[i] - c * b[i])
}

/// The integer linear combination of `rows` with coefficients `coeffs`,
/// of width `n`.
pub open spec fn lin_comb(coeffs: Seq<int>, rows: Seq<Seq<int>>, n: nat) -> Seq<int>
    decreases rows.len(),
{
    if rows.len() == 0 {
        zero_row(n)
    } else {
        row_add(
            lin_comb(coeffs.drop_last(), rows.drop_last(), n),
            row_scaled(coeffs.last(), rows.last()),
        )
    }
}

/// Membership of a row in the lattice spanned by `rows`: the row is an
/// integer linear combination of them.
pub open spec fn in_span(v: Seq<int>, rows: Seq<Seq<int>>, n: nat) -> bool {
    exists|c: Seq<int>| c.len() == rows.len() && v == lin_comb(c, rows, n)
}

/// Every row of `a` lies in the lattice spanned by `b`.  Together with the
/// same statement the other way round this says the two bases generate the
/// same lattice.
pub open spec fn rows_in_span(a: Seq<Seq<int>>, b: Seq<Seq<int>>, n: nat) -> bool {
    forall|i: int| 0 <= i < a.len() ==> in_span(#[trigger] a[i], b, n)
}

/// All rows have width `n` and hold canonical entries.
pub open spec fn basis_wf(b: Seq<Vec<Big>>, n: nat) -> bool {
    forall|i: int|
        0 <= i < b.len() ==> (#[trigger] b[i])@.len() == n && (forall|j: int|
            0 <= j < n ==> (#[trigger] b[i]@[j]).wf())
}

/// The integer rows encoded by a basis of `Big` entries.
pub open spec fn views(b: Seq<Vec<Big>>) -> Seq<Seq<int>> {
    Seq::new(b.len(), |i: int| b[i].deep_view())
}

/// A squared norm is never negative.
pub proof fn lemma_sqnorm_nonneg(a: Seq<int>)
    ensures
        sqnorm(a) >= 0,
    decreases a.len(),
{
    if a.len() > 0 {
        lemma_sqnorm_nonneg(a.drop_last());
        assert(a.last() * a.last() >= 0) by (nonlinear_arith);
        assert(dot(a.drop_last(), a.drop_last()) == sqnorm(a.drop_last()));
    }
}

/// A row with a nonzero entry has a positive squared norm.
pub proof fn lemma_sqnorm_pos(a: Seq<int>, j: int)
    requires
        0 <= j < a.len(),
        a[j] != 0,
    ensures
        sqnorm(a) > 0,
    decreases a.len(),
{
    lemma_sqnorm_nonneg(a.drop_last());
    if j == a.len() - 1 {
        assert(a.last() * a.last() > 0) by (nonlinear_arith)
            requires
                a.last() != 0,
        ;
    } else {
        lemma_sqnorm_pos(a.drop_last(), j);
        assert(a.last() * a.last() >= 0) by (nonlinear_arith);
    }
}

/// All rows of the matrix have width `n`.
pub open spec fn rows_wide(rows: Seq<Seq<int>>, n: nat) -> bool {
    forall|i: int| 0 <= i < rows.len() ==> (#[trigger] rows[i]).len() == n
}

/// A linear combination always has the stated width.
pub proof fn lemma_lin_comb_len(c: Seq<int>, rows: Seq<Seq<int>>, n: nat)
    ensures
        lin_comb(c, rows, n).len() == n,
    decreases rows.len(),
{
    if rows.len() > 0 {
        lemma_lin_comb_len(c.drop_last(), rows.drop_last(), n);
    }
}

/// The combination with all-zero coefficients is the zero row.
pub proof fn lemma_zero_comb(c: Seq<int>, rows: Seq<Seq<int>>, n: nat)
    requires
        rows_wide(rows, n),
        c.len() == rows.len(),
        forall|i: int| 0 <= i < c.len() ==> c[i] == 0,
    ensures
        lin_comb(c, rows, n) == zero_row(n),
    decreases rows.len(),
{
    if rows.len() > 0 {
        lemma_zero_comb(c.drop_last(), rows.drop_last(), n);
        assert forall|t: int| 0 <= t < n implies lin_comb(c, rows, n)[t] == 0 by {
            assert(c.last() * rows.last()[t] == 0) by (nonlinear_arith)
                requires
                    c.last() == 0,
            ;
        }
        assert(lin_comb(c, rows, n) =~= zero_row(n));
    } else {
        assert(lin_comb(c, rows, n) =~= zero_row(n));
    }
}

/// Each row of a matrix lies in its own span: pick the matching unit
/// coefficients.
pub proof fn lemma_unit_comb(rows: Seq<Seq<int>>, n: nat, i: int)
    requires
        rows_wide(rows, n),
        0 <= i < rows.len(),
    ensures
        lin_comb(Seq::new(rows.len(), |j: int| if j == i { 1int } else { 0int }), rows, n)
            == rows[i],
        in_span(rows[i], rows, n),
    decreases rows.len(),
{
    let c = Seq::new(rows.len(), |j: int| if j == i { 1int } else { 0int });
    let l = rows.len() - 1;
    lemma_lin_comb_len(c.drop_last(), rows.drop_last(), n);
    if i == l {
        let zs = c.drop_last();
        assert(forall|j: int| 0 <= j < zs.len() ==> zs[j] == 0);
        lemma_zero_comb(zs, rows.drop_last(), n);
        assert forall|t: int| 0 <= t < n implies lin_comb(c, rows, n)[t] == rows[i][t] by {
            assert(c.last() * rows.last()[t] == rows.last()[t]) by (nonlinear_arith)
                requires
                    c.last() == 1,
            ;
        }
        assert(lin_comb(c, rows, n) =~= rows[i]);
    } else {
        let c2 = Seq::new(rows.drop_last().len(), |j: int| if j == i { 1int } else { 0int });
        assert(c.drop_last() =~= c2);
        lemma_unit_comb(rows.drop_last(), n, i);
        assert forall|t: int| 0 <= t < n implies lin_comb(c, rows, n)[t] == rows[i][t] by {
            assert(c.last() * rows.last()[t] == 0) by (nonlinear_arith)
                requires
                    c.last() == 0,
            ;
        }
        assert(lin_comb(c, rows, n) =~= rows[i]);
    }
}

/// Combinations add coefficientwise.
pub proof fn lemma_lin_comb_add(c1: Seq<int>, c2: Seq<int>, rows: Seq<Seq<int>>, n: nat)
    requires
        rows_wide(rows, n),
        c1.len() == rows.len(),
        c2.len() == rows.len(),
    ensures
        lin_comb(Seq::new(rows.len(), |j: int| c1[j] + c2[j]), rows, n) == row_add(
            lin_comb(c1, rows, n),
            lin_comb(c2, rows, n),
        ),
    decreases rows.len(),
{
    let c = Seq::new(rows.len(), |j: int| c1[j] + c2[j]);
    lemma_lin_comb_len(c, rows, n);
    lemma_lin_comb_len(c1, rows, n);
    lemma_lin_comb_len(c2, rows, n);
    if rows.len() == 0 {
        assert(lin_comb(c, rows, n) =~= row_add(lin_comb(c1, rows, n), lin_comb(c2, rows, n)));
    } else {
        let cd = Seq::new(rows.drop_last().len(), |j: int| c1.drop_last()[j] + c2.drop_last()[j]);
        assert(c.drop_last() =~= cd);
        assert(rows_wide(rows.drop_last(), n)) by {
            assert(forall|i: int|
                0 <= i < rows.drop_last().len() ==> rows.drop_last()[i] == rows[i]);
        }
        assert(rows.last() == rows[rows.len() - 1]);
        lemma_lin_comb_len(c.drop_last(), rows.drop_last(), n);
        lemma_lin_comb_add(c1.drop_last(), c2.drop_last(), rows.drop_last(), n);
        lemma_lin_comb_len(c1.drop_last(), rows.drop_last(), n);
        lemma_lin_comb_len(c2.drop_last(), rows.drop_last(), n);
        assert forall|t: int|
            0 <= t < n implies lin_comb(c, rows, n)[t] == row_add(
            lin_comb(c1, rows, n),
            lin_comb(c2, rows, n),
        )[t] by {
            assert(c.last() * rows.last()[t] == c1.last() * rows.last()[t] + c2.last()
                * rows.last()[t]) by (nonlinear_arith)
                requires
                    c.last() == c1.last() + c2.last(),
            ;
        }
        assert(lin_comb(c, rows, n) =~= row_add(lin_comb(c1, rows, n), lin_comb(c2, rows, n)));
    }
}

/// Combinations scale coefficientwise.
pub proof fn lemma_lin_comb_scale(k: int, c1: Seq<int>, rows: Seq<Seq<int>>, n: nat)
    requires
        rows_wide(rows, n),
        c1.len() == rows.len(),
    ensures
        lin_comb(Seq::new(rows.len(), |j: int| k * c1[j]), rows, n) == row_scaled(
            k,
            lin_comb(c1, rows, n),
        ),
    decreases rows.len(),
{
    let c = Seq::new(rows.len(), |j: int| k * c1[j]);
    lemma_lin_comb_len(c, rows, n);
    lemma_lin_comb_len(c1, rows, n);
    if rows.len() == 0 {
        assert(lin_comb(c, rows, n) =~= row_scaled(k, lin_comb(c1, rows, n)));
    } else {
        let cd = Seq::new(rows.drop_last().len(), |j: int| k * c1.drop_last()[j]);
        assert(c.drop_last() =~= cd);
        assert(rows_wide(rows.drop_last(), n)) by {
            assert(forall|i: int|
                0 <= i < rows.drop_last().len() ==> rows.drop_last()[i] == rows[i]);
        }
        assert(rows.last() == rows[rows.len() - 1]);
        lemma_lin_comb_len(c.drop_last(), rows.drop_last(), n);
        lemma_lin_comb_scale(k, c1.drop_last(), rows.drop_last(), n);
        lemma_lin_comb_len(c1.drop_last(), rows.drop_last(), n);
        assert forall|t: int|
            0 <= t < n implies lin_comb(c, rows, n)[t] == row_scaled(
            k,
            lin_comb(c1, rows, n),
        )[t] by {
            assert(c.last() * rows.last()[t] == k * (c1.last() * rows.last()[t]))
                by (nonlinear_arith)
                requires
                    c.last() == k * c1.last(),
            ;
            assert(k * (lin_comb(c1.drop_last(), rows.drop_last(), n)[t] + c1.last()
                * rows.last()[t]) == k * lin_comb(c1.drop_last(), rows.drop_last(), n)[t] + k * (
            c1.last() * rows.last()[t])) by (nonlinear_arith);
        }
        assert(lin_comb(c, rows, n) =~= row_scaled(k, lin_comb(c1, rows, n)));
    }
}

/// The zero row lies in every span.
pub proof fn lemma_span_zero(rows: Seq<Seq<int>>, n: nat)
    requires
        rows_wide(rows, n),
    ensures
        in_span(zero_row(n), rows, n),
{
    let c = Seq::new(rows.len(), |j: int| 0int);
    lemma_zero_comb(c, rows, n);
}

/// A span is closed under pointwise sum.
pub proof fn lemma_span_add(u: Seq<int>, v: Seq<int>, rows: Seq<Seq<int>>, n: nat)
    requires
        rows_wide(rows, n),
        in_span(u, rows, n),
        in_span(v, rows, n),
    ensures
        in_span(row_add(u, v), rows, n),
{
    let c1 = choose|c: Seq<int>| c.len() == rows.len() && u == lin_comb(c, rows, n);
    let c2 = choose|c: Seq<int>| c.len() == rows.len() && v == lin_comb(c, rows, n);
    lemma_lin_comb_add(c1, c2, rows, n);
    let c = Seq::new(rows.len(), |j: int| c1[j] + c2[j]);
    assert(row_add(u, v) == lin_comb(c, rows, n));
}

/// A span is closed under integer scaling.
pub proof fn lemma_span_scale(k: int, u: Seq<int>, rows: Seq<Seq<int>>, n: nat)
    requires
        rows_wide(rows, n),
        in_span(u, rows, n),
    ensures
        in_span(row_scaled(k, u), rows, n),
{
    let c1 = choose|c: Seq<int>| c.len() == rows.len() && u == lin_comb(c, rows, n);
    lemma_lin_comb_scale(k, c1, rows, n);
    let c = Seq::new(rows.len(), |j: int| k * c1[j]);
    assert(row_scaled(k, u) == lin_comb(c, rows, n));
}

/// A span is closed under the size-reduction update `u - c * w`.
pub proof fn lemma_span_sub_scaled(u: Seq<int>, w: Seq<int>, k: int, rows: Seq<Seq<int>>, n: nat)
    requires
        rows_wide(rows, n),
        in_span(u, rows, n),
        in_span(w, rows, n),
        u.len() == n,
        w.len() == n,
    ensures
        in_span(row_sub_scaled(u, w, k), rows, n),
{
    lemma_span_scale(-k, w, rows, n);
    lemma_span_add(u, row_scaled(-k, w), rows, n);
    assert forall|t: int| 0 <= t < n implies row_sub_scaled(u, w, k)[t] == row_add(
        u,
        row_scaled(-k, w),
    )[t] by {
        assert(u[t] - k * w[t] == u[t] + (-k) * w[t]) by (nonlinear_arith);
    }
    assert(row_sub_scaled(u, w, k) =~= row_add(u, row_scaled(-k, w)));
}

/// Membership in a span whose rows all lie in a second span carries over to
/// the second span.
pub proof fn lemma_span_trans(v: Seq<int>, mid: Seq<Seq<int>>, base: Seq<Seq<int>>, n: nat)
    requires
        in_span(v, mid, n),
        rows_in_span(mid, base, n),
        rows_wide(base, n),
    ensures
        in_span(v, base, n),
    decreases mid.len(),
{
    let c = choose|c: Seq<int>| c.len() == mid.len() && v == lin_comb(c, mid, n);
    if mid.len() == 0 {
        lemma_span_zero(base, n);
    } else {
        let head = lin_comb(c.drop_last(), mid.drop_last(), n);
        assert(in_span(head, mid.drop_last(), n));
        assert(rows_in_span(mid.drop_last(), base, n)) by {
            assert(forall|i: int|
                0 <= i < mid.drop_last().len() ==> mid.drop_last()[i] == mid[i]);
        }
        lemma_span_trans(head, mid.drop_last(), base, n);
        assert(in_span(mid.last(), base, n)) by {
            assert(mid.last() == mid[mid.len() - 1]);
        }
        lemma_span_scale(c.last(), mid.last(), base, n);
        lemma_span_add(head, row_scaled(c.last(), mid.last()), base, n);
        assert(v == row_add(head, row_scaled(c.last(), mid.last())));
    }
}

/// `rows_in_span` composes.
pub proof fn lemma_rows_in_span_trans(
    a: Seq<Seq<int>>,
    mid: Seq<Seq<int>>,
    base: Seq<Seq<int>>,
    n: nat,
)
    requires
        rows_in_span(a, mid, n),
        rows_in_span(mid, base, n),
        rows_wide(base, n),
    ensures
        rows_in_span(a, base, n),
{
    assert forall|i: int| 0 <= i < a.len() implies in_span(#[trigger] a[i], base, n) by {
        lemma_span_trans(a[i], mid, base, n);
    }
}

/// `rows_in_span` is reflexive on matrices of uniform width.
pub proof fn lemma_rows_in_span_refl(rows: Seq<Seq<int>>, n: nat)
    requires
        rows_wide(rows, n),
    ensures
        rows_in_span(rows, rows, n),
{
    assert forall|i: int| 0 <= i < rows.len() implies in_span(#[trigger] rows[i], rows, n) by {
        lemma_unit_comb(rows, n, i);
    }
}

/// Subtracting a multiple of one row changes a dot product by that multiple
/// of the other dot product.
pub proof fn lemma_dot_sub_scaled_left(a: Seq<int>, b: Seq<int>, nu: int, w: Seq<int>)
    requires
        a.len() == b.len(),
        a.len() == w.len(),
    ensures
        dot(row_sub_scaled(a, b, nu), w) == dot(a, w) - nu * dot(b, w),
    decreases a.len(),
{
    if a.len() == 0 {
        assert(nu * dot(b, w) == 0) by (nonlinear_arith)
            requires
                dot(b, w) == 0,
        ;
    } else {
        let s = row_sub_scaled(a, b, nu);
        assert(s.drop_last() =~= row_sub_scaled(a.drop_last(), b.drop_last(), nu));
        lemma_dot_sub_scaled_left(a.drop_last(), b.drop_last(), nu, w.drop_last());
        assert(s.last() == a.last() - nu * b.last());
        assert(dot(s, w) == dot(s.drop_last(), w.drop_last()) + s.last() * w.last());
        assert((a.last() - nu * b.last()) * w.last() == a.last() * w.last() - nu * (b.last()
            * w.last())) by (nonlinear_arith);
        assert(nu * (dot(b.drop_last(), w.drop_last()) + b.last() * w.last()) == nu * dot(
            b.drop_last(),
            w.drop_last(),
        ) + nu * (b.last() * w.last())) by (nonlinear_arith);
    }
}

/// Replacing row `k` by `row_k - nu * row_j` keeps the spanned lattice.
pub proof fn lemma_span_update_sub(bv: Seq<Seq<int>>, k: int, j: int, nu: int, n: nat)
    requires
        rows_wide(bv, n),
        0 <= k < bv.len(),
        0 <= j < bv.len(),
        j != k,
    ensures
        rows_in_span(bv.update(k, row_sub_scaled(bv[k], bv[j], nu)), bv, n),
        rows_in_span(bv, bv.update(k, row_sub_scaled(bv[k], bv[j], nu)), n),
        rows_wide(bv.update(k, row_sub_scaled(bv[k], bv[j], nu)), n),
{
    let nv = bv.update(k, row_sub_scaled(bv[k], bv[j], nu));
    assert(rows_wide(nv, n));
    assert forall|i: int| 0 <= i < nv.len() implies in_span(#[trigger] nv[i], bv, n) by {
        if i == k {
            lemma_unit_comb(bv, n, k);
            lemma_unit_comb(bv, n, j);
            lemma_span_sub_scaled(bv[k], bv[j], nu, bv, n);
        } else {
            lemma_unit_comb(bv, n, i);
        }
    }
    assert forall|i: int| 0 <= i < bv.len() implies in_span(#[trigger] bv[i], nv, n) by {
        if i == k {
            lemma_unit_comb(nv, n, k);
            lemma_unit_comb(nv, n, j);
            lemma_span_sub_scaled(nv[k], nv[j], -nu, nv, n);
            assert forall|t: int| 0 <= t < n implies row_sub_scaled(nv[k], nv[j], -nu)[t]
                == bv[k][t] by {
                assert(nv[k][t] == bv[k][t] - nu * bv[j][t]);
                assert(nv[j][t] == bv[j][t]);
                assert(bv[k][t] - nu * bv[j][t] - (-nu) * bv[j][t] == bv[k][t])
                    by (nonlinear_arith);
            }
            assert(row_sub_scaled(nv[k], nv[j], -nu) =~= bv[k]);
        } else {
            lemma_unit_comb(nv, n, i);
        }
    }
}

/// Swapping two adjacent rows keeps the spanned lattice.
pub proof fn lemma_span_swap(bv: Seq<Seq<int>>, k: int, n: nat)
    requires
        rows_wide(bv, n),
        1 <= k < bv.len(),
    ensures
        rows_in_span(bv.update(k - 1, bv[k]).update(k, bv[k - 1]), bv, n),
        rows_in_span(bv, bv.update(k - 1, bv[k]).update(k, bv[k - 1]), n),
        rows_wide(bv.update(k - 1, bv[k]).update(k, bv[k - 1]), n),
{
    let nv = bv.update(k - 1, bv[k]).update(k, bv[k - 1]);
    assert(rows_wide(nv, n));
    assert forall|i: int| 0 <= i < nv.len() implies in_span(#[trigger] nv[i], bv, n) by {
        if i == k - 1 {
            lemma_unit_comb(bv, n, k);
        } else if i == k {
            lemma_unit_comb(bv, n, k - 1);
        } else {
            lemma_unit_comb(bv, n, i);
        }
    }
    assert forall|i: int| 0 <= i < bv.len() implies in_span(#[trigger] bv[i], nv, n) by {
        if i == k - 1 {
            lemma_unit_comb(nv, n, k);
            assert(nv[k] == bv[k - 1]);
        } else if i == k {
            lemma_unit_comb(nv, n, k - 1);
            assert(nv[k - 1] == bv[k]);
        } else {
            lemma_unit_comb(nv, n, i);
        }
    }
}

/// Removing an all-zero row keeps the spanned lattice.
pub proof fn lemma_span_remove_zero(bv: Seq<Seq<int>>, k: int, n: nat)
    requires
        rows_wide(bv, n),
        0 <= k < bv.len(),
        bv[k] == zero_row(n),
    ensures
        rows_in_span(bv.remove(k), bv, n),
        rows_in_span(bv, bv.remove(k), n),
        rows_wide(bv.remove(k), n),
{
    let nv = bv.remove(k);
    assert(rows_wide(nv, n)) by {
        assert(forall|i: int|
            0 <= i < nv.len() ==> nv[i] == (if i < k {
                bv[i]
            } else {
                bv[i + 1]
            }));
    }
    assert forall|i: int| 0 <= i < nv.len() implies in_span(#[trigger] nv[i], bv, n) by {
        if i < k {
            lemma_unit_comb(bv, n, i);
        } else {
            lemma_unit_comb(bv, n, i + 1);
            assert(nv[i] == bv[i + 1]);
        }
    }
    assert forall|i: int| 0 <= i < bv.len() implies in_span(#[trigger] bv[i], nv, n) by {
        if i < k {
            lemma_unit_comb(nv, n, i);
        } else if i == k {
            lemma_span_zero(nv, n);
        } else {
            lemma_unit_comb(nv, n, i - 1);
            assert(nv[i - 1] == bv[i]);
        }
    }
}

/// The dot product of two rows of `Big` entries.
pub fn scalar_product(a: &Vec<Big>, b: &Vec<Big>) -> (r: Big)
    requires
        a@.len() == b@.len(),
        forall|j: int| 0 <= j < a@.len() ==> (#[trigger] a@[j]).wf(),
        forall|j: int| 0 <= j < b@.len() ==> (#[trigger] b@[j]).wf(),
    ensures
        r.wf(),
        r@ == dot(a.deep_view(), b.deep_view()),
{
    let mut acc = Big::zero();
    let mut i: usize = 0;
    while i < a.len()
        invariant
            i <= a@.len(),
            a@.len() == b@.len(),
            forall|j: int| 0 <= j < a@.len() ==> (#[trigger] a@[j]).wf(),
            forall|j: int| 0 <= j < b@.len() ==> (#[trigger] b@[j]).wf(),
            acc.wf(),
            acc@ == dot(a.deep_view().take(i as int), b.deep_view().take(i as int)),
        decreases a@.len() - i,
    {
        acc = big_add(&acc, &big_mul(&a[i], &b[i]));
        proof {
            let av = a.deep_view();
            let bv = b.deep_view();
            assert(av.take(i + 1).drop_last() =~= av.take(i as int));
            assert(bv.take(i + 1).drop_last() =~= bv.take(i as int));
            assert(av.take(i + 1).last() == av[i as int]);
            assert(a.deep_view()[i as int] == a@[i as int]@);
        }
        i = i + 1;
    }
    proof {
        assert(a.deep_view().take(a@.len() as int) =~= a.deep_view());
        assert(b.deep_view().take(b@.len() as int) =~= b.deep_view());
    }
    acc
}

/// The squared norm of a row of `Big` entries.
pub fn squared_norm(v: &Vec<Big>) -> (r: Big)
    requires
        forall|j: int| 0 <= j < v@.len() ==> (#[trigger] v@[j]).wf(),
    ensures
        r.wf(),
        r@ == sqnorm(v.deep_view()),
        r@ >= 0,
{
    let r = scalar_product(v, v);
    proof {
        lemma_sqnorm_nonneg(v.deep_view());
    }
    r
}

/// Whether every entry of the row is zero.
pub fn is_zero(v: &Vec<Big>) -> (r: bool)
    requires
        forall|j: int| 0 <= j < v@.len() ==> (#[trigger] v@[j]).wf(),
    ensures
        r <==> (forall|j: int| 0 <= j < v@.len() ==> v.deep_view()[j] == 0),
{
    let mut i: usize = 0;
    while i < v.len()
        invariant
            i <= v@.len(),
            forall|j: int| 0 <= j < v@.len() ==> (#[trigger] v@[j]).wf(),
            forall|j: int| 0 <= j < i ==> v.deep_view()[j] == 0,
        decreases v@.len() - i,
    {
        if !v[i].is_zero() {
            assert(v.deep_view()[i as int] != 0);
            return false;
        }
        i = i + 1;
    }
    true
}

/// Replace row `index_1` of the matrix by itself minus `b_mul` times row
/// `index_2`.
pub fn sub_vec(m: &mut Vec<Vec<Big>>, index_1: usize, index_2: usize, b_mul: &Big)
    requires
        index_1 < old(m)@.len(),
        index_2 < old(m)@.len(),
        index_1 != index_2,
        b_mul.wf(),
        old(m)@[index_1 as int]@.len() == old(m)@[index_2 as int]@.len(),
        forall|j: int|
            0 <= j < old(m)@[index_1 as int]@.len() ==> (#[trigger] old(m)@[index_1 as int]@[j]).wf(),
        forall|j: int|
            0 <= j < old(m)@[index_2 as int]@.len() ==> (#[trigger] old(m)@[index_2 as int]@[j]).wf(),
    ensures
        final(m)@.len() == old(m)@.len(),
        forall|i: int| 0 <= i < old(m)@.len() && i != index_1 ==> final(m)@[i] == old(m)@[i],
        final(m)@[index_1 as int]@.len() == old(m)@[index_1 as int]@.len(),
        forall|j: int|
            0 <= j < final(m)@[index_1 as int]@.len() ==> (#[trigger] final(m)@[index_1 as int]@[j]).wf(),
        final(m)@[index_1 as int].deep_view() == row_sub_scaled(
            old(m)@[index_1 as int].deep_view(),
            old(m)@[index_2 as int].deep_view(),
            b_mul@,
        ),
{
    let ghost m0 = m@;
    let n = m[index_1].len();
    let mut newrow: Vec<Big> = Vec::new();
    let mut i: usize = 0;
    while i < n
        invariant
            i <= n,
            m@ == m0,
            index_1 < m0.len(),
            index_2 < m0.len(),
            b_mul.wf(),
            n == m0[index_1 as int]@.len(),
            m0[index_1 as int]@.len() == m0[index_2 as int]@.len(),
            forall|j: int| 0 <= j < n ==> (#[trigger] m0[index_1 as int]@[j]).wf(),
            forall|j: int| 0 <= j < n ==> (#[trigger] m0[index_2 as int]@[j]).wf(),
            newrow@.len() == i,
            forall|j: int| 0 <= j < i ==> (#[trigger] newrow@[j]).wf(),
            forall|j: int|
                0 <= j < i ==> (#[trigger] newrow@[j])@ == m0[index_1 as int]@[j]@ - b_mul@
                    * m0[index_2 as int]@[j]@,
        decreases n - i,
    {
        let val = big_sub(&m[index_1][i], &big_mul(b_mul, &m[index_2][i]));
        newrow.push(val);
        i = i + 1;
    }
    m.set(index_1, newrow);
    proof {
        assert(m@[index_1 as int].deep_view() =~= row_sub_scaled(
            m0[index_1 as int].deep_view(),
            m0[index_2 as int].deep_view(),
            b_mul@,
        ));
    }
}

} // verus!
