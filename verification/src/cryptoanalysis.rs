use vstd::prelude::*;
use crate::big::Big;
use crate::big::big_cmp;
use crate::linalg::sqnorm;
use crate::linalg::squared_norm;
use crate::service::congruent;

verus! {

/// The entry of the key-recovery lattice basis at row `i`, column `j`: an
/// identity block beside the circulant block of the public key, above a
/// zero block beside `q` times the identity.
pub open spec fn svp_cell(h: Seq<i64>, n: int, q: int, i: int, j: int) -> int {
    if i < n {
        if j < n {
            if i == j {
                1
            } else {
                0
            }
        } else {
            if j - n >= i {
                h[j - n - i] as int
            } else {
                h[j - n - i + n] as int
            }
        }
    } else {
        if j == i {
            q
        } else {
            0
        }
    }
}

/// The entry of the plaintext-recovery basis: the key-recovery basis with
/// one extra column of zeros and one extra row carrying the ciphertext and
/// the embedding weight.
pub open spec fn cvp_cell(
    hp: Seq<i64>,
    e: Seq<i64>,
    mc: int,
    n: int,
    q: int,
    i: int,
    j: int,
) -> int {
    if i < 2 * n {
        if j < 2 * n {
            svp_cell(hp, n, q, i, j)
        } else {
            0
        }
    } else {
        if j < n {
            0
        } else if j - n < e.len() {
            e[j - n] as int
        } else if j == 2 * n {
            mc
        } else {
            0
        }
    }
}

/// The public-key coefficients scaled by `p` and reduced modulo `q`, as
/// used by the plaintext-recovery construction.
pub open spec fn scaled_coeffs(h: Seq<i64>, p: int, q: int) -> Seq<i64> {
    Seq::new(h.len(), |i: int| ((p * h[i]) % q) as i64)
}

/// The coefficient sequence padded with zeros to width `n`.
pub open spec fn padded(h: Seq<i64>, n: int) -> Seq<i64> {
    Seq::new(n as nat, |i: int| if i < h.len() { h[i] } else { 0i64 })
}

/// A canonical residue that is congruent to `x` is `x`'s remainder.
pub proof fn lemma_congruent_canon(v: int, x: int, m: int)
    requires
        m >= 1,
        0 <= v < m,
        congruent(v, x, m),
    ensures
        v == x % m,
{
    let k = choose|kk: int| v - x == #[trigger] (kk * m);
    vstd::arithmetic::div_mod::lemma_fundamental_div_mod(x, m);
    vstd::arithmetic::div_mod::lemma_mod_bound(x, m);
    assert(v - x % m == (k + x / m) * m) by (nonlinear_arith)
        requires
            v - x == k * m,
            x == m * (x / m) + x % m,
    ;
    assert(v == x % m) by (nonlinear_arith)
        requires
            v - x % m == (k + x / m) * m,
            0 <= v < m,
            0 <= x % m < m,
            m >= 1,
    ;
}

/// Build the key-recovery lattice basis from the padded public-key
/// coefficients: `2n` rows of width `2n`, laid out as `svp_cell` says.
pub fn create_lattice_basis(h: &Vec<i64>, n: usize, q: u64) -> (r: Vec<Vec<Big>>)
    requires
        n >= 1,
        h@.len() == n,
        2 * n <= usize::MAX,
        1 <= q <= 0x7fff_ffff_ffff_ffff,
    ensures
        r@.len() == 2 * n,
        forall|i: int| 0 <= i < 2 * n ==> (#[trigger] r@[i])@.len() == 2 * n,
        forall|i: int, j: int|
            0 <= i < 2 * n && 0 <= j < 2 * n ==> (#[trigger] r@[i]@[j]).wf(),
        forall|i: int, j: int|
            0 <= i < 2 * n && 0 <= j < 2 * n ==> (#[trigger] r@[i]@[j])@ == svp_cell(
                h@,
                n as int,
                q as int,
                i,
                j,
            ),
{
    let width = 2 * n;
    let mut r: Vec<Vec<Big>> = Vec::new();
    let mut i: usize = 0;
    while i < width
        invariant
            i <= width,
            width == 2 * n,
            n >= 1,
            h@.len() == n,
            1 <= q <= 0x7fff_ffff_ffff_ffff,
            r@.len() == i,
            forall|t: int| 0 <= t < i ==> (#[trigger] r@[t])@.len() == width,
            forall|t: int, j: int|
                0 <= t < i && 0 <= j < width ==> (#[trigger] r@[t]@[j]).wf(),
            forall|t: int, j: int|
                0 <= t < i && 0 <= j < width ==> (#[trigger] r@[t]@[j])@ == svp_cell(
                    h@,
                    n as int,
                    q as int,
                    t,
                    j,
                ),
        decreases width - i,
    {
        let mut row: Vec<Big> = Vec::new();
        let mut j: usize = 0;
        while j < width
            invariant
                j <= width,
                i < width,
                width == 2 * n,
                n >= 1,
                h@.len() == n,
                1 <= q <= 0x7fff_ffff_ffff_ffff,
                row@.len() == j,
                forall|t: int| 0 <= t < j ==> (#[trigger] row@[t]).wf(),
                forall|t: int|
                    0 <= t < j ==> (#[trigger] row@[t])@ == svp_cell(
                        h@,
                        n as int,
                        q as int,
                        i as int,
                        t,
                    ),
            decreases width - j,
        {
            let cell: Big;
            if i < n {
                if j < n {
                    if i == j {
                        cell = Big::from_i64(1);
                    } else {
                        cell = Big::from_i64(0);
                    }
                } else {
                    let jj = j - n;
                    let idx = if jj >= i {
                        jj - i
                    } else {
                        jj + n - i
                    };
                    cell = Big::from_i64(h[idx]);
                }
            } else {
                if j == i {
                    cell = Big::from_i64(q as i64);
                } else {
                    cell = Big::from_i64(0);
                }
            }
            row.push(cell);
            j = j + 1;
        }
        r.push(row);
        i = i + 1;
    }
    r
}

/// The key-recovery basis for a public key given by its coefficient
/// sequence, padded with zeros up to the ring dimension.
pub fn svp_create_lattice_basis(h: &Vec<i64>, n: usize, q: u64) -> (r: Vec<Vec<Big>>)
    requires
        n >= 1,
        h@.len() <= n,
        2 * n <= usize::MAX,
        1 <= q <= 0x7fff_ffff_ffff_ffff,
    ensures
        r@.len() == 2 * n,
        forall|i: int| 0 <= i < 2 * n ==> (#[trigger] r@[i])@.len() == 2 * n,
        forall|i: int, j: int|
            0 <= i < 2 * n && 0 <= j < 2 * n ==> (#[trigger] r@[i]@[j]).wf(),
        forall|i: int, j: int|
            0 <= i < 2 * n && 0 <= j < 2 * n ==> (#[trigger] r@[i]@[j])@ == svp_cell(
                padded(h@, n as int),
                n as int,
                q as int,
                i,
                j,
            ),
{
    let mut hp: Vec<i64> = Vec::new();
    let mut i: usize = 0;
    while i < n
        invariant
            i <= n,
            h@.len() <= n,
            hp@.len() == i,
            forall|t: int| 0 <= t < i ==> hp@[t] == padded(h@, n as int)[t],
        decreases n - i,
    {
        if i < h.len() {
            hp.push(h[i]);
        } else {
            hp.push(0);
        }
        i = i + 1;
    }
    proof {
        assert(hp@ =~= padded(h@, n as int));
    }
    create_lattice_basis(&hp, n, q)
}

/// The plaintext-recovery basis: the key-recovery basis over the scaled
/// key `p * h mod q`, bordered by a zero column and by one extra row
/// holding the ciphertext coefficients and the embedding weight.
pub fn cvp_create_lattice_basis(
    h: &Vec<i64>,
    e: &Vec<i64>,
    m_coeff: i64,
    n: usize,
    p: u64,
    q: u64,
) -> (r: Vec<Vec<Big>>)
    requires
        n >= 1,
        h@.len() == n,
        e@.len() <= n,
        2 * n + 1 <= usize::MAX,
        1 <= q <= 0x7fff_ffff,
        1 <= p <= 0x7fff_ffff,
        forall|i: int| 0 <= i < n ==> -0x7fff_ffff <= #[trigger] h@[i] <= 0x7fff_ffff,
    ensures
        r@.len() == 2 * n + 1,
        forall|i: int| 0 <= i < 2 * n + 1 ==> (#[trigger] r@[i])@.len() == 2 * n + 1,
        forall|i: int, j: int|
            0 <= i < 2 * n + 1 && 0 <= j < 2 * n + 1 ==> (#[trigger] r@[i]@[j]).wf(),
        forall|i: int, j: int|
            0 <= i < 2 * n + 1 && 0 <= j < 2 * n + 1 ==> (#[trigger] r@[i]@[j])@ == cvp_cell(
                scaled_coeffs(h@, p as int, q as int),
                e@,
                m_coeff as int,
                n as int,
                q as int,
                i,
                j,
            ),
{
    let mut hs: Vec<i64> = Vec::new();
    let mut i: usize = 0;
    while i < n
        invariant
            i <= n,
            n >= 1,
            h@.len() == n,
            1 <= q <= 0x7fff_ffff,
            1 <= p <= 0x7fff_ffff,
            forall|t: int| 0 <= t < n ==> -0x7fff_ffff <= #[trigger] h@[t] <= 0x7fff_ffff,
            hs@.len() == i,
            forall|t: int|
                0 <= t < i ==> hs@[t] == scaled_coeffs(h@, p as int, q as int)[t],
        decreases n - i,
    {
        proof {
            assert(-0x4000_0000_0000_0000 <= (p as i64) * h@[i as int]
                <= 0x4000_0000_0000_0000) by (nonlinear_arith)
                requires
                    1 <= p <= 0x7fff_ffff,
                    -0x7fff_ffff <= h@[i as int] <= 0x7fff_ffff,
            ;
        }
        let z = crate::zp::Zp::new((p as i64) * h[i], q);
        proof {
            lemma_congruent_canon(z.value as int, (p as i64) * h@[i as int], q as int);
        }
        hs.push(z.get());
        i = i + 1;
    }
    proof {
        assert(hs@ =~= scaled_coeffs(h@, p as int, q as int));
    }
    let base = create_lattice_basis(&hs, n, q);
    let width = 2 * n + 1;
    let mut r: Vec<Vec<Big>> = Vec::new();
    let mut i2: usize = 0;
    while i2 < 2 * n
        invariant
            i2 <= 2 * n,
            n >= 1,
            width == 2 * n + 1,
            base@.len() == 2 * n,
            forall|t: int| 0 <= t < 2 * n ==> (#[trigger] base@[t])@.len() == 2 * n,
            forall|t: int, j: int|
                0 <= t < 2 * n && 0 <= j < 2 * n ==> (#[trigger] base@[t]@[j]).wf(),
            forall|t: int, j: int|
                0 <= t < 2 * n && 0 <= j < 2 * n ==> (#[trigger] base@[t]@[j])@ == svp_cell(
                    scaled_coeffs(h@, p as int, q as int),
                    n as int,
                    q as int,
                    t,
                    j,
                ),
            r@.len() == i2,
            forall|t: int| 0 <= t < i2 ==> (#[trigger] r@[t])@.len() == width,
            forall|t: int, j: int|
                0 <= t < i2 && 0 <= j < width ==> (#[trigger] r@[t]@[j]).wf(),
            forall|t: int, j: int|
                0 <= t < i2 && 0 <= j < width ==> (#[trigger] r@[t]@[j])@ == cvp_cell(
                    scaled_coeffs(h@, p as int, q as int),
                    e@,
                    m_coeff as int,
                    n as int,
                    q as int,
                    t,
                    j,
                ),
        decreases 2 * n - i2,
    {
        let mut row: Vec<Big> = Vec::new();
        let mut j: usize = 0;
        while j < 2 * n
            invariant
                j <= 2 * n,
                i2 < 2 * n,
                2 * n + 1 <= usize::MAX,
                base@.len() == 2 * n,
                forall|t: int| 0 <= t < 2 * n ==> (#[trigger] base@[t])@.len() == 2 * n,
                forall|t: int, x: int|
                    0 <= t < 2 * n && 0 <= x < 2 * n ==> (#[trigger] base@[t]@[x]).wf(),
                row@.len() == j,
                forall|t: int| 0 <= t < j ==> (#[trigger] row@[t]).wf(),
                forall|t: int| 0 <= t < j ==> (#[trigger] row@[t])@ == base@[i2 as int]@[t]@,
            decreases 2 * n - j,
        {
            row.push(base[i2][j].copy());
            j = j + 1;
        }
        row.push(Big::from_i64(0));
        r.push(row);
        i2 = i2 + 1;
    }
    let mut last: Vec<Big> = Vec::new();
    let mut j2: usize = 0;
    while j2 < width
        invariant
            j2 <= width,
            width == 2 * n + 1,
            n >= 1,
            e@.len() <= n,
            last@.len() == j2,
            forall|t: int| 0 <= t < j2 ==> (#[trigger] last@[t]).wf(),
            forall|t: int|
                0 <= t < j2 ==> (#[trigger] last@[t])@ == cvp_cell(
                    scaled_coeffs(h@, p as int, q as int),
                    e@,
                    m_coeff as int,
                    n as int,
                    q as int,
                    2 * n,
                    t,
                ),
        decreases width - j2,
    {
        let cell: Big;
        if j2 < n {
            cell = Big::from_i64(0);
        } else if j2 - n < e.len() {
            cell = Big::from_i64(e[j2 - n]);
        } else if j2 == 2 * n {
            cell = Big::from_i64(m_coeff);
        } else {
            cell = Big::from_i64(0);
        }
        last.push(cell);
        j2 = j2 + 1;
    }
    r.push(last);
    r
}

/// Coefficients of the leading `n` entries all lie in `{-1, 0, 1}`.
pub open spec fn ternary_prefix(row: Seq<int>, n: int) -> bool {
    forall|j: int| 0 <= j < n ==> -1 <= #[trigger] row[j] <= 1
}

/// A row matches the secret-key signature: ternary leading coefficients
/// whose squared norm is exactly `2 * df - 1`.
pub open spec fn key_signature(row: Seq<int>, n: int, df: int) -> bool {
    &&& ternary_prefix(row, n)
    &&& sqnorm(row.take(n)) == 2 * df - 1
}

/// A row matches the plaintext signature: ternary leading coefficients
/// whose squared norm is exactly `2 * dr`.
pub open spec fn plaintext_signature(row: Seq<int>, n: int, dr: int) -> bool {
    &&& ternary_prefix(row, n)
    &&& sqnorm(row.take(n)) == 2 * dr
}

/// Whether the leading `n` entries of the row are ternary with the given
/// exact squared norm.
fn row_matches(row: &Vec<Big>, n: usize, target: i64) -> (r: bool)
    requires
        n <= row@.len(),
        forall|j: int| 0 <= j < row@.len() ==> (#[trigger] row@[j]).wf(),
    ensures
        r <==> (ternary_prefix(row.deep_view(), n as int) && sqnorm(
            row.deep_view().take(n as int),
        ) == target),
{
    let one = Big::from_i64(1);
    let neg_one = Big::from_i64(-1);
    let mut prefix: Vec<Big> = Vec::new();
    let mut j: usize = 0;
    while j < n
        invariant
            j <= n,
            n <= row@.len(),
            forall|t: int| 0 <= t < row@.len() ==> (#[trigger] row@[t]).wf(),
            one.wf(),
            one@ == 1,
            neg_one.wf(),
            neg_one@ == -1,
            prefix@.len() == j,
            forall|t: int| 0 <= t < j ==> (#[trigger] prefix@[t]).wf(),
            forall|t: int| 0 <= t < j ==> prefix.deep_view()[t] == row.deep_view()[t],
            forall|t: int| 0 <= t < j ==> -1 <= #[trigger] row.deep_view()[t] <= 1,
        decreases n - j,
    {
        if matches!(big_cmp(&row[j], &neg_one), core::cmp::Ordering::Less) || matches!(
            big_cmp(&row[j], &one),
            core::cmp::Ordering::Greater,
        ) {
            assert(!(-1 <= row.deep_view()[j as int] <= 1));
            return false;
        }
        prefix.push(row[j].copy());
        j = j + 1;
    }
    proof {
        assert(prefix.deep_view() =~= row.deep_view().take(n as int));
    }
    let norm = squared_norm(&prefix);
    matches!(big_cmp(&norm, &Big::from_i64(target)), core::cmp::Ordering::Equal)
}

/// Scan a reduced basis for the first row whose leading `n` coefficients
/// look like a secret key: ternary entries of squared norm `2 * df - 1`.
pub fn search_potentional_secret_key(basis: &Vec<Vec<Big>>, df: u8, n: usize) -> (r: Option<
    usize,
>)
    requires
        df >= 1,
        forall|i: int|
            0 <= i < basis@.len() ==> n <= (#[trigger] basis@[i])@.len(),
        forall|i: int, j: int|
            0 <= i < basis@.len() && 0 <= j < basis@[i]@.len() ==> (#[trigger] basis@[i]@[j]).wf(),
    ensures
        r matches Some(i) ==> i < basis@.len() && key_signature(
            basis@[i as int].deep_view(),
            n as int,
            df as int,
        ) && (forall|t: int|
            0 <= t < i ==> !key_signature(#[trigger] basis@[t].deep_view(), n as int, df as int)),
        r is None ==> forall|t: int|
            0 <= t < basis@.len() ==> !key_signature(
                #[trigger] basis@[t].deep_view(),
                n as int,
                df as int,
            ),
{
    let target: i64 = 2 * (df as i64) - 1;
    let mut i: usize = 0;
    while i < basis.len()
        invariant
            i <= basis@.len(),
            df >= 1,
            target == 2 * df - 1,
            forall|t: int|
                0 <= t < basis@.len() ==> n <= (#[trigger] basis@[t])@.len(),
            forall|t: int, j: int|
                0 <= t < basis@.len() && 0 <= j < basis@[t]@.len() ==> (#[trigger] basis@[t]@[j]).wf(),
            forall|t: int|
                0 <= t < i ==> !key_signature(
                    #[trigger] basis@[t].deep_view(),
                    n as int,
                    df as int,
                ),
        decreases basis@.len() - i,
    {
        if row_matches(&basis[i], n, target) {
            return Some(i);
        }
        i = i + 1;
    }
    None
}

/// Scan a reduced basis for the first row whose leading `n` coefficients
/// look like the blinding polynomial of a ciphertext: ternary entries of
/// squared norm `2 * dr`.
pub fn search_potentional_plaintext(basis: &Vec<Vec<Big>>, dr: u8, n: usize) -> (r: Option<
    usize,
>)
    requires
        forall|i: int|
            0 <= i < basis@.len() ==> n <= (#[trigger] basis@[i])@.len(),
        forall|i: int, j: int|
            0 <= i < basis@.len() && 0 <= j < basis@[i]@.len() ==> (#[trigger] basis@[i]@[j]).wf(),
    ensures
        r matches Some(i) ==> i < basis@.len() && plaintext_signature(
            basis@[i as int].deep_view(),
            n as int,
            dr as int,
        ) && (forall|t: int|
            0 <= t < i ==> !plaintext_signature(
                #[trigger] basis@[t].deep_view(),
                n as int,
                dr as int,
            )),
        r is None ==> forall|t: int|
            0 <= t < basis@.len() ==> !plaintext_signature(
                #[trigger] basis@[t].deep_view(),
                n as int,
                dr as int,
            ),
{
    let target: i64 = 2 * (dr as i64);
    let mut i: usize = 0;
    while i < basis.len()
        invariant
            i <= basis@.len(),
            target == 2 * dr,
            forall|t: int|
                0 <= t < basis@.len() ==> n <= (#[trigger] basis@[t])@.len(),
            forall|t: int, j: int|
                0 <= t < basis@.len() && 0 <= j < basis@[t]@.len() ==> (#[trigger] basis@[t]@[j]).wf(),
            forall|t: int|
                0 <= t < i ==> !plaintext_signature(
                    #[trigger] basis@[t].deep_view(),
                    n as int,
                    dr as int,
                ),
        decreases basis@.len() - i,
    {
        if row_matches(&basis[i], n, target) {
            return Some(i);
        }
        i = i + 1;
    }
    None
}

} // verus!
