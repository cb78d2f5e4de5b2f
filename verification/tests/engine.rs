use ntru_lattice::big::Big;
use ntru_lattice::rat::Rat;
use ntru_lattice::rat::rat_add;
use ntru_lattice::rat::rat_sub;
use ntru_lattice::rat::rat_mul;
use ntru_lattice::rat::rat_div;
use ntru_lattice::rat::rat_lt;
use ntru_lattice::rat::rat_le;
use ntru_lattice::rat::rat_round;
use ntru_lattice::linalg::scalar_product;
use ntru_lattice::linalg::squared_norm;
use ntru_lattice::linalg::is_zero;
use ntru_lattice::linalg::sub_vec;
use ntru_lattice::lll::lll;
use ntru_lattice::bkz::bkz;
use ntru_lattice::bkz::bkz_enum;
use ntru_lattice::bkz::sum_ui_bi;

fn big(v: i64) -> Big {
    Big::from_i64(v)
}

fn bigval(b: &Big) -> i128 {
    let mut v: i128 = 0;
    for (i, limb) in b.mag.iter().enumerate() {
        v += (*limb as i128) << (32 * i);
    }
    if b.neg { -v } else { v }
}

fn row(vals: &[i64]) -> Vec<Big> {
    vals.iter().map(|v| big(*v)).collect()
}

fn basis(rows: &[&[i64]]) -> Vec<Vec<Big>> {
    rows.iter().map(|r| row(r)).collect()
}

fn rows_i128(b: &[Vec<Big>]) -> Vec<Vec<i128>> {
    b.iter().map(|r| r.iter().map(bigval).collect()).collect()
}

fn ratio(n: i64, d: i64) -> Rat {
    Rat::ratio_i64(n, d)
}

fn rat_is(r: &Rat, n: i128, d: i128) -> bool {
    bigval(&r.num) == n && bigval(&r.den) == d
}

fn sqn(r: &[i128]) -> i128 {
    r.iter().map(|x| x * x).sum()
}

#[test]
fn big_from_i64_round_trips() {
    assert_eq!(bigval(&big(0)), 0);
    assert_eq!(bigval(&big(1)), 1);
    assert_eq!(bigval(&big(-1)), -1);
    assert_eq!(bigval(&big(i64::MAX)), i64::MAX as i128);
    assert_eq!(bigval(&big(i64::MIN)), i64::MIN as i128);
    assert_eq!(bigval(&big(0x1_0000_0001)), 0x1_0000_0001);
}

#[test]
fn decimal_rendering_exact() {
    assert_eq!(big(0).to_decimal_bytes(), b"0".to_vec());
    assert_eq!(big(7).to_decimal_bytes(), b"7".to_vec());
    assert_eq!(big(-123).to_decimal_bytes(), b"-123".to_vec());
    assert_eq!(big(1048576).to_decimal_bytes(), b"1048576".to_vec());
    assert_eq!(
        big(i64::MIN).to_decimal_bytes(),
        b"-9223372036854775808".to_vec()
    );
}

#[test]
fn scalar_product_exact() {
    let a = row(&[2, 3]);
    let b = row(&[4, 5]);
    assert_eq!(bigval(&scalar_product(&a, &b)), 23);
    assert_eq!(bigval(&squared_norm(&a)), 13);
}

#[test]
fn rational_arithmetic_exact() {
    // the sum of one sixth and one third is exactly one half, in lowest terms
    let s = rat_add(&ratio(1, 6), &ratio(1, 3));
    assert!(rat_is(&s, 1, 2));
    let d = rat_sub(&Rat::from_i64(3), &Rat::from_i64(1));
    assert!(rat_is(&d, 2, 1));
    let p = rat_mul(&ratio(2, 3), &ratio(3, 4));
    assert!(rat_is(&p, 1, 2));
    let q = rat_div(&Rat::from_i64(1), &Rat::from_i64(3));
    assert!(rat_is(&q, 1, 3));
    assert!(rat_lt(&ratio(1, 3), &ratio(1, 2)));
    assert!(!rat_lt(&ratio(1, 2), &ratio(1, 3)));
    assert!(rat_le(&ratio(1, 2), &ratio(2, 4)));
}

#[test]
fn rounding_half_away_from_zero() {
    assert_eq!(bigval(&rat_round(&ratio(7, 2))), 4);
    assert_eq!(bigval(&rat_round(&ratio(-7, 2))), -4);
    assert_eq!(bigval(&rat_round(&ratio(5, 3))), 2);
    assert_eq!(bigval(&rat_round(&ratio(-1, 3))), 0);
    assert_eq!(bigval(&rat_round(&ratio(1, 3))), 0);
}

#[test]
fn sub_vec_subtracts_multiple() {
    let mut m = basis(&[&[5, 7], &[2, 3]]);
    sub_vec(&mut m, 0, 1, &big(2));
    assert_eq!(rows_i128(&m), vec![vec![1, 1], vec![2, 3]]);
}

#[test]
fn is_zero_detects_zero_rows() {
    assert!(is_zero(&row(&[0, 0, 0])));
    assert!(!is_zero(&row(&[0, 1, 0])));
}

#[test]
fn sum_ui_bi_combines_window() {
    let u = row(&[2, -1, 0]);
    let b = basis(&[&[1, 0], &[0, 1]]);
    let v = sum_ui_bi(&u, &b, 0, 1);
    assert_eq!(rows_i128(&[v]), vec![vec![2, -1]]);
}

#[test]
fn lll_two_rows_exact() {
    let mut b = basis(&[&[2, 0], &[1, 1]]);
    let (c, gs, done) = lll(&mut b, &ratio(3, 4), false);
    assert!(done);
    assert_eq!(rows_i128(&b), vec![vec![1, 1], vec![1, -1]]);
    assert!(rat_is(&c[0], 2, 1));
    assert!(rat_is(&c[1], 2, 1));
    assert!(rat_is(&gs[1][0], 0, 1));
}

#[test]
fn lll_applied_twice_changes_nothing() {
    let mut b = basis(&[&[1, 1, 1], &[-1, 0, 2], &[3, 5, 6]]);
    let (_, _, done1) = lll(&mut b, &ratio(3, 4), false);
    assert!(done1);
    let once = rows_i128(&b);
    let (_, _, done2) = lll(&mut b, &ratio(3, 4), false);
    assert!(done2);
    assert_eq!(once, rows_i128(&b));
}

#[test]
fn lll_drops_duplicate_row() {
    let mut b = basis(&[&[2, 0], &[2, 0], &[0, 3]]);
    let (c, gs, done) = lll(&mut b, &ratio(3, 4), false);
    assert!(done);
    assert_eq!(b.len(), 2);
    assert_eq!(c.len(), 2);
    assert_eq!(gs.len(), 2);
    // the two surviving rows still span the original planar lattice
    let r = rows_i128(&b);
    let det = r[0][0] * r[1][1] - r[0][1] * r[1][0];
    assert_eq!(det.abs(), 6);
}

#[test]
fn lll_first_row_never_longer() {
    let mut b = basis(&[&[7, 8], &[3, 1]]);
    let before = sqn(&rows_i128(&b)[0]);
    let (_, _, done) = lll(&mut b, &ratio(99, 100), false);
    assert!(done);
    assert!(sqn(&rows_i128(&b)[0]) <= before);
}

#[test]
fn lll_tables_satisfy_lovasz_and_size_bounds() {
    let mut b = basis(&[&[12, 1, 0], &[1, 13, 1], &[0, 1, 17]]);
    let (c, gs, done) = lll(&mut b, &ratio(99, 100), false);
    assert!(done);
    let m = b.len();
    for i in 1..m {
        for j in 0..i {
            // size reduction: |mu[i][j]| <= 1/2
            let num = bigval(&gs[i][j].num).abs();
            let den = bigval(&gs[i][j].den);
            assert!(2 * num <= den);
        }
        // Lovasz: 99/100 * c[i-1] <= c[i] + mu^2 * c[i-1], cross multiplied
        let (cn0, cd0) = (bigval(&c[i - 1].num), bigval(&c[i - 1].den));
        let (cn1, cd1) = (bigval(&c[i].num), bigval(&c[i].den));
        let (mn, md) = (bigval(&gs[i][i - 1].num), bigval(&gs[i][i - 1].den));
        // lhs = 99/100 * c0; rhs = c1 + (mn/md)^2 * c0
        // lhs <= rhs  <=>  99*cn0*(cd1*md*md*cd0) <= (cn1*md*md*cd0 + mn*mn*cn0*cd1)*100*cd0
        let lhs = 99 * cn0 * (cd1 * md * md * cd0);
        let rhs = (cn1 * md * md * cd0 + mn * mn * cn0 * cd1) * (100 * cd0);
        assert!(lhs <= rhs);
    }
}

#[test]
fn enumeration_finds_known_shortest_vector() {
    let mut b = basis(&[&[2, 0, 0], &[0, 2, 0], &[1, 1, 1]]);
    let (c, gs, done) = lll(&mut b, &ratio(99, 100), false);
    assert!(done);
    let k = b.len() - 1;
    let (_u, best, v) = bkz_enum(&b, &c, &gs, 0, k);
    // the shortest nonzero vector of this lattice is (+-1, +-1, +-1),
    // of squared norm exactly 3
    assert!(rat_is(&best, 3, 1));
    let vv: Vec<i128> = v.iter().map(bigval).collect();
    assert_eq!(sqn(&vv), 3);
    for x in &vv {
        assert_eq!(x.abs(), 1);
    }
}

#[test]
fn enumeration_keeps_seed_when_nothing_improves() {
    // an orthogonal basis admits no combination shorter than its first row:
    // the enumerator must hand back the untouched seed and the exact
    // starting bound
    let mut b = basis(&[&[2, 0], &[0, 3]]);
    let (c, gs, done) = lll(&mut b, &ratio(99, 100), false);
    assert!(done);
    let (u, best, v) = bkz_enum(&b, &c, &gs, 0, 1);
    assert!(rat_is(&best, 4, 1));
    let uu: Vec<i128> = u.iter().map(bigval).collect();
    assert_eq!(uu, vec![1, 0, 0]);
    assert_eq!(rows_i128(&[v]), vec![vec![2, 0]]);
}

#[test]
fn bkz_reduces_and_never_lengthens_first_row() {
    let mut b = basis(&[&[4, 1, 0], &[1, 3, 1], &[0, 1, 5]]);
    let before = sqn(&rows_i128(&b)[0]);
    let (c, gs, done) = bkz(&mut b, 3, &ratio(99, 100));
    assert!(done);
    assert!(!b.is_empty());
    let first = sqn(&rows_i128(&b)[0]);
    assert!(first <= before);
    // the returned tables describe the final basis: the leading norm entry
    // is exactly the first row's squared norm, and the coefficient table is
    // size-reduced
    assert!(rat_is(&c[0], first, 1));
    for i in 1..b.len() {
        for j in 0..i {
            assert!(2 * bigval(&gs[i][j].num).abs() <= bigval(&gs[i][j].den));
        }
    }
}
