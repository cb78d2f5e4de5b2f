use ntru_lattice::big::Big;
use ntru_lattice::service::gcd;
use ntru_lattice::service::mod_center;
use ntru_lattice::zp::find_inv;
use ntru_lattice::zp::Zp;
use ntru_lattice::polyxnm1::init_polynomial_ring;
use ntru_lattice::polyxnm1::reduce_coeffs;
use ntru_lattice::polyxnm1::center_coeffs;
use ntru_lattice::polyxnm1::poly_mul_cyclic;
use ntru_lattice::polyxnm1::poly_add_mod;
use ntru_lattice::polyxnm1::poly_scale_mod;
use ntru_lattice::polyxnm1::poly_is_one;
use ntru_lattice::ntru::find_inv_polynomial;
use ntru_lattice::ntru::f2_to_fq;
use ntru_lattice::ntru::gen_polynomial;
use ntru_lattice::cryptoanalysis::create_lattice_basis;
use ntru_lattice::cryptoanalysis::svp_create_lattice_basis;
use ntru_lattice::cryptoanalysis::cvp_create_lattice_basis;
use ntru_lattice::cryptoanalysis::search_potentional_secret_key;
use ntru_lattice::cryptoanalysis::search_potentional_plaintext;

fn bigval(b: &Big) -> i128 {
    let mut v: i128 = 0;
    for (i, limb) in b.mag.iter().enumerate() {
        v += (*limb as i128) << (32 * i);
    }
    if b.neg { -v } else { v }
}

fn rows_i128(b: &[Vec<Big>]) -> Vec<Vec<i128>> {
    b.iter().map(|r| r.iter().map(bigval).collect()).collect()
}

fn big_rows(rows: &[&[i64]]) -> Vec<Vec<Big>> {
    rows.iter().map(|r| r.iter().map(|v| Big::from_i64(*v)).collect()).collect()
}

#[test]
fn gcd_exact_values() {
    assert_eq!(gcd(12, 8), 4);
    assert_eq!(gcd(7, 5), 1);
    assert_eq!(gcd(3, 32), 1);
    assert_eq!(gcd(0, 9), 9);
}

#[test]
fn mod_center_exact_values() {
    assert_eq!(mod_center(7, 5), 2);
    assert_eq!(mod_center(-7, 5), -2);
    assert_eq!(mod_center(8, 5), -2);
    assert_eq!(mod_center(16, 32), -16);
    assert_eq!(mod_center(-16, 32), 16);
    assert_eq!(mod_center(3, 7), 3);
}

#[test]
fn find_inv_exact_values() {
    assert_eq!(find_inv(3, 7), Some(5));
    assert_eq!(find_inv(1, 2), Some(1));
    assert_eq!(find_inv(4, 8), None);
    assert_eq!(find_inv(0, 5), None);
}

#[test]
fn zp_arithmetic() {
    assert_eq!(Zp::new(-5, 3).get(), 1);
    assert_eq!(Zp::new(2, 7).add(&Zp::new(6, 7)).get(), 1);
    assert_eq!(Zp::new(2, 7).sub(&Zp::new(6, 7)).get(), 3);
    assert_eq!(Zp::new(2, 7).mul(&Zp::new(5, 7)).get(), 3);
    // dividing by five multiplies by its inverse three: 3 * 3 == 9 == 2
    assert_eq!(Zp::new(3, 7).div(&Zp::new(5, 7)).get(), 2);
}

#[test]
fn cyclic_product_exact() {
    let a = vec![1, 2, 3];
    let b = vec![4, 5, 6];
    let r = poly_mul_cyclic(&a, &b, 3, 7);
    assert_eq!(r, vec![3, 3, 0]);
}

#[test]
fn coefficient_maps() {
    assert_eq!(reduce_coeffs(&vec![-1, 5, 7], 3), vec![2, 2, 1]);
    assert_eq!(center_coeffs(&vec![5, 3], 7), vec![-2, 3]);
    assert_eq!(poly_add_mod(&vec![2, 2], &vec![2, 0], 3), vec![1, 2]);
    assert_eq!(poly_scale_mod(&vec![2, 1], 2, 3), vec![1, 2]);
    assert!(poly_is_one(&vec![1, 0, 0], 3));
    assert!(!poly_is_one(&vec![1, 1, 0], 3));
    assert!(!poly_is_one(&vec![2, 0, 0], 3));
}

#[test]
fn polynomial_inverse_mod_three() {
    // (1 + x) * (2 + x + 2 x^2) == 1 in Z3[x]/(x^3 - 1)
    let f = vec![1, 1, 0];
    let inv = find_inv_polynomial(&f, 3, 3);
    assert_eq!(inv, Some(vec![2, 1, 2]));
    // x^3 - 1 factors as (x - 1)(x^2 + x + 1); a multiple of x - 1 has no
    // inverse
    let g = vec![2, 1, 0];
    assert_eq!(find_inv_polynomial(&g, 3, 3), None);
}

#[test]
fn inverse_lift_to_power_of_two() {
    // 1 + x + x^3 is a unit modulo 2 over five coefficients; its inverse
    // lifts to an inverse modulo 16
    let f = vec![1, 1, 0, 1, 0];
    let f2 = find_inv_polynomial(&f, 5, 2).expect("unit modulo two");
    let fq = f2_to_fq(&f, &f2, 5, 16).expect("lift verifies");
    let product = poly_mul_cyclic(&f, &fq, 5, 16);
    assert!(poly_is_one(&product, 5));
}

#[test]
fn generated_polynomial_has_exact_counts() {
    let v = gen_polynomial(3, 2, 9).expect("enough room for the draws");
    assert_eq!(v.len(), 9);
    assert_eq!(v.iter().filter(|x| **x == 1).count(), 3);
    assert_eq!(v.iter().filter(|x| **x == -1).count(), 2);
    assert!(v.iter().all(|x| -1 <= *x && *x <= 1));
}

#[test]
fn ring_parameters() {
    let params = init_polynomial_ring(5, 3, 16);
    assert_eq!(params.n, 5);
    assert_eq!(params.p, 3);
    assert_eq!(params.q, 16);
}

#[test]
fn key_recovery_basis_layout() {
    let b = create_lattice_basis(&vec![7, 9], 2, 5);
    assert_eq!(
        rows_i128(&b),
        vec![
            vec![1, 0, 7, 9],
            vec![0, 1, 9, 7],
            vec![0, 0, 5, 0],
            vec![0, 0, 0, 5],
        ]
    );
}

#[test]
fn key_recovery_basis_pads_short_keys() {
    let b = svp_create_lattice_basis(&vec![4], 2, 5);
    assert_eq!(
        rows_i128(&b),
        vec![
            vec![1, 0, 4, 0],
            vec![0, 1, 0, 4],
            vec![0, 0, 5, 0],
            vec![0, 0, 0, 5],
        ]
    );
}

#[test]
fn plaintext_recovery_basis_layout() {
    // h scaled by p modulo q: 3 * 2 == 6 == 1 modulo 5
    let b = cvp_create_lattice_basis(&vec![2], &vec![4], 1, 1, 3, 5);
    assert_eq!(
        rows_i128(&b),
        vec![vec![1, 1, 0], vec![0, 5, 0], vec![0, 4, 1]]
    );
}

#[test]
fn secret_key_search_finds_first_signature_row() {
    let basis = big_rows(&[
        &[2, 0, 0, 9, 9, 9],
        &[1, -1, 1, 4, 0, 4],
        &[1, 1, 1, 0, 0, 0],
    ]);
    // df == 2: the signature norm is 3; row one is the first match
    assert_eq!(search_potentional_secret_key(&basis, 2, 3), Some(1));
    // no row has norm 2 * 9 - 1
    assert_eq!(search_potentional_secret_key(&basis, 9, 3), None);
}

#[test]
fn plaintext_search_finds_first_signature_row() {
    let basis = big_rows(&[&[2, 0, 0, 9], &[1, -1, 0, 4]]);
    // dr == 1: the signature norm is 2; row one is the first match
    assert_eq!(search_potentional_plaintext(&basis, 1, 3), Some(1));
    assert_eq!(search_potentional_plaintext(&basis, 7, 3), None);
}
