use ntru_lattice::big::Big;
use ntru_lattice::rat::Rat;
use ntru_lattice::bkz::bkz;
use ntru_lattice::polyxnm1::init_polynomial_ring;
use ntru_lattice::ntru::ntru_gen_keys;
use ntru_lattice::ntru::ntru_encrypt;
use ntru_lattice::ntru::ntru_decrypt;
use ntru_lattice::ntru::gen_m;
use ntru_lattice::cryptoanalysis::svp_create_lattice_basis;
use ntru_lattice::cryptoanalysis::search_potentional_secret_key;

fn bigval(b: &Big) -> i128 {
    let mut v: i128 = 0;
    for (i, limb) in b.mag.iter().enumerate() {
        v += (*limb as i128) << (32 * i);
    }
    if b.neg { -v } else { v }
}

#[test]
fn encrypt_decrypt_round_trip() {
    let params = init_polynomial_ring(5, 3, 64);
    let (h, (f, fp)) = ntru_gen_keys(2, 1, &params).expect("keys within retry budget");
    let message = vec![1, -1, 0, 1, 0];
    let e = ntru_encrypt(1, &h, &message, &params).expect("blinding within retry budget");
    let decrypted = ntru_decrypt(&f, &fp, &e, &params);
    assert_eq!(decrypted, message);
}

#[test]
fn random_message_is_small_and_centered() {
    let m = gen_m(5, 3);
    assert_eq!(m.len(), 5);
    assert!(m.iter().all(|x| -1 <= *x && *x <= 1));
}

#[test]
fn key_recovery_attack_on_small_ring() {
    // a full key-recovery run on a small ring: build the lattice from a
    // fresh public key, reduce it with a full-width block, and find a row
    // carrying a key of the expected signature
    let n: usize = 5;
    let q: u64 = 16;
    let df: u8 = 2;
    let params = init_polynomial_ring(n, 3, q);
    let (h, (_f, _fp)) = ntru_gen_keys(df, 1, &params).expect("keys within retry budget");
    let mut basis = svp_create_lattice_basis(&h, n, q);
    let (_c, _gs, done) = bkz(&mut basis, 2 * n, &Rat::ratio_i64(99, 100));
    assert!(done);
    let hit = search_potentional_secret_key(&basis, df, n).expect("a key-shaped row");
    let prefix: Vec<i128> = basis[hit][..n].iter().map(bigval).collect();
    assert!(prefix.iter().all(|x| x.abs() <= 1));
    let norm: i128 = prefix.iter().map(|x| x * x).sum();
    assert_eq!(norm, 2 * df as i128 - 1);
}

