use lattice_crypto_rs::lattice::{gcd, lcm};
use lattice_crypto_rs::rlwe_kex::reconcile;
use lattice_crypto_rs::util::Poly;

#[test]
fn test_gcd() {
    assert_eq!(gcd(12, 8), 4);
    assert_eq!(gcd(7, 13), 1);
    assert_eq!(gcd(0, 5), 5);
}

#[test]
fn test_lcm() {
    assert_eq!(lcm(4, 6), 12);
    assert_eq!(lcm(7, 13), 91);
}

#[test]
fn gcd_and_lcm_of_negatives_and_zero() {
    assert_eq!(gcd(-12, 18), 6);
    assert_eq!(gcd(0, 0), 0);
    assert_eq!(lcm(-4, 6), 12);
    assert_eq!(lcm(0, 6), 0);
}

#[test]
fn test_reconcile_deterministic() {
    let v = Poly::new(vec![50, 200, 10, 240, 128, 64, 192, 30]);
    let k1 = reconcile(&v, 257, 8);
    let k2 = reconcile(&v, 257, 8);
    assert_eq!(k1, k2);
}

#[test]
fn reconcile_packs_msb_first() {
    // q = 257, threshold 128: bits 0,1,0,1,1,0,1,0 -> 0b0101_1010
    let v = Poly::new(vec![50, 200, 10, 240, 128, 64, 192, 30]);
    assert_eq!(reconcile(&v, 257, 8), vec![0b0101_1010]);
    // nine coefficients: the last bit goes into the top of a second byte
    let w = Poly::new(vec![200, 0, 0, 0, 0, 0, 0, 0, -1]);
    assert_eq!(reconcile(&w, 257, 9), vec![0b1000_0000, 0b1000_0000]);
}

#[test]
fn poly_add_mod_is_commutative() {
    let a = Poly::new(vec![-50, 49, 3, 0, 17]);
    let b = Poly::new(vec![12, -7, 44, -33]);
    let ab = a.add_mod(&b, 57, 5);
    let ba = b.add_mod(&a, 57, 5);
    assert_eq!(ab.coeffs, ba.coeffs);
    assert_eq!(ab.coeffs, vec![19, 42, 47, 24, 17]);
}

#[test]
fn poly_mul_ring_is_commutative_and_reduced() {
    let a = Poly::new(vec![-5, 4, 3, -2, 1]);
    let b = Poly::new(vec![2, -3, 0, 4, -1]);
    let ab = a.mul_ring(&b, 61, 5);
    let ba = b.mul_ring(&a, 61, 5);
    assert_eq!(ab.coeffs, ba.coeffs);
    assert_eq!(ab.coeffs.len(), 5);
    assert!(ab.coeffs.iter().all(|&c| (0..61).contains(&c)));
}

#[test]
fn poly_mul_ring_wraps_negacyclically() {
    // x^3 · x = x^4 = -1 in Z_q[x]/(x^4 + 1)
    let x3 = Poly::new(vec![0, 0, 0, 1]);
    let x = Poly::new(vec![0, 1, 0, 0]);
    assert_eq!(x3.mul_ring(&x, 97, 4).coeffs, vec![96, 0, 0, 0]);
}
