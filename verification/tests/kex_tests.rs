use lattice_crypto_rs::rlwe_kex::{KexPublicMessage, RlweKex, SharedSecret};
use lattice_crypto_rs::util::{Poly, XorShift64};

fn make_kex() -> RlweKex {
    RlweKex::new(16, 1024, 42)
}

/// Draws `count` samples of the discrete Gaussian with standard deviation
/// 1.2 and center 0 by the Box-Muller transform, from a generator seeded with
/// `seed` (the sampler that produces the small polynomials of the scheme).
fn kex_gaussian(seed: u64, count: usize) -> Vec<i64> {
    let mut rng = XorShift64::new(seed);
    let mut uniform = || ((rng.next_u64() >> 11) as f64) / (1u64 << 53) as f64;
    (0..count)
        .map(|_| {
            let u1 = uniform();
            let u2 = uniform();
            let mag = 1.2 * (-2.0 * u1.ln()).sqrt();
            let z = mag * (2.0 * std::f64::consts::PI * u2).cos();
            (z + 0.0).round() as i64
        })
        .collect()
}

fn kex_gaussian_poly(seed: u64, n: usize) -> Poly {
    Poly::new(kex_gaussian(seed, n))
}

fn kex_alice_init(kex: &mut RlweKex, a: &Poly) -> (Poly, KexPublicMessage) {
    let s = kex_gaussian_poly(kex.next_seed(), kex.n);
    let e = kex_gaussian_poly(kex.next_seed(), kex.n);
    kex.alice_init_with(a, s, &e)
}

fn kex_bob_respond(kex: &mut RlweKex, a: &Poly, alice_pub: &KexPublicMessage) -> (Poly, KexPublicMessage, SharedSecret) {
    let s = kex_gaussian_poly(kex.next_seed(), kex.n);
    let e = kex_gaussian_poly(kex.next_seed(), kex.n);
    kex.bob_respond_with(a, alice_pub, s, &e)
}

#[test]
fn test_kex_basic() {
    let mut kex = make_kex();
    let a = kex.public_a();
    let (s_a, pub_a) = kex_alice_init(&mut kex, &a);
    let (_s_b, pub_b, key_b) = kex_bob_respond(&mut kex, &a, &pub_a);
    let key_a = kex.alice_derive(&s_a, &pub_b);
    assert_eq!(key_a.key, key_b.key, "shared secrets must match");
}

#[test]
fn test_kex_multiple_runs() {
    let mut kex = make_kex();
    let a = kex.public_a();
    let mut matches = 0;
    for _ in 0..20 {
        let (s_a, pub_a) = kex_alice_init(&mut kex, &a);
        let (_s_b, pub_b, key_b) = kex_bob_respond(&mut kex, &a, &pub_a);
        let key_a = kex.alice_derive(&s_a, &pub_b);
        if key_a.key == key_b.key {
            matches += 1;
        }
    }
    assert!(matches >= 18, "Expected high agreement rate, got {}/20", matches);
}

#[test]
fn kex_key_has_one_bit_per_coefficient() {
    let mut kex = make_kex();
    let a = kex.public_a();
    assert_eq!(a.coeffs.len(), 16);
    assert!(a.coeffs.iter().all(|&c| (0..1024).contains(&c)));
    let (s_a, pub_a) = kex_alice_init(&mut kex, &a);
    let (_s_b, pub_b, key_b) = kex_bob_respond(&mut kex, &a, &pub_a);
    let key_a = kex.alice_derive(&s_a, &pub_b);
    assert_eq!(key_a.key.len(), 2);
    assert_eq!(key_b.key.len(), 2);
}

#[test]
fn kex_public_message_formula() {
    let kex = RlweKex::new(4, 97, 7);
    // a = 1 + x, s = x, e = [1, 0, 0, -1]: p = [1, 1, 1, 96]
    let (s, msg) = kex.alice_init_with(
        &Poly::new(vec![1, 1, 0, 0]),
        Poly::new(vec![0, 1, 0, 0]),
        &Poly::new(vec![1, 0, 0, -1]),
    );
    assert_eq!(s.coeffs, vec![0, 1, 0, 0]);
    assert_eq!(msg.p.coeffs, vec![1, 1, 1, 96]);
}

#[test]
fn kex_noise_difference_cancels() {
    // v_A - v_B = e_B·s_A - e_A·s_B (mod q)
    let mut kex = make_kex();
    let a = kex.public_a();
    let s_a = kex_gaussian_poly(kex.next_seed(), 16);
    let e_a = kex_gaussian_poly(kex.next_seed(), 16);
    let s_b = kex_gaussian_poly(kex.next_seed(), 16);
    let e_b = kex_gaussian_poly(kex.next_seed(), 16);
    let (_, pub_a) = kex.alice_init_with(&a, s_a.clone(), &e_a);
    let (_, pub_b, _key_b) = kex.bob_respond_with(&a, &pub_a, s_b.clone(), &e_b);
    let v_a = pub_b.p.mul_ring(&s_a, 1024, 16);
    let v_b = pub_a.p.mul_ring(&s_b, 1024, 16);
    let n_ba = e_b.mul_ring(&s_a, 1024, 16);
    let n_ab = e_a.mul_ring(&s_b, 1024, 16);
    for k in 0..16 {
        let d = v_a.coeffs[k] - v_b.coeffs[k] - (n_ba.coeffs[k] - n_ab.coeffs[k]);
        assert_eq!(d.rem_euclid(1024), 0, "at {}", k);
    }
}
