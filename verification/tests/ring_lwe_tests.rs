use lattice_crypto_rs::ring_lwe::{RingCiphertext, RingKeyPair, RingLWE};
use lattice_crypto_rs::util::{Poly, XorShift64};

fn make_ring_lwe() -> RingLWE {
    RingLWE::new(4, 97, 42)
}

/// Draws `count` samples of the discrete Gaussian with standard deviation
/// 1.5 and center 0 by the Box-Muller transform, from a generator seeded with
/// `seed` (the sampler that produces the small polynomials of the scheme).
fn ring_gaussian(seed: u64, count: usize) -> Vec<i64> {
    let mut rng = XorShift64::new(seed);
    let mut uniform = || ((rng.next_u64() >> 11) as f64) / (1u64 << 53) as f64;
    (0..count)
        .map(|_| {
            let u1 = uniform();
            let u2 = uniform();
            let mag = 1.5 * (-2.0 * u1.ln()).sqrt();
            let z = mag * (2.0 * std::f64::consts::PI * u2).cos();
            (z + 0.0).round() as i64
        })
        .collect()
}

/// Small samples in {-1, 0, 1}, drawn from a generator seeded with `seed`.
fn ring_small(seed: u64, count: usize) -> Vec<i64> {
    let mut rng = XorShift64::new(seed);
    (0..count).map(|_| rng.next_mod(3) - 1).collect()
}

type Sampler = fn(u64, usize) -> Vec<i64>;

fn ring_keygen(rlwe: &mut RingLWE, sample: Sampler) -> RingKeyPair {
    let a = rlwe.random_poly();
    let secret = Poly::new(sample(rlwe.next_seed(), rlwe.n));
    let e = Poly::new(sample(rlwe.next_seed(), rlwe.n));
    rlwe.keygen_with(a, secret, e)
}

fn ring_encrypt(rlwe: &mut RingLWE, kp: &RingKeyPair, msg: &Poly, sample: Sampler) -> RingCiphertext {
    let r = Poly::new(sample(rlwe.next_seed(), rlwe.n));
    let e1 = Poly::new(sample(rlwe.next_seed(), rlwe.n));
    let e2 = Poly::new(sample(rlwe.next_seed(), rlwe.n));
    rlwe.encrypt_with(kp, msg, &r, &e1, &e2)
}

fn ring_encrypt_bit(rlwe: &mut RingLWE, kp: &RingKeyPair, bit: u8) -> RingCiphertext {
    let r = Poly::new(ring_gaussian(rlwe.next_seed(), rlwe.n));
    let e1 = Poly::new(ring_gaussian(rlwe.next_seed(), rlwe.n));
    let e2 = Poly::new(ring_gaussian(rlwe.next_seed(), rlwe.n));
    rlwe.encrypt_bit_with(kp, bit, &r, &e1, &e2)
}

#[test]
fn test_ring_lwe_creation() {
    let rlwe = make_ring_lwe();
    assert_eq!(rlwe.n, 4);
    assert_eq!(rlwe.q, 97);
}

#[test]
fn ring_lwe_test_keygen() {
    let mut rlwe = make_ring_lwe();
    let kp = ring_keygen(&mut rlwe, ring_gaussian);
    assert_eq!(kp.secret.coeffs.len(), 4);
    assert_eq!(kp.a.coeffs.len(), 4);
    assert_eq!(kp.b.coeffs.len(), 4);
}

#[test]
fn test_encrypt_zero_polynomial() {
    let mut rlwe = make_ring_lwe();
    let kp = ring_keygen(&mut rlwe, ring_gaussian);
    let msg = Poly::zero(4);
    let ct = ring_encrypt(&mut rlwe, &kp, &msg, ring_gaussian);
    assert_eq!(ct.c1.coeffs.len(), 4);
    assert_eq!(ct.c2.coeffs.len(), 4);
}

#[test]
fn ring_lwe_test_encrypt_decrypt_zero() {
    let mut rlwe = make_ring_lwe();
    let kp = ring_keygen(&mut rlwe, ring_gaussian);
    let msg = Poly::zero(4);
    let mut correct = 0;
    for _ in 0..10 {
        let ct = ring_encrypt(&mut rlwe, &kp, &msg, ring_gaussian);
        let dec = rlwe.decrypt(&kp, &ct);
        if dec.coeffs.iter().all(|&c| c == 0) {
            correct += 1;
        }
    }
    assert!(correct >= 6, "Expected most zero encryptions to decrypt correctly, got {}/10", correct);
}

#[test]
fn ring_lwe_test_encrypt_decrypt_one() {
    let mut rlwe = make_ring_lwe();
    let kp = ring_keygen(&mut rlwe, ring_gaussian);
    let msg = Poly::new(vec![1, 0, 0, 0]);
    let mut correct = 0;
    for _ in 0..10 {
        let ct = ring_encrypt(&mut rlwe, &kp, &msg, ring_gaussian);
        let dec = rlwe.decrypt(&kp, &ct);
        if dec.coeffs[0] == 1 && dec.coeffs[1..].iter().all(|&c| c == 0) {
            correct += 1;
        }
    }
    assert!(correct >= 6, "Expected most one encryptions to decrypt correctly, got {}/10", correct);
}

#[test]
fn ring_lwe_test_encrypt_decrypt_bit() {
    let mut rlwe = make_ring_lwe();
    let kp = ring_keygen(&mut rlwe, ring_gaussian);
    let mut correct = 0;
    for _ in 0..20 {
        let ct = ring_encrypt_bit(&mut rlwe, &kp, 1);
        if rlwe.decrypt_bit(&kp, &ct) == 1 {
            correct += 1;
        }
    }
    assert!(correct >= 14, "Expected most bit encryptions to decrypt correctly, got {}/20", correct);
}

#[test]
fn test_key_pair_public_key_relation() {
    let mut rlwe = make_ring_lwe();
    let kp = ring_keygen(&mut rlwe, ring_gaussian);
    assert_eq!(kp.b.coeffs.len(), kp.a.coeffs.len());
}

#[test]
fn test_multiple_keygens_differ() {
    let mut rlwe = make_ring_lwe();
    let kp1 = ring_keygen(&mut rlwe, ring_gaussian);
    let kp2 = ring_keygen(&mut rlwe, ring_gaussian);
    assert_ne!(kp1.secret, kp2.secret, "Consecutive keygens should differ");
}

#[test]
fn test_encrypt_decrypt_all_zeros() {
    let mut rlwe = make_ring_lwe();
    let kp = ring_keygen(&mut rlwe, ring_gaussian);
    let msg = Poly::new(vec![0, 0, 0, 0]);
    let mut correct = 0;
    for _ in 0..20 {
        let ct = ring_encrypt(&mut rlwe, &kp, &msg, ring_gaussian);
        let dec = rlwe.decrypt(&kp, &ct);
        if dec.coeffs.iter().all(|&c| c == 0) {
            correct += 1;
        }
    }
    assert!(correct >= 14, "All-zero message should decrypt reliably, got {}/20", correct);
}

#[test]
fn test_encrypt_decrypt_all_ones() {
    let mut rlwe = make_ring_lwe();
    let kp = ring_keygen(&mut rlwe, ring_gaussian);
    let msg = Poly::new(vec![1, 1, 1, 1]);
    let mut correct = 0;
    for _ in 0..20 {
        let ct = ring_encrypt(&mut rlwe, &kp, &msg, ring_gaussian);
        let dec = rlwe.decrypt(&kp, &ct);
        if dec.coeffs.iter().all(|&c| c == 1) {
            correct += 1;
        }
    }
    assert!(correct >= 12, "All-ones message should decrypt somewhat reliably, got {}/20", correct);
}

#[test]
fn test_ciphertext_components_correct_size() {
    let mut rlwe = make_ring_lwe();
    let kp = ring_keygen(&mut rlwe, ring_gaussian);
    let msg = Poly::new(vec![0, 1, 0, 1]);
    let ct = ring_encrypt(&mut rlwe, &kp, &msg, ring_gaussian);
    assert_eq!(ct.c1.coeffs.len(), 4);
    assert_eq!(ct.c2.coeffs.len(), 4);
    for &c in &ct.c1.coeffs {
        assert!(c >= 0 && c < 97);
    }
    for &c in &ct.c2.coeffs {
        assert!(c >= 0 && c < 97);
    }
}

#[test]
fn ring_lwe_small_noise_always_decrypts() {
    // noise e·r + e2 - e1·s stays below q/4 with coefficients in {-1, 0, 1}
    let mut rlwe = make_ring_lwe();
    let kp = ring_keygen(&mut rlwe, ring_small);
    for pattern in 0..16u32 {
        let msg = Poly::new((0..4).map(|i| ((pattern >> i) & 1) as i64).collect());
        let ct = ring_encrypt(&mut rlwe, &kp, &msg, ring_small);
        assert_eq!(rlwe.decrypt(&kp, &ct).coeffs, msg.coeffs);
    }
}

#[test]
fn ring_lwe_keygen_with_formula() {
    let rlwe = make_ring_lwe();
    // a = 1 + x, s = x, e = [1, 0, 0, -1]: a·s = x + x^2, b = [1, 1, 1, 96]
    let kp = rlwe.keygen_with(
        Poly::new(vec![1, 1, 0, 0]),
        Poly::new(vec![0, 1, 0, 0]),
        Poly::new(vec![1, 0, 0, -1]),
    );
    assert_eq!(kp.b.coeffs, vec![1, 1, 1, 96]);
}

#[test]
fn ring_lwe_decrypt_exact_values() {
    let rlwe = make_ring_lwe();
    let kp = RingKeyPair {
        secret: Poly::new(vec![0, 0, 0, 0]),
        a: Poly::new(vec![0, 0, 0, 0]),
        b: Poly::new(vec![0, 0, 0, 0]),
    };
    // with s = 0 decryption decodes c2 itself: 24 -> 0, 25 -> 1, 71 -> 1, 72 -> 0
    let ct = RingCiphertext { c1: Poly::new(vec![3, 4, 5, 6]), c2: Poly::new(vec![24, 25, 71, 72]) };
    assert_eq!(rlwe.decrypt(&kp, &ct).coeffs, vec![0, 1, 1, 0]);
    assert_eq!(rlwe.decrypt_bit(&kp, &ct), 0);
}
