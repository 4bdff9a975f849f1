use lattice_crypto_rs::lwe::{LWEPublicKey, LWE};
use lattice_crypto_rs::util::XorShift64;

fn make_lwe() -> LWE {
    LWE::new(4, 97, 42)
}

/// Draws `count` samples of the discrete Gaussian with standard deviation
/// 2.0 and center 0 by the Box-Muller transform, from a generator seeded with
/// `seed` (the sampler that produces the small polynomials of the scheme).
fn lwe_gaussian(seed: u64, count: usize) -> Vec<i64> {
    let mut rng = XorShift64::new(seed);
    let mut uniform = || ((rng.next_u64() >> 11) as f64) / (1u64 << 53) as f64;
    (0..count)
        .map(|_| {
            let u1 = uniform();
            let u2 = uniform();
            let mag = 2.0 * (-2.0 * u1.ln()).sqrt();
            let z = mag * (2.0 * std::f64::consts::PI * u2).cos();
            (z + 0.0).round() as i64
        })
        .collect()
}

/// Small errors in {-1, 0, 1}, drawn from a generator seeded with `seed`.
fn small_errors(seed: u64, count: usize) -> Vec<i64> {
    let mut rng = XorShift64::new(seed);
    (0..count).map(|_| rng.next_mod(3) - 1).collect()
}

type Sampler = fn(u64, usize) -> Vec<i64>;

fn public_key(lwe: &mut LWE, sk: &[i64], m: usize, sample: Sampler) -> LWEPublicKey {
    let seed = lwe.next_seed();
    let errors = sample(seed, m);
    lwe.public_keygen_with_errors(sk, m, &errors)
}

fn lwe_encrypt(lwe: &mut LWE, pk: &LWEPublicKey, m: u8, sample: Sampler) -> lattice_crypto_rs::lwe::LWECiphertext {
    let (idx, seed) = lwe.encrypt_pick(pk);
    let e = sample(seed, 1)[0];
    lwe.encrypt_with_error(pk, idx, m, e)
}

#[test]
fn test_keygen_length() {
    let mut lwe = make_lwe();
    let sk = lwe.keygen();
    assert_eq!(sk.len(), 4);
    for &s in &sk {
        assert!((0..97).contains(&s));
    }
}

#[test]
fn test_public_keygen() {
    let mut lwe = make_lwe();
    let sk = lwe.keygen();
    let pk = public_key(&mut lwe, &sk, 10, lwe_gaussian);
    assert_eq!(pk.a.len(), 10);
    assert_eq!(pk.b.len(), 10);
    assert_eq!(pk.a[0].len(), 4);
}

#[test]
fn lwe_test_encrypt_decrypt_zero() {
    let mut lwe = make_lwe();
    let sk = lwe.keygen();
    let pk = public_key(&mut lwe, &sk, 100, lwe_gaussian);
    let mut correct = 0;
    for _ in 0..20 {
        let ct = lwe_encrypt(&mut lwe, &pk, 0, lwe_gaussian);
        if lwe.decrypt(&sk, &ct) == 0 {
            correct += 1;
        }
    }
    assert!(correct >= 15, "Expected most encryptions of 0 to decrypt correctly, got {}/20", correct);
}

#[test]
fn lwe_test_encrypt_decrypt_one() {
    let mut lwe = make_lwe();
    let sk = lwe.keygen();
    let pk = public_key(&mut lwe, &sk, 100, lwe_gaussian);
    let mut correct = 0;
    for _ in 0..20 {
        let ct = lwe_encrypt(&mut lwe, &pk, 1, lwe_gaussian);
        if lwe.decrypt(&sk, &ct) == 1 {
            correct += 1;
        }
    }
    assert!(correct >= 15, "Expected most encryptions of 1 to decrypt correctly, got {}/20", correct);
}

#[test]
fn test_encrypt_decrypt_bits() {
    let mut lwe = make_lwe();
    let sk = lwe.keygen();
    let pk = public_key(&mut lwe, &sk, 200, lwe_gaussian);
    let msg = vec![1u8, 0, 1, 1, 0, 0, 1, 0];
    let cts: Vec<_> = msg.iter().map(|&b| lwe_encrypt(&mut lwe, &pk, b, lwe_gaussian)).collect();
    let dec = lwe.decrypt_bits(&sk, &cts);
    let correct = msg.iter().zip(dec.iter()).filter(|(a, b)| a == b).count();
    assert!(correct >= 6, "Expected most bits to decrypt correctly, got {}/8", correct);
}

#[test]
fn test_ciphertext_form() {
    let mut lwe = make_lwe();
    let sk = lwe.keygen();
    let pk = public_key(&mut lwe, &sk, 10, lwe_gaussian);
    let ct = lwe_encrypt(&mut lwe, &pk, 1, lwe_gaussian);
    assert_eq!(ct.a.len(), 4);
    assert!(ct.b >= 0 && ct.b < 97);
}

#[test]
fn lwe_small_noise_always_decrypts() {
    // with errors in {-1, 0, 1} the noise stays below q/4, so every bit decrypts
    let mut lwe = make_lwe();
    let sk = lwe.keygen();
    let pk = public_key(&mut lwe, &sk, 50, small_errors);
    for i in 0..40 {
        let m = (i % 2) as u8;
        let ct = lwe_encrypt(&mut lwe, &pk, m, small_errors);
        assert_eq!(lwe.decrypt(&sk, &ct), m);
    }
}

#[test]
fn lwe_public_key_rows_satisfy_equation() {
    let mut lwe = make_lwe();
    let sk = lwe.keygen();
    let errors = vec![1i64, -1, 0];
    let pk = lwe.public_keygen_with_errors(&sk, 3, &errors);
    for j in 0..3 {
        let dot: i64 = pk.a[j].iter().zip(sk.iter()).map(|(a, s)| a * s).sum();
        assert_eq!(pk.b[j], (dot + errors[j]).rem_euclid(97));
        assert!(pk.a[j].iter().all(|&x| (0..97).contains(&x)));
    }
}

#[test]
fn lwe_encrypt_with_error_formula() {
    let lwe = make_lwe();
    let pk = LWEPublicKey { a: vec![vec![1, 2, 3, 4]], b: vec![90] };
    let ct = lwe.encrypt_with_error(&pk, 0, 1, 5);
    assert_eq!(ct.a, vec![1, 2, 3, 4]);
    // 90 + 5 + 48 = 143 = 46 (mod 97)
    assert_eq!(ct.b, 46);
    let ct0 = lwe.encrypt_with_error(&pk, 0, 0, -91);
    assert_eq!(ct0.b, 96);
}

#[test]
fn lwe_decrypt_decodes_quarter_band() {
    let lwe = make_lwe();
    let sk = vec![0i64, 0, 0, 0];
    let ct = |b: i64| lattice_crypto_rs::lwe::LWECiphertext { a: vec![5, 6, 7, 8], b };
    // q/4 = 24, 3q/4 = 72: 1 exactly for 24 < v < 72
    assert_eq!(lwe.decrypt(&sk, &ct(24)), 0);
    assert_eq!(lwe.decrypt(&sk, &ct(25)), 1);
    assert_eq!(lwe.decrypt(&sk, &ct(71)), 1);
    assert_eq!(lwe.decrypt(&sk, &ct(72)), 0);
    assert_eq!(lwe.decrypt(&sk, &ct(0)), 0);
}

#[test]
fn lwe_encrypt_pick_stays_in_range() {
    let mut lwe = make_lwe();
    let pk = LWEPublicKey { a: vec![vec![0; 4]; 3], b: vec![0; 3] };
    for _ in 0..50 {
        let (idx, _seed) = lwe.encrypt_pick(&pk);
        assert!(idx < 3);
    }
}
