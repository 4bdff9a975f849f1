use lattice_crypto_rs::ntru::{invert_negacyclic, Ntru};
use lattice_crypto_rs::LatticeError;
use lattice_crypto_rs::util::{mod_pos, Poly};

fn make_ntru() -> Ntru {
    Ntru::new(16, 3, 257, 3, 42)
}

#[test]
fn ntru_test_keygen() {
    let mut ntru = make_ntru();
    let kp = ntru.keygen().unwrap();
    assert_eq!(kp.h.coeffs.len(), 16);
    assert_eq!(kp.f.coeffs.len(), 16);
    assert_eq!(kp.f_p.coeffs.len(), 16);
}

#[test]
fn ntru_test_encrypt_decrypt_zero() {
    let mut ntru = make_ntru();
    let kp = ntru.keygen().unwrap();
    let msg = Poly::zero(16);
    let ct = ntru.encrypt(&kp, &msg);
    let dec = ntru.decrypt(&kp, &ct);
    assert!(dec.coeffs.iter().all(|&c| c == 0));
}

#[test]
fn ntru_test_encrypt_decrypt_one() {
    let mut ntru = make_ntru();
    let kp = ntru.keygen().unwrap();
    let mut coeffs = vec![0i64; 16];
    coeffs[0] = 1;
    let msg = Poly::new(coeffs);
    let ct = ntru.encrypt(&kp, &msg);
    let dec = ntru.decrypt(&kp, &ct);
    assert_eq!(dec.coeffs[0], 1);
    assert!(dec.coeffs[1..].iter().all(|&c| c == 0));
}

#[test]
fn ntru_test_encrypt_decrypt_bit() {
    let mut ntru = make_ntru();
    let kp = ntru.keygen().unwrap();
    let mut correct = 0;
    for _ in 0..20 {
        let ct = ntru.encrypt_bit(&kp, 1);
        if ntru.decrypt_bit(&kp, &ct) == 1 {
            correct += 1;
        }
    }
    assert!(correct >= 18, "Expected high decryption rate, got {}/20", correct);
}

#[test]
fn test_invert_negacyclic_identity() {
    let f = Poly::new(vec![1, 0, 0, 0]);
    let inv = invert_negacyclic(&f, 97, 4).unwrap();
    assert_eq!(inv.coeffs, vec![1, 0, 0, 0]);
}

#[test]
fn test_invert_negacyclic_roundtrip() {
    let f = Poly::new(vec![1, 1, 0, 0]);
    let inv = invert_negacyclic(&f, 97, 4).unwrap();
    let prod = f.mul_ring(&inv, 97, 4);
    assert!(prod.coeffs.iter().enumerate().all(|(i, &c)| {
        if i == 0 { mod_pos(c, 97) == 1 } else { mod_pos(c, 97) == 0 }
    }));
}

#[test]
fn invert_negacyclic_none_for_non_unit_modulo_prime() {
    // 1 + x is a zero divisor modulo 2 in Z_2[x]/(x^2 + 1): (1 + x)^2 = 2x = 0
    assert!(invert_negacyclic(&Poly::new(vec![1, 1]), 2, 2).is_none());
    // the zero polynomial has no inverse
    assert!(invert_negacyclic(&Poly::new(vec![0, 0, 0, 0]), 97, 4).is_none());
}

#[test]
fn invert_negacyclic_inverse_has_reduced_coefficients() {
    let f = Poly::new(vec![3, -1, 0, 2]);
    let inv = invert_negacyclic(&f, 97, 4).unwrap();
    assert!(inv.coeffs.iter().all(|&c| (0..97).contains(&c)));
    let prod = f.mul_ring(&inv, 97, 4);
    assert_eq!(prod.coeffs, vec![1, 0, 0, 0]);
}

#[test]
fn random_trinary_has_d_of_each_sign() {
    let mut ntru = Ntru::new(16, 3, 257, 5, 7);
    for _ in 0..10 {
        let t = ntru.random_trinary();
        assert_eq!(t.coeffs.len(), 16);
        assert_eq!(t.coeffs.iter().filter(|&&c| c == 1).count(), 5);
        assert_eq!(t.coeffs.iter().filter(|&&c| c == -1).count(), 5);
        assert!(t.coeffs.iter().all(|&c| (-1..=1).contains(&c)));
    }
}

#[test]
fn ntru_decrypts_every_small_message() {
    let mut ntru = make_ntru();
    let kp = ntru.keygen().unwrap();
    for pattern in 0..8i64 {
        let coeffs: Vec<i64> = (0..16).map(|i| ((pattern >> (i % 3)) & 1) - ((i as i64) % 2) * ((pattern >> 2) & 1)).collect();
        let msg = Poly::new(coeffs.clone());
        let ct = ntru.encrypt(&kp, &msg);
        let dec = ntru.decrypt(&kp, &ct);
        for i in 0..16 {
            assert_eq!(mod_pos(dec.coeffs[i], 3), mod_pos(coeffs[i], 3));
        }
    }
}

#[test]
fn invert_negacyclic_takes_a_unit_pivot_modulo_power_of_two() {
    // 2 + x in Z_4[x]/(x^2 + 1): the first entry of the first column, 2, is not
    // a unit modulo 4, the one below it is
    let f = Poly::new(vec![2, 1]);
    let inv = invert_negacyclic(&f, 4, 2).unwrap();
    assert_eq!(f.mul_ring(&inv, 4, 2).coeffs, vec![1, 0]);
    // 1 + x is not invertible modulo 4: it is not invertible modulo 2
    assert!(invert_negacyclic(&Poly::new(vec![1, 1]), 4, 2).is_none());
    // an identity constant
    assert_eq!(invert_negacyclic(&Poly::new(vec![1]), 4, 1).unwrap().coeffs, vec![1]);
}

#[test]
fn invert_negacyclic_accepts_min_constant_coefficient() {
    let inv = invert_negacyclic(&Poly::new(vec![i64::MIN, 0]), 97, 2).unwrap();
    assert_eq!(inv.coeffs[1], 0);
    assert_eq!((mod_pos(i64::MIN, 97) * inv.coeffs[0]) % 97, 1);
}

#[test]
fn ntru_keygen_fails_for_power_of_two_modulus() {
    // a trinary f with d ones and d minus ones has f(1) = 0, so it is a zero
    // divisor modulo 2 in Z_2[x]/(x^16 + 1) = Z_2[x]/((x + 1)^16), hence never
    // invertible modulo 2048: every attempt fails
    let mut ntru = Ntru::new(16, 3, 2048, 3, 42);
    assert_eq!(ntru.keygen(), Err(LatticeError::SamplingFailed));
    // an odd number of nonzero coefficients is invertible modulo 2048
    let f = Poly::new(vec![1, 1, -1, 0, 0, 0, 0, 0, 0, 0, 0, 0, 0, 0, 0, 0]);
    let inv = invert_negacyclic(&f, 2048, 16).unwrap();
    let prod = f.mul_ring(&inv, 2048, 16);
    assert_eq!(prod.coeffs[0], 1);
    assert!(prod.coeffs[1..].iter().all(|&c| c == 0));
}
