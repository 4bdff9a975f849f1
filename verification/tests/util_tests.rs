use lattice_crypto_rs::util::{
    dot_mod, extended_gcd, mod_inverse, mod_pos, mod_pow, vec_add_mod, Poly, XorShift64,
};

#[test]
fn test_mod_pos() {
    assert_eq!(mod_pos(10, 7), 3);
    assert_eq!(mod_pos(-3, 7), 4);
    assert_eq!(mod_pos(0, 5), 0);
    assert_eq!(mod_pos(-7, 7), 0);
}

#[test]
fn test_mod_pow() {
    assert_eq!(mod_pow(2, 10, 1000), 24);
    assert_eq!(mod_pow(3, 0, 7), 1);
    assert_eq!(mod_pow(5, 3, 13), 125 % 13);
}

#[test]
fn test_mod_inverse() {
    let inv = mod_inverse(3, 7).unwrap();
    assert_eq!((inv * 3) % 7, 1);
    assert!(mod_inverse(2, 4).is_none()); // gcd(2,4) != 1
}

#[test]
fn test_extended_gcd() {
    let (g, x, y) = extended_gcd(240, 46);
    assert_eq!(g, 2);
    assert_eq!(240 * x + 46 * y, 2);
}

#[test]
fn test_dot_mod() {
    let a = vec![1, 2, 3];
    let b = vec![4, 5, 6];
    assert_eq!(dot_mod(&a, &b, 100), (4 + 10 + 18));
}

#[test]
fn test_vec_add_mod() {
    let a = vec![5, 10, 15];
    let b = vec![3, 6, 9];
    let result = vec_add_mod(&a, &b, 20);
    assert_eq!(result, vec![8, 16, 4]);
}

#[test]
fn test_poly_add() {
    let p1 = Poly::new(vec![1, 2, 3]);
    let p2 = Poly::new(vec![4, 5, 6]);
    let sum = p1.add_mod(&p2, 100, 3);
    assert_eq!(sum.coeffs, vec![5, 7, 9]);
}

#[test]
fn test_poly_mul_ring() {
    // (1 + x) * (1 + x) = 1 + 2x + x^2 in ring of degree 4
    let p1 = Poly::new(vec![1, 1, 0, 0]);
    let p2 = Poly::new(vec![1, 1, 0, 0]);
    let prod = p1.mul_ring(&p2, 1000, 4);
    assert_eq!(prod.coeffs, vec![1, 2, 1, 0]);
}

#[test]
fn test_xorshift() {
    let mut rng = XorShift64::new(42);
    let v1 = rng.next_u64();
    let v2 = rng.next_u64();
    assert_ne!(v1, v2);
    assert_ne!(v1, 0);
}

#[test]
fn mod_inverse_exists_exactly_for_units() {
    for a in -20i64..20 {
        let g = extended_gcd(mod_pos(a, 12), 12).0;
        match mod_inverse(a, 12) {
            Some(x) => {
                assert_eq!(g, 1);
                assert!((0..12).contains(&x));
                assert_eq!((a * x).rem_euclid(12), 1);
            }
            None => assert_ne!(g, 1),
        }
    }
}

#[test]
fn extended_gcd_bezout_identity() {
    for &(a, b) in &[(0i64, 0i64), (0, 9), (9, 0), (35, 15), (17, 5), (1, 1)] {
        let (g, x, y) = extended_gcd(a, b);
        assert_eq!(a * x + b * y, g);
        if a != 0 || b != 0 {
            assert!(g > 0 && a % g == 0 && b % g == 0);
        }
    }
}

#[test]
fn xorshift_never_yields_zero_and_seed_zero_is_replaced() {
    let mut a = XorShift64::new(0);
    let mut b = XorShift64::new(1);
    for _ in 0..100 {
        let x = a.next_u64();
        assert_ne!(x, 0);
        assert_eq!(x, b.next_u64());
    }
}

#[test]
fn mod_pow_matches_repeated_multiplication() {
    let mut acc = 1i64;
    for e in 0u64..20 {
        assert_eq!(mod_pow(7, e, 101), acc);
        acc = acc * 7 % 101;
    }
}

#[test]
fn extended_gcd_with_negative_inputs() {
    for &(a, b) in &[(-240i64, 46i64), (240, -46), (-240, -46), (-7, 0), (0, -9), (-1, 1), (13, -13)] {
        let (g, x, y) = extended_gcd(a, b);
        assert_eq!(a * x + b * y, g);
        assert_eq!(g.abs(), if (a, b) == (-7, 0) { 7 } else if (a, b) == (0, -9) { 9 } else if a.abs() == 1 || b.abs() == 1 { 1 } else if a.abs() == 13 { 13 } else { 2 });
    }
    // the sign of the gcd is the one the division steps leave
    assert_eq!(extended_gcd(0, -9), (-9, 0, 1));
    assert_eq!(extended_gcd(-240, 46).0, 2);
    assert_eq!(extended_gcd(240, -46).0, -2);
}
