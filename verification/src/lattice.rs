//! Integer helpers for lattice bases: greatest common divisor and least common
//! multiple.

use crate::util::{abs, divides, gcd_spec, lemma_gcd_divides, lemma_gcd_symmetric};
use vstd::arithmetic::div_mod::*;
use vstd::arithmetic::mul::*;
use vstd::prelude::*;

verus! {

/// Compute the GCD of two integers using the Euclidean algorithm.
pub fn gcd(a: i64, b: i64) -> (g: i64)
    requires
        a > i64::MIN,
        b > i64::MIN,
    ensures
        g == gcd_spec(abs(a as int) as nat, abs(b as int) as nat),
        g >= 0,
{
    let mut x = if a < 0 { -a } else { a };
    let mut y = if b < 0 { -b } else { b };
    let ghost g0 = gcd_spec(abs(b as int) as nat, abs(a as int) as nat);
    while y != 0
        invariant
            x >= 0,
            y >= 0,
            gcd_spec(y as nat, x as nat) == g0,
        decreases y,
    {
        let t = y;
        proof {
            lemma_mod_bound(x as int, y as int);
        }
        y = x % y;
        x = t;
    }
    proof {
        lemma_gcd_symmetric(abs(a as int) as nat, abs(b as int) as nat);
    }
    x
}

/// Compute the LCM of two integers.
pub fn lcm(a: i64, b: i64) -> (l: i64)
    requires
        a > i64::MIN,
        b > i64::MIN,
        a != 0 && b != 0 ==> (abs(a as int) / gcd_spec(abs(a as int) as nat, abs(b as int) as nat) as int)
            * abs(b as int) <= i64::MAX,
    ensures
        l == (if a == 0 || b == 0 {
            0
        } else {
            (abs(a as int) / gcd_spec(abs(a as int) as nat, abs(b as int) as nat) as int) * abs(
                b as int,
            )
        }),
{
    if a == 0 || b == 0 {
        0
    } else {
        let g = gcd(a, b);
        proof {
            lemma_gcd_divides(abs(a as int) as nat, abs(b as int) as nat);
        }
        let x = if a < 0 { -a } else { a };
        let y = if b < 0 { -b } else { b };
        assert(0 <= x / g <= x) by {
            lemma_div_pos_is_pos(x as int, g as int);
            lemma_div_is_ordered_by_denominator(x as int, 1, g as int);
        }
        (x / g) * y
    }
}

/// `lcm(a, b)` is a common multiple of `a` and `b`.
pub proof fn lemma_lcm_common_multiple(a: int, b: int)
    requires
        a != 0,
        b != 0,
    ensures
        ({
            let g = gcd_spec(abs(a) as nat, abs(b) as nat) as int;
            let l = (abs(a) / g) * abs(b);
            l % abs(a) == 0 && l % abs(b) == 0 && l > 0
        }),
{
    let x = abs(a);
    let y = abs(b);
    lemma_gcd_divides(x as nat, y as nat);
    let g = gcd_spec(x as nat, y as nat) as int;
    lemma_fundamental_div_mod(x, g);
    lemma_fundamental_div_mod(y, g);
    let kx = x / g;
    let ky = y / g;
    assert(x == g * kx);
    assert(y == g * ky);
    assert(kx * y == x * ky) by (nonlinear_arith)
        requires
            x == g * kx,
            y == g * ky,
    ;
    assert(kx > 0) by (nonlinear_arith)
        requires
            x == g * kx,
            x > 0,
            g > 0,
    ;
    lemma_mod_multiples_basic(kx, y);
    lemma_mod_multiples_basic(ky, x);
    lemma_mul_is_commutative(x, ky);
    assert(kx * y > 0) by (nonlinear_arith)
        requires
            kx > 0,
            y > 0,
    ;
}

} // verus!
