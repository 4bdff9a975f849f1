//! Modular arithmetic, polynomial and pseudo-random utilities used throughout the library.

use vstd::arithmetic::div_mod::*;
use vstd::arithmetic::mul::*;
use vstd::arithmetic::power::*;
use crate::sums::{lemma_sum_range_reverse, lemma_sum_range_split, sum_range};
use vstd::prelude::*;

verus! {

/// Rust's remainder by a positive modulus: it truncates toward zero, so the
/// result has the sign of the dividend.
pub open spec fn trunc_rem(a: int, m: int) -> int {
    if a >= 0 { a % m } else { -((-a) % m) }
}

/// `mod_pos(a, m)` can be evaluated without overflow: the modulus is positive
/// and `(a % m) + m` fits in an `i64`.
pub open spec fn mod_pos_ok(a: int, m: int) -> bool {
    &&& m > 0
    &&& trunc_rem(a, m) + m <= i64::MAX
}

/// Reducing an addend first does not change the remainder of a sum.
pub proof fn lemma_mod_add_left(x: int, y: int, m: int)
    requires
        m > 0,
    ensures
        (x % m + y) % m == (x + y) % m,
{
    lemma_add_mod_noop(x, y, m);
    lemma_add_mod_noop(x % m, y, m);
    lemma_mod_twice(x, m);
}

/// Compute `a mod m`, returning the representative in `[0, m)`.
pub fn mod_pos(a: i64, m: i64) -> (r: i64)
    requires
        mod_pos_ok(a as int, m as int),
    ensures
        r == (a as int) % (m as int),
        0 <= r < m,
{
    let t = a % m;
    assert(t == trunc_rem(a as int, m as int));
    let s = t + m;
    let r = s % m;
    proof {
        let ai = a as int;
        let mi = m as int;
        if ai >= 0 {
            lemma_mod_bound(ai, mi);
            lemma_mod_multiples_vanish(1, ai % mi, mi);
            lemma_mod_twice(ai, mi);
        } else {
            let k = (-ai) / mi;
            lemma_fundamental_div_mod(-ai, mi);
            lemma_mod_bound(-ai, mi);
            assert(s as int == mi * (k + 1) + ai) by (nonlinear_arith)
                requires
                    -ai == mi * k + (-ai) % mi,
                    s as int == -((-ai) % mi) + mi,
            ;
            lemma_mod_multiples_vanish(k + 1, ai, mi);
        }
    }
    r
}


/// The greatest common divisor, by Euclid's algorithm on natural numbers.
pub open spec fn gcd_spec(a: nat, b: nat) -> nat
    decreases a,
{
    if a == 0 {
        b
    } else {
        gcd_spec(b % a, a)
    }
}

/// The larger of `x` and 1.
pub open spec fn max1(x: int) -> int {
    if x > 1 { x } else { 1 }
}

/// Rust's quotient and remainder of `b` by a nonzero `a` (truncating toward
/// zero): `b == q·a + r`, `|r| < |a|`, and `r` has the sign of `b`.
fn trunc_div_rem(b: i64, a: i64) -> (res: (i64, i64))
    requires
        a != 0,
        a > i64::MIN,
        b > i64::MIN,
    ensures
        b as int == (res.0 as int) * (a as int) + res.1 as int,
        res.1 as int == trunc_rem(b as int, abs(a as int)),
        abs(res.0 as int) * abs(a as int) <= abs(b as int),
{
    let p: i64 = if a > 0 { a } else { -a };
    let r = b % p;
    let q0 = b / p;
    proof {
        let bi = b as int;
        let pi = p as int;
        if bi >= 0 {
            lemma_fundamental_div_mod(bi, pi);
            lemma_mod_bound(bi, pi);
            assert(q0 as int == bi / pi);
            assert(r as int == bi % pi);
            assert(q0 >= 0) by (nonlinear_arith)
                requires
                    bi >= 0,
                    pi > 0,
                    q0 as int == bi / pi,
            ;
        } else {
            lemma_fundamental_div_mod(-bi, pi);
            lemma_mod_bound(-bi, pi);
            assert(q0 as int == -((-bi) / pi));
            assert(r as int == -((-bi) % pi));
            assert((-bi) / pi >= 0) by (nonlinear_arith)
                requires
                    -bi >= 0,
                    pi > 0,
            ;
        }
        assert(bi == (q0 as int) * pi + r as int) by (nonlinear_arith)
            requires
                bi >= 0 ==> bi == pi * (bi / pi) + bi % pi && q0 == bi / pi && r == bi % pi,
                bi < 0 ==> -bi == pi * ((-bi) / pi) + (-bi) % pi && q0 == -((-bi) / pi) && r == -((-bi) % pi),
        ;
        assert(abs(q0 as int) * pi <= abs(bi)) by (nonlinear_arith)
            requires
                bi == (q0 as int) * pi + r as int,
                bi >= 0 ==> q0 >= 0 && 0 <= r,
                bi < 0 ==> q0 <= 0 && r <= 0,
                pi > 0,
        ;
    }
    let q: i64 = if a > 0 { q0 } else { -q0 };
    proof {
        if a < 0 {
            let qi = q0 as int;
            let ai = a as int;
            assert(qi * (-ai) == (-qi) * ai) by (nonlinear_arith);
        }
    }
    (q, r)
}

/// Extended Euclidean algorithm. Returns (gcd, x, y) such that a*x + b*y = gcd.
///
/// The gcd comes out with the sign that the division steps leave on it; its
/// absolute value is the greatest common divisor, and it is nonnegative for
/// nonnegative inputs.
pub fn extended_gcd(a: i64, b: i64) -> (res: (i64, i64, i64))
    requires
        a > i64::MIN,
        b > i64::MIN,
    ensures
        abs(res.0 as int) == gcd_spec(abs(a as int) as nat, abs(b as int) as nat),
        a >= 0 && b >= 0 ==> res.0 >= 0,
        (a as int) * (res.1 as int) + (b as int) * (res.2 as int) == res.0 as int,
        abs(res.1 as int) <= max1(abs(b as int)),
        abs(res.2 as int) <= max1(abs(a as int)),
        a == 0 ==> res == (b, 0i64, 1i64),
    decreases abs(a as int),
{
    if a == 0 {
        assert((a as int) * 0 + (b as int) * 1 == b as int) by (nonlinear_arith)
            requires
                a == 0,
        ;
        (b, 0, 1)
    } else {
        let (k, r) = trunc_div_rem(b, a);
        proof {
            let ai = abs(a as int);
            let bi = abs(b as int);
            if b >= 0 {
                lemma_mod_bound(b as int, ai);
            } else {
                lemma_mod_bound(-(b as int), ai);
            }
            assert(abs(r as int) == bi % ai);
            assert(abs(r as int) < ai);
            lemma_fundamental_div_mod(bi, ai);
            lemma_div_pos_is_pos(bi, ai);
            assert(bi % ai <= bi) by (nonlinear_arith)
                requires
                    bi == ai * (bi / ai) + bi % ai,
                    bi / ai >= 0,
                    ai > 0,
            ;
        }
        let (g, x, y) = extended_gcd(r, a);
        proof {
            let ai = abs(a as int);
            let bi = abs(b as int);
            let ri = abs(r as int);
            let xi = x as int;
            let yi = y as int;
            let ki = k as int;
            // the gcd: gcd(|b| mod |a|, |a|) = gcd(|a|, |b|)
            assert(gcd_spec(ai as nat, bi as nat) == gcd_spec((bi % ai) as nat, ai as nat));
            // Bézout: a·(y - k·x) + b·x = r·x + a·y = g
            assert((a as int) * (yi - ki * xi) + (b as int) * xi == g) by (nonlinear_arith)
                requires
                    (r as int) * xi + (a as int) * yi == g,
                    b as int == ki * (a as int) + r as int,
            ;
            // |x| <= max1(|a|), |y| <= max1(|r|); |k·x| <= |b| - |r| when r != 0
            if r == 0 {
                assert(x == 0);
                assert(ki * xi == 0) by (nonlinear_arith)
                    requires
                        xi == 0,
                ;
            } else {
                assert(abs(ki) * ai + ri == bi) by (nonlinear_arith)
                    requires
                        b as int == ki * (a as int) + r as int,
                        ai == abs(a as int),
                        bi == abs(b as int),
                        ri == abs(r as int),
                        ri <= bi,
                        abs(ki) * ai <= bi,
                        ai > 0,
                        b >= 0 ==> r >= 0,
                        b < 0 ==> r <= 0,
                        abs(ki) == (if ki < 0 { -ki } else { ki }),
                        ai == (if (a as int) < 0 { -(a as int) } else { a as int }),
                        bi == (if (b as int) < 0 { -(b as int) } else { b as int }),
                        ri == (if (r as int) < 0 { -(r as int) } else { r as int }),
                ;
                assert(abs(ki * xi) <= abs(ki) * ai) by (nonlinear_arith)
                    requires
                        abs(xi) <= ai,
                        ai >= 1,
                        abs(ki) == (if ki < 0 { -ki } else { ki }),
                        abs(xi) == (if xi < 0 { -xi } else { xi }),
                        abs(ki * xi) == (if ki * xi < 0 { -(ki * xi) } else { ki * xi }),
                ;
            }
            if a > 0 && b >= 0 {
                assert(r >= 0);
            }
        }
        let x2 = y - k * x;
        assert((a as int) * (x2 as int) + (b as int) * (x as int) == g as int);
        (g, x2, x)
    }
}

/// Modular inverse of `a` modulo `m` using the extended Euclidean algorithm.
///
/// Returns `None` if the inverse does not exist (i.e., gcd(a, m) ≠ 1).
pub fn mod_inverse(a: i64, m: i64) -> (r: Option<i64>)
    requires
        0 < m <= i64::MAX / 2,
    ensures
        r is None <==> gcd_spec(((a as int) % (m as int)) as nat, m as nat) != 1,
        r matches Some(x) ==> 0 <= x < m && ((a as int) * (x as int)) % (m as int) == 1int % (m as int),
{
    proof {
        lemma_mod_bound(a as int, m as int);
        lemma_mod_bound(-(a as int), m as int);
    }
    let r0 = mod_pos(a, m);
    let (g, x, y) = extended_gcd(r0, m);
    if g != 1 {
        None
    } else {
        proof {
            assert(mod_pos_ok(x as int, m as int)) by {
                lemma_mod_bound(-(x as int), m as int);
            }
        }
        let inv = mod_pos(x, m);
        proof {
            let ai = a as int;
            let mi = m as int;
            let xi = x as int;
            // r0 * x + m * y == 1, so a * x ≡ 1 (mod m)
            lemma_mul_mod_noop_general(ai, xi, mi);
            lemma_mul_mod_noop_general(ai, inv as int, mi);
            lemma_mod_twice(xi, mi);
            lemma_mod_multiples_vanish(y as int, (r0 as int) * xi, mi);
            assert(mi * (y as int) + (r0 as int) * xi == 1) by (nonlinear_arith)
                requires
                    (r0 as int) * xi + mi * (y as int) == 1,
            ;
        }
        Some(inv)
    }
}


/// One squaring step of binary exponentiation:
/// `b^e ≡ b^(e mod 2) · ((b·b) mod m)^(e / 2)  (mod m)`.
proof fn lemma_pow_square_step(b: int, e: nat, m: int)
    requires
        m > 0,
    ensures
        pow(b, e) % m == (pow(b, e % 2) * pow((b * b) % m, e / 2)) % m,
{
    let h = e / 2;
    let r = e % 2;
    assert(e == r + 2 * h);
    lemma_pow_adds(b, r, 2 * h);
    lemma_pow_multiplies(b, 2, h);
    lemma_square_is_pow2(b);
    lemma_pow_mod_noop(b * b, h, m);
    lemma_mul_mod_noop_right(pow(b, r), pow(b * b, h), m);
    lemma_mul_mod_noop_right(pow(b, r), pow((b * b) % m, h), m);
}

/// Modular exponentiation: computes `base^exp mod modulus` efficiently.
pub fn mod_pow(base: i64, exp: u64, modulus: i64) -> (r: i64)
    requires
        modulus > 0,
        (modulus as int - 1) * (modulus as int - 1) <= i64::MAX,
    ensures
        r == pow(base as int, exp as nat) % (modulus as int),
{
    let ghost m = modulus as int;
    if modulus == 1 {
        return 0;
    }
    assert(m <= i64::MAX / 2) by (nonlinear_arith)
        requires
            (m - 1) * (m - 1) <= i64::MAX,
            m >= 2,
    ;
    proof {
        lemma_mod_bound(base as int, m);
        lemma_mod_bound(-(base as int), m);
    }
    let mut result = 1i64;
    let mut b = mod_pos(base, modulus);
    let mut e = exp;
    proof {
        lemma_pow_mod_noop(base as int, exp as nat, m);
        lemma_small_mod(1, m as nat);
    }
    while e > 0
        invariant
            m == modulus as int,
            2 <= m <= i64::MAX / 2,
            (m - 1) * (m - 1) <= i64::MAX,
            0 <= result < m,
            0 <= b < m,
            ((result as int) * pow(b as int, e as nat)) % m == pow(base as int, exp as nat) % m,
        decreases e,
    {
        proof {
            lemma_pow_square_step(b as int, e as nat, m);
            lemma_mul_mod_noop_right(result as int, pow(b as int, e as nat), m);
            lemma_mul_mod_noop_right(
                result as int,
                pow(b as int, (e % 2) as nat) * pow((b as int * b as int) % m, (e / 2) as nat),
                m,
            );
            lemma_mul_is_associative(
                result as int,
                pow(b as int, (e % 2) as nat),
                pow((b as int * b as int) % m, (e / 2) as nat),
            );
            assert(0 <= (result as int) * (b as int) <= (m - 1) * (m - 1)) by (nonlinear_arith)
                requires
                    0 <= result < m,
                    0 <= b < m,
            ;
            assert(0 <= (b as int) * (b as int) <= (m - 1) * (m - 1)) by (nonlinear_arith)
                requires
                    0 <= b < m,
            ;
            lemma_mod_bound((result as int) * (b as int), m);
            lemma_mod_bound((b as int) * (b as int), m);
        }
        let ghost old_result = result;
        if e % 2 == 1 {
            result = mod_pos(result * b, modulus);
            proof {
                lemma_pow1(b as int);
                lemma_mul_mod_noop_left(
                    (old_result as int) * (b as int),
                    pow((b as int * b as int) % m, (e / 2) as nat),
                    m,
                );
            }
        } else {
            proof {
                lemma_pow0(b as int);
            }
        }
        let ghost old_e = e;
        e = e >> 1;
        assert(e == old_e / 2) by (bit_vector)
            requires
                e == old_e >> 1,
        ;
        b = mod_pos(b * b, modulus);
    }
    proof {
        lemma_pow0(b as int);
        lemma_small_mod(result as nat, m as nat);
    }
    result
}


/// The product of entry `k` of `a` and entry `k` of `b`.
pub open spec fn dot_term(a: Seq<i64>, b: Seq<i64>, k: int) -> int {
    (a[k] as int) * (b[k] as int)
}

/// The sum of the pairwise products of the first `k` entries of `a` and `b`.
pub open spec fn dot_prefix(a: Seq<i64>, b: Seq<i64>, k: int) -> int
    decreases k,
{
    if k <= 0 {
        0
    } else {
        dot_prefix(a, b, k - 1) + dot_term(a, b, k - 1)
    }
}

/// The number of pairs that `zip` produces from `a` and `b`.
pub open spec fn zip_len(a: Seq<i64>, b: Seq<i64>) -> int {
    if a.len() < b.len() { a.len() as int } else { b.len() as int }
}

/// The dot product of `a` and `b` over the pairs that `zip` produces.
pub open spec fn dot_spec(a: Seq<i64>, b: Seq<i64>) -> int {
    dot_prefix(a, b, zip_len(a, b))
}

/// Every product and every running sum of the dot product fits in an `i64`.
pub open spec fn dot_fits(a: Seq<i64>, b: Seq<i64>) -> bool {
    forall|k: int|
        #![trigger dot_term(a, b, k)]
        #![trigger dot_prefix(a, b, k + 1)]
        0 <= k < zip_len(a, b) ==> {
            &&& i64::MIN <= dot_term(a, b, k) <= i64::MAX
            &&& i64::MIN <= dot_prefix(a, b, k + 1) <= i64::MAX
        }
}

/// Dot product of two vectors modulo `q` (Rust's remainder, so negative sums
/// give non-positive results).
pub fn dot_mod(a: &[i64], b: &[i64], q: i64) -> (r: i64)
    requires
        q > 0,
        dot_fits(a@, b@),
    ensures
        r == trunc_rem(dot_spec(a@, b@), q as int),
{
    let len = if a.len() < b.len() { a.len() } else { b.len() };
    let mut acc: i64 = 0;
    let mut i: usize = 0;
    while i < len
        invariant
            len == zip_len(a@, b@),
            len <= a.len(),
            len <= b.len(),
            0 <= i <= len,
            dot_fits(a@, b@),
            acc == dot_prefix(a@, b@, i as int),
        decreases len - i,
    {
        assert(i64::MIN <= dot_prefix(a@, b@, i + 1) <= i64::MAX);
        acc = acc + a[i] * b[i];
        i = i + 1;
    }
    acc % q
}

/// Add two vectors element-wise, reducing modulo `q`.
pub fn vec_add_mod(a: &[i64], b: &[i64], q: i64) -> (r: Vec<i64>)
    requires
        forall|i: int|
            0 <= i < zip_len(a@, b@) ==> {
                &&& i64::MIN <= (a@[i] as int) + (b@[i] as int) <= i64::MAX
                &&& mod_pos_ok(#[trigger] (a@[i] as int) + (b@[i] as int), q as int)
            },
    ensures
        r@.len() == zip_len(a@, b@),
        forall|i: int|
            0 <= i < r@.len() ==> #[trigger] r@[i] == ((a@[i] as int) + (b@[i] as int)) % (q as int),
{
    let len = if a.len() < b.len() { a.len() } else { b.len() };
    let mut out: Vec<i64> = Vec::new();
    let mut i: usize = 0;
    while i < len
        invariant
            len == zip_len(a@, b@),
            len <= a.len(),
            len <= b.len(),
            0 <= i <= len,
            out@.len() == i,
            forall|i: int|
                0 <= i < zip_len(a@, b@) ==> {
                    &&& i64::MIN <= (a@[i] as int) + (b@[i] as int) <= i64::MAX
                    &&& mod_pos_ok(#[trigger] (a@[i] as int) + (b@[i] as int), q as int)
                },
            forall|j: int|
                0 <= j < i ==> #[trigger] out@[j] == ((a@[j] as int) + (b@[j] as int)) % (q as int),
        decreases len - i,
    {
        assert(mod_pos_ok((a@[i as int] as int) + (b@[i as int] as int), q as int));
        out.push(mod_pos(a[i] + b[i], q));
        i = i + 1;
    }
    out
}


/// Coefficient `i` of a coefficient sequence, with zero beyond its end.
pub open spec fn coeff(s: Seq<i64>, i: int) -> int {
    if 0 <= i < s.len() { s[i] as int } else { 0 }
}

/// Coefficients `a` and `b` can be added and reduced modulo `q` at every index below `n`.
pub open spec fn add_fits(a: Seq<i64>, b: Seq<i64>, q: int, n: int) -> bool {
    forall|i: int|
        0 <= i < n ==> {
            &&& i64::MIN <= coeff(a, i) + coeff(b, i) <= i64::MAX
            &&& mod_pos_ok(#[trigger] (coeff(a, i) + coeff(b, i)), q)
        }
}

/// The coefficient-wise sum of `a` and `b` modulo `q`, over the first `n` coefficients.
pub open spec fn poly_sum(a: Seq<i64>, b: Seq<i64>, q: int, n: int) -> Seq<i64> {
    Seq::new(n as nat, |i: int| ((coeff(a, i) + coeff(b, i)) % q) as i64)
}

/// Adding polynomials modulo `q` is commutative: `a + b` and `b + a` can be
/// computed on the same inputs and have the same coefficients.
pub proof fn lemma_add_mod_commutative(a: Seq<i64>, b: Seq<i64>, q: int, n: int)
    requires
        add_fits(a, b, q, n),
    ensures
        add_fits(b, a, q, n),
        poly_sum(a, b, q, n) == poly_sum(b, a, q, n),
{
    assert forall|i: int| 0 <= i < n implies {
        &&& i64::MIN <= coeff(b, i) + coeff(a, i) <= i64::MAX
        &&& mod_pos_ok(#[trigger] (coeff(b, i) + coeff(a, i)), q)
    } by {
        assert(coeff(b, i) + coeff(a, i) == coeff(a, i) + coeff(b, i));
        assert(mod_pos_ok(coeff(a, i) + coeff(b, i), q));
    }
    assert(poly_sum(a, b, q, n) =~= poly_sum(b, a, q, n));
}

/// Every coefficient of `a` can be multiplied by `s` and reduced modulo `q`.
pub open spec fn scale_fits(a: Seq<i64>, s: int, q: int) -> bool {
    forall|i: int|
        0 <= i < a.len() ==> {
            &&& i64::MIN <= (a[i] as int) * s <= i64::MAX
            &&& mod_pos_ok(#[trigger] ((a[i] as int) * s), q)
        }
}

/// A simple polynomial represented as coefficient vector (index = degree).
#[derive(Debug, Clone, PartialEq)]
pub struct Poly {
    /// Coefficients, coeffs[i] is the coefficient of x^i.
    pub coeffs: Vec<i64>,
}

impl Poly {
    /// Create a new polynomial from coefficients.
    pub fn new(coeffs: Vec<i64>) -> (p: Poly)
        ensures
            p.coeffs@ == coeffs@,
    {
        Poly { coeffs }
    }

    /// The zero polynomial of given degree.
    pub fn zero(n: usize) -> (p: Poly)
        ensures
            p.coeffs@.len() == n,
            forall|i: int| 0 <= i < n ==> #[trigger] p.coeffs@[i] == 0,
    {
        Poly { coeffs: zeros(n) }
    }

    /// Add two polynomials modulo `q`, trimming to `n` coefficients (cyclotomic ring).
    pub fn add_mod(&self, other: &Poly, q: i64, n: usize) -> (r: Poly)
        requires
            add_fits(self.coeffs@, other.coeffs@, q as int, n as int),
        ensures
            r.coeffs@.len() == n,
            forall|i: int|
                0 <= i < n ==> #[trigger] r.coeffs@[i] == (coeff(self.coeffs@, i) + coeff(
                    other.coeffs@,
                    i,
                )) % (q as int),
            r.coeffs@ == poly_sum(self.coeffs@, other.coeffs@, q as int, n as int),
            forall|i: int| 0 <= i < n ==> 0 <= #[trigger] r.coeffs@[i] < q,
    {
        let mut result: Vec<i64> = Vec::new();
        let mut i: usize = 0;
        while i < n
            invariant
                0 <= i <= n,
                result@.len() == i,
                add_fits(self.coeffs@, other.coeffs@, q as int, n as int),
                forall|j: int|
                    0 <= j < i ==> #[trigger] result@[j] == (coeff(self.coeffs@, j) + coeff(
                        other.coeffs@,
                        j,
                    )) % (q as int),
            decreases n - i,
        {
            let a = if i < self.coeffs.len() { self.coeffs[i] } else { 0 };
            let b = if i < other.coeffs.len() { other.coeffs[i] } else { 0 };
            assert(mod_pos_ok(coeff(self.coeffs@, i as int) + coeff(other.coeffs@, i as int), q as int));
            result.push(mod_pos(a + b, q));
            i = i + 1;
        }
        proof {
            assert forall|i: int| 0 <= i < n implies 0 <= #[trigger] result@[i] < q by {
                lemma_mod_bound(coeff(self.coeffs@, i) + coeff(other.coeffs@, i), q as int);
            }
            assert(result@ =~= poly_sum(self.coeffs@, other.coeffs@, q as int, n as int));
        }
        Poly { coeffs: result }
    }

    /// Scale all coefficients by a scalar modulo `q`.
    pub fn scale(&self, s: i64, q: i64) -> (r: Poly)
        requires
            scale_fits(self.coeffs@, s as int, q as int),
        ensures
            r.coeffs@.len() == self.coeffs@.len(),
            forall|i: int|
                0 <= i < self.coeffs@.len() ==> #[trigger] r.coeffs@[i] == ((self.coeffs@[i] as int)
                    * (s as int)) % (q as int),
    {
        let mut result: Vec<i64> = Vec::new();
        let mut i: usize = 0;
        while i < self.coeffs.len()
            invariant
                0 <= i <= self.coeffs@.len(),
                result@.len() == i,
                scale_fits(self.coeffs@, s as int, q as int),
                forall|j: int|
                    0 <= j < i ==> #[trigger] result@[j] == ((self.coeffs@[j] as int) * (s as int))
                        % (q as int),
            decreases self.coeffs@.len() - i,
        {
            assert(mod_pos_ok((self.coeffs@[i as int] as int) * (s as int), q as int));
            result.push(mod_pos(self.coeffs[i] * s, q));
            i = i + 1;
        }
        Poly { coeffs: result }
    }
}

/// A vector of `n` zeros.
pub fn zeros(n: usize) -> (v: Vec<i64>)
    ensures
        v@.len() == n,
        forall|i: int| 0 <= i < n ==> #[trigger] v@[i] == 0,
{
    let mut v: Vec<i64> = Vec::new();
    let mut i: usize = 0;
    while i < n
        invariant
            0 <= i <= n,
            v@.len() == i,
            forall|j: int| 0 <= j < i ==> #[trigger] v@[j] == 0,
        decreases n - i,
    {
        v.push(0);
        i = i + 1;
    }
    v
}


/// With a modulus of at most half the `i64` range, `mod_pos` never overflows.
pub proof fn lemma_mod_pos_ok_small_modulus(x: int, q: int)
    requires
        q > 0,
        2 * q <= i64::MAX + 1,
    ensures
        mod_pos_ok(x, q),
{
    if x >= 0 {
        lemma_mod_bound(x, q);
    } else {
        lemma_mod_bound(-x, q);
    }
}

/// The index of the coefficient of `b` that meets coefficient `i` of `a` in
/// coefficient `k` of the negacyclic product.
pub open spec fn partner(n: int, k: int, i: int) -> int {
    if i <= k { k - i } else { n + k - i }
}

/// The contribution of coefficient `i` of `a` to coefficient `k` of `a·b` in
/// `Z[x]/(x^n + 1)`: `x^i·x^(k-i) = x^k`, while `x^i·x^(n+k-i) = x^(n+k) = -x^k`.
pub open spec fn nega_term(a: Seq<i64>, b: Seq<i64>, n: int, k: int, i: int) -> int {
    if i <= k {
        coeff(a, i) * coeff(b, k - i)
    } else {
        -(coeff(a, i) * coeff(b, n + k - i))
    }
}

/// The contributions of the coefficients of `a` to coefficient `k` of `a·b`, by index.
pub open spec fn nega_terms(a: Seq<i64>, b: Seq<i64>, n: int, k: int) -> spec_fn(int) -> int {
    |i: int| nega_term(a, b, n, k, i)
}

/// Coefficient `k` of the product `a·b` in `Z[x]/(x^n + 1)`, over the integers
/// (only the first `n` coefficients of each factor count).
pub open spec fn nega_coeff(a: Seq<i64>, b: Seq<i64>, n: int, k: int) -> int {
    sum_range(nega_terms(a, b, n, k), 0, n)
}

/// The negacyclic product of `a` and `b` can be accumulated modulo `q` in `i64`
/// arithmetic: `q` is positive and at most half the range, and every product of
/// coefficients stays `q` away from the ends of the range.
pub open spec fn mul_fits(a: Seq<i64>, b: Seq<i64>, q: int, n: int) -> bool {
    &&& 0 < q
    &&& 2 * q <= i64::MAX + 1
    &&& forall|i: int, j: int|
        #![trigger coeff(a, i), coeff(b, j)]
        0 <= i < n && 0 <= j < n ==> -(i64::MAX - q) <= coeff(a, i) * coeff(b, j) <= i64::MAX - q
}

impl Poly {
    /// Multiply two polynomials in the ring Z_q[x]/(x^n + 1).
    pub fn mul_ring(&self, other: &Poly, q: i64, n: usize) -> (r: Poly)
        requires
            mul_fits(self.coeffs@, other.coeffs@, q as int, n as int),
            2 * n <= usize::MAX,
        ensures
            r.coeffs@.len() == n,
            forall|k: int|
                0 <= k < n ==> #[trigger] r.coeffs@[k] == nega_coeff(
                    self.coeffs@,
                    other.coeffs@,
                    n as int,
                    k,
                ) % (q as int),
            forall|k: int| 0 <= k < n ==> 0 <= #[trigger] r.coeffs@[k] < q,
    {
        let ghost a = self.coeffs@;
        let ghost b = other.coeffs@;
        let ghost ni = n as int;
        let ghost qi = q as int;
        let mut result = zeros(n);
        proof {
            assert forall|k: int| 0 <= k < n implies #[trigger] result@[k] == sum_range(nega_terms(a, b, ni, k), 0, 0) % qi by {
                lemma_small_mod(0, qi as nat);
            }
        }
        let mut i: usize = 0;
        while i < n
            invariant
                a == self.coeffs@,
                b == other.coeffs@,
                ni == n,
                qi == q,
                2 * n <= usize::MAX,
                mul_fits(a, b, qi, ni),
                0 <= i <= n,
                result@.len() == n,
                forall|k: int|
                    0 <= k < n ==> #[trigger] result@[k] == sum_range(nega_terms(a, b, ni, k), 0, i as int) % qi,
            decreases n - i,
        {
            if i >= self.coeffs.len() || self.coeffs[i] == 0 {
                proof {
                    assert forall|k: int| 0 <= k < n implies #[trigger] result@[k] == sum_range(nega_terms(a, b, ni, k), 0, i + 1) % qi by {
                        assert(coeff(a, i as int) == 0);
                        lemma_mul_basics(coeff(b, partner(ni, k, i as int)));
                    }
                }
                i = i + 1;
                continue;
            }
            let ai = self.coeffs[i];
            let mut j: usize = 0;
            while j < n
                invariant
                    a == self.coeffs@,
                    b == other.coeffs@,
                    ni == n,
                    qi == q,
                    2 * n <= usize::MAX,
                    mul_fits(a, b, qi, ni),
                    0 <= i < n,
                    i < a.len(),
                    ai == a[i as int],
                    0 <= j <= n,
                    result@.len() == n,
                    forall|k: int|
                        0 <= k < n ==> #[trigger] result@[k] == (sum_range(nega_terms(a, b, ni, k), 0, i as int)
                            + (if partner(ni, k, i as int) < j {
                            nega_term(a, b, ni, k, i as int)
                        } else {
                            0
                        })) % qi,
                decreases n - j,
            {
                let ghost kk: int = if i + j < n { (i + j) as int } else { (i + j - n) as int };
                if j >= other.coeffs.len() || other.coeffs[j] == 0 {
                    proof {
                        assert(coeff(b, j as int) == 0);
                        lemma_mul_basics(coeff(a, i as int));
                        assert(nega_term(a, b, ni, kk, i as int) == 0);
                    }
                    j = j + 1;
                    continue;
                }
                let bj = other.coeffs[j];
                proof {
                    assert(-(i64::MAX - qi) <= coeff(a, i as int) * coeff(b, j as int) <= i64::MAX - qi);
                }
                let prod = ai * bj;
                let k = i + j;
                let ghost old_result = result@;
                if k < n {
                    let cur = result[k];
                    proof {
                        lemma_mod_bound(sum_range(nega_terms(a, b, ni, k as int), 0, i as int), qi);
                        lemma_mod_pos_ok_small_modulus(cur + prod, qi);
                    }
                    let v = mod_pos(cur + prod, q);
                    result.set(k, v);
                    proof {
                        lemma_mod_add_left(sum_range(nega_terms(a, b, ni, k as int), 0, i as int), prod as int, qi);
                    }
                } else {
                    let red_k = k - n;
                    let cur = result[red_k];
                    proof {
                        lemma_mod_bound(sum_range(nega_terms(a, b, ni, red_k as int), 0, i as int), qi);
                        lemma_mod_pos_ok_small_modulus(cur - prod, qi);
                    }
                    let v = mod_pos(cur - prod, q);
                    result.set(red_k, v);
                    proof {
                        lemma_mod_add_left(sum_range(nega_terms(a, b, ni, red_k as int), 0, i as int), -(prod as int), qi);
                    }
                }
                proof {
                    assert forall|k2: int| 0 <= k2 < n implies #[trigger] result@[k2] == (sum_range(nega_terms(a, b, ni, k2), 0, i as int) + (if partner(ni, k2, i as int) < j + 1 {
                        nega_term(a, b, ni, k2, i as int)
                    } else {
                        0
                    })) % qi by {
                        if k2 != kk {
                            assert(partner(ni, k2, i as int) != j);
                            assert(result@[k2] == old_result[k2]);
                        }
                    }
                }
                j = j + 1;
            }
            proof {
                assert forall|k: int| 0 <= k < n implies #[trigger] result@[k] == sum_range(nega_terms(a, b, ni, k), 0, i + 1) % qi by {
                    assert(partner(ni, k, i as int) < n);
                }
            }
            i = i + 1;
        }
        proof {
            assert forall|k: int| 0 <= k < n implies 0 <= #[trigger] result@[k] < q by {
                lemma_mod_bound(nega_coeff(a, b, ni, k), qi);
            }
        }
        Poly { coeffs: result }
    }
}


/// One step of the xorshift64 generator (shifts 13, 7, 17).
pub open spec fn xorshift_next(x: u64) -> u64 {
    let x1 = x ^ (x << 13u64);
    let x2 = x1 ^ (x1 >> 7u64);
    x2 ^ (x2 << 17u64)
}

/// The xorshift step maps a non-zero state to a non-zero state.
pub proof fn lemma_xorshift_nonzero(x: u64)
    requires
        x != 0,
    ensures
        xorshift_next(x) != 0,
{
    let x1 = x ^ (x << 13u64);
    let x2 = x1 ^ (x1 >> 7u64);
    let x3 = x2 ^ (x2 << 17u64);
    assert(x1 != 0) by (bit_vector)
        requires
            x != 0,
            x1 == x ^ (x << 13u64),
    ;
    assert(x2 != 0) by (bit_vector)
        requires
            x1 != 0,
            x2 == x1 ^ (x1 >> 7u64),
    ;
    assert(x3 != 0) by (bit_vector)
        requires
            x2 != 0,
            x3 == x2 ^ (x2 << 17u64),
    ;
}

/// Deterministic pseudo-random number generator (xorshift64) for reproducible tests.
#[derive(Debug)]
pub struct XorShift64 {
    state: u64,
}

impl View for XorShift64 {
    type V = u64;

    closed spec fn view(&self) -> u64 {
        self.state
    }
}

impl XorShift64 {
    /// The state of a generator is never zero.
    #[verifier::type_invariant]
    closed spec fn state_nonzero(self) -> bool {
        self.state != 0
    }

    /// Create a new PRNG with the given seed (a zero seed is replaced by 1).
    pub fn new(seed: u64) -> (g: XorShift64)
        ensures
            g@ == (if seed == 0 { 1 } else { seed }),
    {
        XorShift64 { state: if seed == 0 { 1 } else { seed } }
    }

    /// Generate the next random `u64`.
    pub fn next_u64(&mut self) -> (r: u64)
        ensures
            r == xorshift_next(old(self)@),
            final(self)@ == r,
            r != 0,
    {
        proof {
            use_type_invariant(&*self);
            lemma_xorshift_nonzero(self.state);
        }
        let mut x = self.state;
        x ^= x << 13;
        x ^= x >> 7;
        x ^= x << 17;
        self.state = x;
        x
    }

    /// Generate a random `i64` in `[0, modulus)`.
    pub fn next_mod(&mut self, modulus: i64) -> (r: i64)
        requires
            modulus != 0,
        ensures
            final(self)@ == xorshift_next(old(self)@),
            r == (xorshift_next(old(self)@) % (#[verifier::truncate] (modulus as u64))) as i64,
            modulus > 0 ==> 0 <= r < modulus && r == xorshift_next(old(self)@) % (modulus as u64),
    {
        let x = self.next_u64();
        let m = #[verifier::truncate] (modulus as u64);
        assert(m != 0) by (bit_vector)
            requires
                modulus != 0,
                m == #[verifier::truncate] (modulus as u64),
        ;
        #[verifier::truncate] ((x % m) as i64)
    }
}

impl Clone for XorShift64 {
    fn clone(&self) -> (r: Self)
        ensures
            r@ == self@,
    {
        proof {
            use_type_invariant(self);
        }
        XorShift64 { state: self.state }
    }
}


/// Multiplication in `Z[x]/(x^n + 1)` is commutative: every coefficient of
/// `a·b` equals the same coefficient of `b·a`.
pub proof fn lemma_nega_coeff_commutative(a: Seq<i64>, b: Seq<i64>, n: int, k: int)
    requires
        0 <= k < n,
    ensures
        nega_coeff(a, b, n, k) == nega_coeff(b, a, n, k),
{
    let f = nega_terms(a, b, n, k);
    let g = nega_terms(b, a, n, k);
    lemma_sum_range_split(f, 0, k + 1, n);
    lemma_sum_range_split(g, 0, k + 1, n);
    assert forall|i: int| 0 <= i < k + 1 implies #[trigger] g(i) == f(0 + (k + 1) - 1 - i) by {
        lemma_mul_is_commutative(coeff(b, i), coeff(a, k - i));
    }
    lemma_sum_range_reverse(f, g, 0, k + 1);
    assert forall|i: int| k + 1 <= i < n implies #[trigger] g(i) == f((k + 1) + n - 1 - i) by {
        lemma_mul_is_commutative(coeff(b, i), coeff(a, n + k - i));
    }
    lemma_sum_range_reverse(f, g, k + 1, n);
}


/// The absolute value of an integer.
pub open spec fn abs(x: int) -> int {
    if x < 0 { -x } else { x }
}

/// Coefficient bounds `A` and `B` with `A·B <= i64::MAX - q` make the
/// negacyclic product fit.
pub proof fn lemma_mul_fits_bounded(a: Seq<i64>, b: Seq<i64>, q: int, n: int, ba: int, bb: int)
    requires
        0 < q,
        2 * q <= i64::MAX + 1,
        0 <= ba,
        0 <= bb,
        ba * bb <= i64::MAX - q,
        forall|i: int| 0 <= i < n ==> abs(#[trigger] coeff(a, i)) <= ba,
        forall|j: int| 0 <= j < n ==> abs(#[trigger] coeff(b, j)) <= bb,
    ensures
        mul_fits(a, b, q, n),
{
    assert forall|i: int, j: int| 0 <= i < n && 0 <= j < n implies -(i64::MAX - q) <= #[trigger] coeff(
        a,
        i,
    ) * #[trigger] coeff(b, j) <= i64::MAX - q by {
        let x = coeff(a, i);
        let y = coeff(b, j);
        assert(abs(x) <= ba);
        assert(abs(y) <= bb);
        assert(-(ba * bb) <= x * y <= ba * bb) by (nonlinear_arith)
            requires
                abs(x) <= ba,
                abs(y) <= bb,
                0 <= ba,
                0 <= bb,
                abs(x) == (if x < 0 { -x } else { x }),
                abs(y) == (if y < 0 { -y } else { y }),
        ;
    }
}


/// `d` divides `x` (with `d > 0`).
pub open spec fn divides(d: int, x: int) -> bool {
    d > 0 && x % d == 0
}

/// The gcd of `x` and `y` divides both (unless both are zero).
pub proof fn lemma_gcd_divides(x: nat, y: nat)
    requires
        x > 0 || y > 0,
    ensures
        gcd_spec(x, y) > 0,
        divides(gcd_spec(x, y) as int, x as int),
        divides(gcd_spec(x, y) as int, y as int),
    decreases x,
{
    if x == 0 {
        lemma_mod_self_0(y as int);
        lemma_small_mod(0, y);
    } else {
        lemma_mod_bound(y as int, x as int);
        lemma_gcd_divides(y % x, x);
        let g = gcd_spec(y % x, x) as int;
        // y = x * (y / x) + y % x, both terms divisible by g
        lemma_fundamental_div_mod(y as int, x as int);
        lemma_fundamental_div_mod(x as int, g);
        lemma_fundamental_div_mod((y % x) as int, g);
        let kx = (x as int) / g;
        let kr = ((y % x) as int) / g;
        assert(y as int == g * (kx * ((y as int) / (x as int)) + kr)) by (nonlinear_arith)
            requires
                y as int == (x as int) * ((y as int) / (x as int)) + (y % x) as int,
                x as int == g * kx,
                (y % x) as int == g * kr,
        ;
        lemma_mod_multiples_basic(kx * ((y as int) / (x as int)) + kr, g);
        lemma_mul_is_commutative(g, kx * ((y as int) / (x as int)) + kr);
    }
}

/// Every common divisor of `x` and `y` divides their gcd.
pub proof fn lemma_gcd_greatest(x: nat, y: nat, d: int)
    requires
        divides(d, x as int),
        divides(d, y as int),
    ensures
        divides(d, gcd_spec(x, y) as int),
    decreases x,
{
    if x > 0 {
        lemma_fundamental_div_mod(y as int, x as int);
        lemma_fundamental_div_mod(x as int, d);
        lemma_fundamental_div_mod(y as int, d);
        let kx = (x as int) / d;
        let ky = (y as int) / d;
        assert((y % x) as int == d * (ky - kx * ((y as int) / (x as int)))) by (nonlinear_arith)
            requires
                y as int == (x as int) * ((y as int) / (x as int)) + (y % x) as int,
                x as int == d * kx,
                y as int == d * ky,
        ;
        lemma_mod_multiples_basic(ky - kx * ((y as int) / (x as int)), d);
        lemma_mul_is_commutative(d, ky - kx * ((y as int) / (x as int)));
        lemma_gcd_greatest(y % x, x, d);
    }
}


/// A positive multiple is at least as large as its divisor.
pub proof fn lemma_divides_le(d: int, x: int)
    requires
        divides(d, x),
        x > 0,
    ensures
        d <= x,
{
    lemma_fundamental_div_mod(x, d);
    let k = x / d;
    assert(x == d * k);
    assert(k >= 1) by (nonlinear_arith)
        requires
            x == d * k,
            x > 0,
            d > 0,
    ;
    assert(d <= d * k) by (nonlinear_arith)
        requires
            k >= 1,
            d > 0,
    ;
}

/// The gcd does not depend on the order of its arguments.
pub proof fn lemma_gcd_symmetric(x: nat, y: nat)
    ensures
        gcd_spec(x, y) == gcd_spec(y, x),
{
    if x == 0 && y == 0 {
    } else {
        lemma_gcd_divides(x, y);
        lemma_gcd_divides(y, x);
        lemma_gcd_greatest(y, x, gcd_spec(x, y) as int);
        lemma_gcd_greatest(x, y, gcd_spec(y, x) as int);
        lemma_divides_le(gcd_spec(x, y) as int, gcd_spec(y, x) as int);
        lemma_divides_le(gcd_spec(y, x) as int, gcd_spec(x, y) as int);
    }
}


/// The state of a generator started at `s` after `k` draws.
pub open spec fn xorshift_iter(s: u64, k: nat) -> u64
    decreases k,
{
    if k == 0 {
        s
    } else {
        xorshift_next(xorshift_iter(s, (k - 1) as nat))
    }
}

/// Drawing `a` values and then `b` more is drawing `a + b` values.
pub proof fn lemma_xorshift_iter_add(s: u64, a: nat, b: nat)
    ensures
        xorshift_iter(xorshift_iter(s, a), b) == xorshift_iter(s, a + b),
    decreases b,
{
    if b > 0 {
        lemma_xorshift_iter_add(s, a, (b - 1) as nat);
    }
}

/// The state `XorShift64::new(seed)` starts from.
pub open spec fn seed_state(seed: u64) -> u64 {
    if seed == 0 {
        1
    } else {
        seed
    }
}

/// `count` draws `next_mod(m) - offset` from a generator in state `s`.
pub open spec fn mod_draws(s: u64, count: nat, m: int, offset: int) -> Seq<i64> {
    Seq::new(count, |i: int| ((xorshift_iter(s, (i + 1) as nat) % (m as u64)) as int - offset) as i64)
}

/// Draws `count` values `next_mod(m) - offset` from `rng`.
pub fn draw_mod(rng: &mut XorShift64, count: usize, m: i64, offset: i64) -> (v: Vec<i64>)
    requires
        m > 0,
        0 <= offset <= m,
    ensures
        v@ == mod_draws(old(rng)@, count as nat, m as int, offset as int),
        final(rng)@ == xorshift_iter(old(rng)@, count as nat),
{
    let ghost s0 = rng@;
    let mut v: Vec<i64> = Vec::new();
    let mut i: usize = 0;
    while i < count
        invariant
            m > 0,
            0 <= offset <= m,
            0 <= i <= count,
            rng@ == xorshift_iter(s0, i as nat),
            v@ =~= mod_draws(s0, i as nat, m as int, offset as int),
        decreases count - i,
    {
        let x = rng.next_mod(m);
        v.push(x - offset);
        i = i + 1;
    }
    v
}


/// The dot product of `a` and `b` over the pairs that `zip` produces, without reduction.
pub fn dot_sum(a: &[i64], b: &[i64]) -> (r: i64)
    requires
        dot_fits(a@, b@),
    ensures
        r == dot_spec(a@, b@),
{
    let len = if a.len() < b.len() { a.len() } else { b.len() };
    let mut acc: i64 = 0;
    let mut i: usize = 0;
    while i < len
        invariant
            len == zip_len(a@, b@),
            len <= a.len(),
            len <= b.len(),
            0 <= i <= len,
            dot_fits(a@, b@),
            acc == dot_prefix(a@, b@, i as int),
        decreases len - i,
    {
        assert(i64::MIN <= dot_prefix(a@, b@, i + 1) <= i64::MAX);
        acc = acc + a[i] * b[i];
        i = i + 1;
    }
    acc
}

/// A copy of `v`.
pub fn copy_vec(v: &Vec<i64>) -> (r: Vec<i64>)
    ensures
        r@ == v@,
{
    let mut out: Vec<i64> = Vec::new();
    let mut i: usize = 0;
    while i < v.len()
        invariant
            0 <= i <= v@.len(),
            out@ =~= v@.subrange(0, i as int),
        decreases v@.len() - i,
    {
        out.push(v[i]);
        i = i + 1;
    }
    proof {
        assert(v@.subrange(0, v@.len() as int) =~= v@);
    }
    out
}


} // verus!
