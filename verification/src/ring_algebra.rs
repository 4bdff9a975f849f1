//! The algebra of multiplication in `Z[x]/(x^n + 1)`: polynomials as integer
//! coefficient sequences, their product, and the ring laws (commutativity,
//! associativity, linearity, the unit, compatibility with reduction modulo `q`)
//! that the correctness of decryption rests on.

use crate::sums::{
    col_fn,
    col_sums,
    lemma_sum_range_add,
    lemma_sum_range_congruent,
    lemma_sum_range_ext,
    lemma_sum_range_neg,
    lemma_sum_range_reverse,
    lemma_sum_range_scale,
    lemma_sum_range_single,
    lemma_sum_range_split,
    lemma_sum_range_swap,
    lemma_sum_range_translate,
    row_fn,
    row_sums,
    sum_range,
};
use crate::util::{coeff, nega_coeff, nega_terms};
use vstd::arithmetic::div_mod::*;
use vstd::arithmetic::mul::*;
use vstd::prelude::*;

verus! {

/// Coefficient `i` of `s`, with zero outside its range.
pub open spec fn ic(s: Seq<int>, i: int) -> int {
    if 0 <= i < s.len() {
        s[i]
    } else {
        0
    }
}

/// The coefficients of `s` as integers.
pub open spec fn widen(s: Seq<i64>) -> Seq<int> {
    Seq::new(s.len(), |i: int| s[i] as int)
}

/// Coefficient `k` of `x^j · c` in `Z[x]/(x^n + 1)` (for `0 <= j, k < n`).
pub open spec fn shifted(c: Seq<int>, j: int, n: int, k: int) -> int {
    if k >= j {
        ic(c, k - j)
    } else {
        -ic(c, n + k - j)
    }
}

/// `x^i · b` as a coefficient sequence of length `n`.
pub open spec fn shift_seq(b: Seq<int>, i: int, n: int) -> Seq<int> {
    Seq::new(n as nat, |l: int| shifted(b, i, n, l))
}

/// The terms `a_j · (x^j·b)_k` whose sum is coefficient `k` of `a·b`.
pub open spec fn prod_terms(a: Seq<int>, b: Seq<int>, n: int, k: int) -> spec_fn(int) -> int {
    |j: int| ic(a, j) * shifted(b, j, n, k)
}

/// Coefficient `k` of `a·b` in `Z[x]/(x^n + 1)`.
pub open spec fn prod_coeff(a: Seq<int>, b: Seq<int>, n: int, k: int) -> int {
    sum_range(prod_terms(a, b, n, k), 0, n)
}

/// The product `a·b` in `Z[x]/(x^n + 1)`.
pub open spec fn pmul(a: Seq<int>, b: Seq<int>, n: int) -> Seq<int> {
    Seq::new(n as nat, |k: int| prod_coeff(a, b, n, k))
}

/// The sum `a + b`, truncated to `n` coefficients.
pub open spec fn padd(a: Seq<int>, b: Seq<int>, n: int) -> Seq<int> {
    Seq::new(n as nat, |k: int| ic(a, k) + ic(b, k))
}

/// `t · a`, truncated to `n` coefficients.
pub open spec fn pscale(a: Seq<int>, t: int, n: int) -> Seq<int> {
    Seq::new(n as nat, |k: int| t * ic(a, k))
}

/// The unit polynomial `1` of length `n`.
pub open spec fn unit_poly(n: int) -> Seq<int> {
    Seq::new(n as nat, |k: int| if k == 0 { 1int } else { 0int })
}

/// The coefficient-wise product on `i64` sequences is this product on their
/// integer coefficients.
pub proof fn lemma_nega_coeff_is_prod(a: Seq<i64>, b: Seq<i64>, n: int, k: int)
    requires
        0 <= k < n,
    ensures
        nega_coeff(a, b, n, k) == prod_coeff(widen(a), widen(b), n, k),
{
    assert forall|i: int| 0 <= i < n implies #[trigger] nega_terms(a, b, n, k)(i) == prod_terms(
        widen(a),
        widen(b),
        n,
        k,
    )(i) by {
        assert(coeff(a, i) == ic(widen(a), i));
        assert(coeff(b, k - i) == ic(widen(b), k - i));
        assert(coeff(b, n + k - i) == ic(widen(b), n + k - i));
        lemma_mul_unary_negation(coeff(a, i), coeff(b, n + k - i));
        lemma_mul_is_commutative(coeff(a, i), -coeff(b, n + k - i));
        lemma_mul_unary_negation(coeff(b, n + k - i), coeff(a, i));
        lemma_mul_is_commutative(coeff(b, n + k - i), coeff(a, i));
    }
    lemma_sum_range_ext(nega_terms(a, b, n, k), prod_terms(widen(a), widen(b), n, k), 0, n);
}

/// `x^i·(x^j·c)` at coefficient `k`, for `j < n - i`, is `x^(i+j)·c`.
proof fn lemma_shift_low(c: Seq<int>, i: int, j: int, n: int, k: int)
    requires
        0 <= i < n,
        0 <= j < n - i,
        0 <= k < n,
    ensures
        k >= i ==> shifted(c, j + i, n, k) == shifted(c, j, n, k - i),
        k < i ==> shifted(c, j + i, n, k) == -shifted(c, j, n, n + k - i),
{
}

/// The wrapped-around part: for `n - i <= j < n`.
proof fn lemma_shift_high(c: Seq<int>, i: int, j: int, n: int, k: int)
    requires
        0 <= i < n,
        n - i <= j < n,
        0 <= k < n,
    ensures
        k >= i ==> -shifted(c, j + i - n, n, k) == shifted(c, j, n, k - i),
        k < i ==> -shifted(c, j + i - n, n, k) == -shifted(c, j, n, n + k - i),
{
}

/// Multiplying `x^i·b` by `c` is multiplying `b·c` by `x^i`.
proof fn lemma_shift_prod(b: Seq<int>, c: Seq<int>, i: int, n: int, k: int)
    requires
        0 <= i < n,
        0 <= k < n,
    ensures
        prod_coeff(shift_seq(b, i, n), c, n, k) == shifted(pmul(b, c, n), i, n, k),
{
    let f = prod_terms(shift_seq(b, i, n), c, n, k);
    lemma_sum_range_split(f, 0, i, n);
    // the part over [i, n), translated to j = l - i in [0, n - i)
    let g_hi = |j: int| ic(b, j) * shifted(c, j + i, n, k);
    assert forall|j: int| 0 - i + i <= j < n - i implies #[trigger] g_hi(j) == f(j + i) by {
    }
    lemma_sum_range_translate(f, g_hi, i, n, i);
    // the part over [0, i), translated to j = l + n - i in [n - i, n)
    let g_lo = |j: int| -(ic(b, j) * shifted(c, j + i - n, n, k));
    assert forall|j: int| 0 - (i - n) <= j < i - (i - n) implies #[trigger] g_lo(j) == f(j + (i - n)) by {
        lemma_mul_unary_negation(ic(b, j), shifted(c, j + i - n, n, k));
    }
    lemma_sum_range_translate(f, g_lo, 0, i, i - n);
    if k >= i {
        let h = prod_terms(b, c, n, k - i);
        lemma_sum_range_split(h, 0, n - i, n);
        assert forall|j: int| 0 <= j < n - i implies #[trigger] g_hi(j) == h(j) by {
            lemma_shift_low(c, i, j, n, k);
        }
        lemma_sum_range_ext(g_hi, h, 0, n - i);
        assert forall|j: int| n - i <= j < n implies #[trigger] g_lo(j) == h(j) by {
            lemma_shift_high(c, i, j, n, k);
            lemma_mul_unary_negation(ic(b, j), shifted(c, j + i - n, n, k));
            lemma_mul_is_commutative(ic(b, j), -shifted(c, j + i - n, n, k));
            lemma_mul_is_commutative(ic(b, j), shifted(c, j + i - n, n, k));
            lemma_mul_unary_negation(shifted(c, j + i - n, n, k), ic(b, j));
        }
        lemma_sum_range_ext(g_lo, h, n - i, n);
    } else {
        let h = prod_terms(b, c, n, n + k - i);
        lemma_sum_range_split(h, 0, n - i, n);
        assert forall|j: int| 0 <= j < n - i implies #[trigger] g_hi(j) == -h(j) by {
            lemma_shift_low(c, i, j, n, k);
            lemma_mul_unary_negation(shifted(c, j, n, n + k - i), ic(b, j));
            lemma_mul_is_commutative(ic(b, j), -shifted(c, j, n, n + k - i));
            lemma_mul_is_commutative(ic(b, j), shifted(c, j, n, n + k - i));
        }
        lemma_sum_range_neg(h, g_hi, 0, n - i);
        assert forall|j: int| n - i <= j < n implies #[trigger] g_lo(j) == -h(j) by {
            lemma_shift_high(c, i, j, n, k);
        }
        lemma_sum_range_neg(h, g_lo, n - i, n);
    }
}


/// The triple products `a_i · (x^i·b)_l · (x^l·c)_k` behind coefficient `k` of `(a·b)·c`.
pub open spec fn triple_terms(a: Seq<int>, b: Seq<int>, c: Seq<int>, n: int, k: int) -> spec_fn(int, int) -> int {
    |l: int, i: int| ic(a, i) * (shifted(b, i, n, l) * shifted(c, l, n, k))
}

/// Multiplication in `Z[x]/(x^n + 1)` is associative: every coefficient of
/// `(a·b)·c` equals the same coefficient of `a·(b·c)`.
pub proof fn lemma_prod_associative(a: Seq<int>, b: Seq<int>, c: Seq<int>, n: int, k: int)
    requires
        0 <= k < n,
    ensures
        prod_coeff(pmul(a, b, n), c, n, k) == prod_coeff(a, pmul(b, c, n), n, k),
{
    let f = triple_terms(a, b, c, n, k);
    // (a·b)·c = Σ_l Σ_i f(l, i)
    assert forall|l: int| 0 <= l < n implies #[trigger] prod_terms(pmul(a, b, n), c, n, k)(l) == row_sums(
        f,
        n,
    )(l) by {
        let s = shifted(c, l, n, k);
        assert forall|i: int| 0 <= i < n implies #[trigger] row_fn(f, l)(i) == s * prod_terms(a, b, n, l)(i) by {
            lemma_mul_is_associative(ic(a, i), shifted(b, i, n, l), s);
            lemma_mul_is_commutative(ic(a, i) * shifted(b, i, n, l), s);
        }
        lemma_sum_range_scale(prod_terms(a, b, n, l), row_fn(f, l), s, 0, n);
        lemma_mul_is_commutative(prod_coeff(a, b, n, l), s);
    }
    lemma_sum_range_ext(prod_terms(pmul(a, b, n), c, n, k), row_sums(f, n), 0, n);
    lemma_sum_range_swap(f, n, n);
    // Σ_i Σ_l f(l, i) = a·(b·c)
    assert forall|i: int| 0 <= i < n implies #[trigger] col_sums(f, n)(i) == prod_terms(a, pmul(b, c, n), n, k)(
        i,
    ) by {
        let g = prod_terms(shift_seq(b, i, n), c, n, k);
        assert forall|l: int| 0 <= l < n implies #[trigger] col_fn(f, i)(l) == ic(a, i) * g(l) by {
        }
        lemma_sum_range_scale(g, col_fn(f, i), ic(a, i), 0, n);
        lemma_shift_prod(b, c, i, n, k);
    }
    lemma_sum_range_ext(col_sums(f, n), prod_terms(a, pmul(b, c, n), n, k), 0, n);
}

/// Multiplication in `Z[x]/(x^n + 1)` is commutative.
pub proof fn lemma_prod_commutative(a: Seq<int>, b: Seq<int>, n: int, k: int)
    requires
        0 <= k < n,
    ensures
        prod_coeff(a, b, n, k) == prod_coeff(b, a, n, k),
{
    let f = prod_terms(a, b, n, k);
    let g = prod_terms(b, a, n, k);
    lemma_sum_range_split(f, 0, k + 1, n);
    lemma_sum_range_split(g, 0, k + 1, n);
    assert forall|i: int| 0 <= i < k + 1 implies #[trigger] g(i) == f(0 + (k + 1) - 1 - i) by {
        lemma_mul_is_commutative(ic(b, i), ic(a, k - i));
    }
    lemma_sum_range_reverse(f, g, 0, k + 1);
    assert forall|i: int| k + 1 <= i < n implies #[trigger] g(i) == f((k + 1) + n - 1 - i) by {
        lemma_mul_unary_negation(ic(a, n + k - i), ic(b, i));
        lemma_mul_is_commutative(ic(b, i), -ic(a, n + k - i));
        lemma_mul_is_commutative(ic(a, n + k - i), ic(b, i));
        lemma_mul_unary_negation(ic(b, i), ic(a, n + k - i));
        lemma_mul_is_commutative(ic(a, n + k - i), -ic(b, i));
    }
    lemma_sum_range_reverse(f, g, k + 1, n);
}

/// Multiplication distributes over addition in the first factor.
pub proof fn lemma_prod_add_left(a: Seq<int>, b: Seq<int>, c: Seq<int>, n: int, k: int)
    requires
        0 <= k < n,
    ensures
        prod_coeff(padd(a, b, n), c, n, k) == prod_coeff(a, c, n, k) + prod_coeff(b, c, n, k),
{
    assert forall|j: int| 0 <= j < n implies #[trigger] prod_terms(padd(a, b, n), c, n, k)(j) == prod_terms(
        a,
        c,
        n,
        k,
    )(j) + prod_terms(b, c, n, k)(j) by {
        lemma_mul_is_distributive_add_other_way(shifted(c, j, n, k), ic(a, j), ic(b, j));
    }
    lemma_sum_range_add(prod_terms(a, c, n, k), prod_terms(b, c, n, k), prod_terms(padd(a, b, n), c, n, k), 0, n);
}

/// A scalar factor in the first argument comes out of the product.
pub proof fn lemma_prod_scale_left(a: Seq<int>, t: int, c: Seq<int>, n: int, k: int)
    requires
        0 <= k < n,
    ensures
        prod_coeff(pscale(a, t, n), c, n, k) == t * prod_coeff(a, c, n, k),
{
    assert forall|j: int| 0 <= j < n implies #[trigger] prod_terms(pscale(a, t, n), c, n, k)(j) == t * prod_terms(
        a,
        c,
        n,
        k,
    )(j) by {
        lemma_mul_is_associative(t, ic(a, j), shifted(c, j, n, k));
    }
    lemma_sum_range_scale(prod_terms(a, c, n, k), prod_terms(pscale(a, t, n), c, n, k), t, 0, n);
}

/// Coefficientwise congruent first factors give congruent products.
pub proof fn lemma_prod_congruent_left(a: Seq<int>, a2: Seq<int>, c: Seq<int>, n: int, k: int, q: int)
    requires
        0 <= k < n,
        q > 0,
        forall|j: int| 0 <= j < n ==> #[trigger] ic(a, j) % q == ic(a2, j) % q,
    ensures
        prod_coeff(a, c, n, k) % q == prod_coeff(a2, c, n, k) % q,
{
    assert forall|j: int| 0 <= j < n implies #[trigger] prod_terms(a, c, n, k)(j) % q == prod_terms(a2, c, n, k)(j)
        % q by {
        lemma_mul_mod_noop_left(ic(a, j), shifted(c, j, n, k), q);
        lemma_mul_mod_noop_left(ic(a2, j), shifted(c, j, n, k), q);
    }
    lemma_sum_range_congruent(prod_terms(a, c, n, k), prod_terms(a2, c, n, k), q, 0, n);
}

/// The unit polynomial is neutral: `a·1 = a` (on the first `n` coefficients).
pub proof fn lemma_prod_unit(a: Seq<int>, n: int, k: int)
    requires
        0 <= k < n,
    ensures
        prod_coeff(a, unit_poly(n), n, k) == ic(a, k),
{
    let f = prod_terms(a, unit_poly(n), n, k);
    assert forall|j: int| 0 <= j < n && j != k implies #[trigger] f(j) == 0 by {
        assert(shifted(unit_poly(n), j, n, k) == 0);
        lemma_mul_basics(ic(a, j));
    }
    lemma_sum_range_single(f, 0, n, k);
    lemma_mul_basics(ic(a, k));
}


/// The first `n` coefficients of `a`.
pub open spec fn trunc(a: Seq<int>, n: int) -> Seq<int> {
    Seq::new(n as nat, |k: int| ic(a, k))
}

/// `a` and `b` agree modulo `q` on their first `n` coefficients.
pub open spec fn cong(a: Seq<int>, b: Seq<int>, n: int, q: int) -> bool {
    forall|j: int| 0 <= j < n ==> #[trigger] ic(a, j) % q == ic(b, j) % q
}

/// `(a·b)·c = a·(b·c)` as sequences.
pub proof fn lemma_pmul_assoc(a: Seq<int>, b: Seq<int>, c: Seq<int>, n: int)
    requires
        n >= 0,
    ensures
        pmul(pmul(a, b, n), c, n) == pmul(a, pmul(b, c, n), n),
{
    assert forall|k: int| 0 <= k < n implies #[trigger] pmul(pmul(a, b, n), c, n)[k] == pmul(a, pmul(b, c, n), n)[k] by {
        lemma_prod_associative(a, b, c, n, k);
    }
    assert(pmul(pmul(a, b, n), c, n) =~= pmul(a, pmul(b, c, n), n));
}

/// `a·b = b·a` as sequences.
pub proof fn lemma_pmul_comm(a: Seq<int>, b: Seq<int>, n: int)
    requires
        n >= 0,
    ensures
        pmul(a, b, n) == pmul(b, a, n),
{
    assert forall|k: int| 0 <= k < n implies #[trigger] pmul(a, b, n)[k] == pmul(b, a, n)[k] by {
        lemma_prod_commutative(a, b, n, k);
    }
    assert(pmul(a, b, n) =~= pmul(b, a, n));
}

/// `a·1 = a` (truncated to `n` coefficients).
pub proof fn lemma_pmul_unit(a: Seq<int>, n: int)
    requires
        n >= 0,
    ensures
        pmul(a, unit_poly(n), n) == trunc(a, n),
{
    assert forall|k: int| 0 <= k < n implies #[trigger] pmul(a, unit_poly(n), n)[k] == trunc(a, n)[k] by {
        lemma_prod_unit(a, n, k);
    }
    assert(pmul(a, unit_poly(n), n) =~= trunc(a, n));
}

/// `(a + b)·c = a·c + b·c` as sequences.
pub proof fn lemma_pmul_add_left(a: Seq<int>, b: Seq<int>, c: Seq<int>, n: int)
    requires
        n >= 0,
    ensures
        pmul(padd(a, b, n), c, n) == padd(pmul(a, c, n), pmul(b, c, n), n),
{
    assert forall|k: int| 0 <= k < n implies #[trigger] pmul(padd(a, b, n), c, n)[k] == padd(
        pmul(a, c, n),
        pmul(b, c, n),
        n,
    )[k] by {
        lemma_prod_add_left(a, b, c, n, k);
    }
    assert(pmul(padd(a, b, n), c, n) =~= padd(pmul(a, c, n), pmul(b, c, n), n));
}

/// `(t·a)·c = t·(a·c)` as sequences.
pub proof fn lemma_pmul_scale_left(a: Seq<int>, t: int, c: Seq<int>, n: int)
    requires
        n >= 0,
    ensures
        pmul(pscale(a, t, n), c, n) == pscale(pmul(a, c, n), t, n),
{
    assert forall|k: int| 0 <= k < n implies #[trigger] pmul(pscale(a, t, n), c, n)[k] == pscale(
        pmul(a, c, n),
        t,
        n,
    )[k] by {
        lemma_prod_scale_left(a, t, c, n, k);
    }
    assert(pmul(pscale(a, t, n), c, n) =~= pscale(pmul(a, c, n), t, n));
}

/// Congruent first factors give congruent products.
pub proof fn lemma_pmul_cong_left(a: Seq<int>, a2: Seq<int>, c: Seq<int>, n: int, q: int)
    requires
        n >= 0,
        q > 0,
        cong(a, a2, n, q),
    ensures
        cong(pmul(a, c, n), pmul(a2, c, n), n, q),
{
    assert forall|k: int| 0 <= k < n implies #[trigger] ic(pmul(a, c, n), k) % q == ic(pmul(a2, c, n), k) % q by {
        lemma_prod_congruent_left(a, a2, c, n, k, q);
    }
}

/// Congruent second factors give congruent products.
pub proof fn lemma_pmul_cong_right(c: Seq<int>, a: Seq<int>, a2: Seq<int>, n: int, q: int)
    requires
        n >= 0,
        q > 0,
        cong(a, a2, n, q),
    ensures
        cong(pmul(c, a, n), pmul(c, a2, n), n, q),
{
    lemma_pmul_cong_left(a, a2, c, n, q);
    lemma_pmul_comm(c, a, n);
    lemma_pmul_comm(c, a2, n);
}

/// Congruence is transitive.
pub proof fn lemma_cong_trans(a: Seq<int>, b: Seq<int>, c: Seq<int>, n: int, q: int)
    requires
        cong(a, b, n, q),
        cong(b, c, n, q),
    ensures
        cong(a, c, n, q),
{
    assert forall|j: int| 0 <= j < n implies #[trigger] ic(a, j) % q == ic(c, j) % q by {
        assert(ic(a, j) % q == ic(b, j) % q);
        assert(ic(b, j) % q == ic(c, j) % q);
    }
}

/// Adding congruent sequences gives congruent sums.
pub proof fn lemma_padd_cong(a: Seq<int>, a2: Seq<int>, b: Seq<int>, b2: Seq<int>, n: int, q: int)
    requires
        q > 0,
        cong(a, a2, n, q),
        cong(b, b2, n, q),
    ensures
        cong(padd(a, b, n), padd(a2, b2, n), n, q),
{
    assert forall|j: int| 0 <= j < n implies #[trigger] ic(padd(a, b, n), j) % q == ic(padd(a2, b2, n), j) % q by {
        assert(ic(a, j) % q == ic(a2, j) % q);
        assert(ic(b, j) % q == ic(b2, j) % q);
        lemma_add_mod_noop(ic(a, j), ic(b, j), q);
        lemma_add_mod_noop(ic(a2, j), ic(b2, j), q);
    }
}

/// A product depends only on the first `n` coefficients of each factor.
pub proof fn lemma_pmul_trunc_left(a: Seq<int>, c: Seq<int>, n: int)
    requires
        n >= 0,
    ensures
        pmul(trunc(a, n), c, n) == pmul(a, c, n),
{
    assert forall|k: int| 0 <= k < n implies #[trigger] pmul(trunc(a, n), c, n)[k] == pmul(a, c, n)[k] by {
        lemma_sum_range_ext(prod_terms(trunc(a, n), c, n, k), prod_terms(a, c, n, k), 0, n);
    }
    assert(pmul(trunc(a, n), c, n) =~= pmul(a, c, n));
}


/// Residues `s[k] = t_k mod q` are congruent to `t`.
pub proof fn lemma_residue_cong(s: Seq<i64>, t: Seq<int>, n: int, q: int)
    requires
        q > 0,
        s.len() == n,
        forall|k: int| 0 <= k < n ==> #[trigger] s[k] == ic(t, k) % q,
    ensures
        cong(widen(s), t, n, q),
{
    assert forall|k: int| 0 <= k < n implies #[trigger] ic(widen(s), k) % q == ic(t, k) % q by {
        lemma_mod_twice(ic(t, k), q);
    }
}

} // verus!
