//! NTRU-style encryption over the ring `R = Z_q[x]/(x^n + 1)`.
//!
//! Parameters: `n` (polynomial degree), `p` (small modulus, typically 3) and
//! `q` (large modulus).
//!
//! Key generation chooses small trinary polynomials `f` and `g`, inverts `f`
//! modulo `q` and modulo `p` (`f_q`, `f_p`), and publishes `h = (p·g)·f_q (mod q)`.
//! Encryption of a message `m` with small random `r` is `e = r·h + m (mod q)`.
//! Decryption computes `a = f·e (mod q)`, centres its coefficients into
//! `(-q/2, q/2]`, and recovers `m = f_p·a (mod p)`.

use crate::LatticeError;
use crate::ring_lwe::is_power_of_two;
use crate::ring_algebra::{
    cong,
    ic,
    prod_coeff,
    prod_terms,
    shifted,
    lemma_cong_trans,
    lemma_nega_coeff_is_prod,
    lemma_padd_cong,
    lemma_pmul_add_left,
    lemma_pmul_assoc,
    lemma_pmul_comm,
    lemma_pmul_cong_left,
    lemma_pmul_cong_right,
    lemma_pmul_scale_left,
    lemma_pmul_trunc_left,
    lemma_pmul_unit,
    lemma_residue_cong,
    padd,
    pmul,
    pscale,
    trunc,
    unit_poly,
    widen,
};
use crate::sums::{
    col_fn,
    col_sums,
    lemma_mod_add_multiple,
    lemma_sum_range_congruent,
    lemma_sum_range_ext,
    lemma_sum_range_scale,
    lemma_sum_range_single,
    lemma_sum_range_split,
    lemma_sum_range_swap,
    lemma_sum_range_zero,
    row_fn,
    row_sums,
    lemma_sum_congruent,
    lemma_sum_ext,
    lemma_sum_seq_new,
    lemma_sum_single,
    lemma_sum_update,
    sum_range,
    sum_seq,
};
use crate::util::{
    coeff,
    abs,
    gcd_spec,
    lemma_divides_le,
    lemma_gcd_divides,
    lemma_mod_add_left,
    lemma_mod_pos_ok_small_modulus,
    lemma_mul_fits_bounded,
    mod_pos_ok,
    mul_fits,
    lemma_nega_coeff_commutative,
    mod_inverse,
    mod_pos,
    nega_coeff,
    nega_term,
    nega_terms,
    xorshift_next,
    zeros,
    Poly,
    XorShift64,
};
use vstd::arithmetic::div_mod::*;
use vstd::arithmetic::mul::*;
use vstd::prelude::*;

verus! {

/// Entry `(k, j)` of the matrix of multiplication by `a` in `Z[x]/(x^n + 1)`:
/// the coefficient of `x^k` in `x^j·a`.
pub open spec fn nega_matrix(a: Seq<i64>, n: int, k: int, j: int) -> int {
    if k >= j {
        coeff(a, k - j)
    } else {
        -coeff(a, n + k - j)
    }
}

/// Entry `(k, j)` of the augmented matrix `[M | I]` that the elimination starts from.
pub open spec fn aug_target(a: Seq<i64>, n: int, k: int, j: int) -> int {
    if j < n {
        nega_matrix(a, n, k, j)
    } else if k == j - n {
        1
    } else {
        0
    }
}

/// The products `u[r] · aug[r][j]` down column `j`.
pub open spec fn col_products(u: Seq<int>, aug: Seq<Vec<i64>>, j: int) -> Seq<int> {
    Seq::new(u.len(), |r: int| u[r] * (aug[r]@[j] as int))
}

/// `aug` has `n` rows of `2n` entries, each in `[0, m)` (the identity half may
/// hold a 1 when `m == 1`).
pub open spec fn aug_well_formed(aug: Seq<Vec<i64>>, n: int, m: int) -> bool {
    &&& aug.len() == n
    &&& forall|r: int| 0 <= r < n ==> (#[trigger] aug[r])@.len() == 2 * n
    &&& forall|r: int, j: int|
        0 <= r < n && 0 <= j < 2 * n ==> {
            &&& 0 <= (#[trigger] aug[r]@[j])
            &&& (j < n || m >= 2) ==> aug[r]@[j] < m
            &&& aug[r]@[j] <= 1 || aug[r]@[j] < m
        }
}

/// The row operations applied so far are recorded by the matrix `u`:
/// column by column, `[M | I] ≡ u · aug (mod m)`.
pub open spec fn aug_tracks(a: Seq<i64>, n: int, m: int, u: Seq<Seq<int>>, aug: Seq<Vec<i64>>) -> bool {
    &&& u.len() == n
    &&& forall|k: int| 0 <= k < n ==> (#[trigger] u[k]).len() == n
    &&& forall|k: int, j: int|
        0 <= k < n && 0 <= j < 2 * n ==> #[trigger] sum_seq(col_products(u[k], aug, j)) % m
            == aug_target(a, n, k, j) % m
}

/// Columns `0..c` of the left half of `aug` are unit vectors.
pub open spec fn cols_reduced(aug: Seq<Vec<i64>>, n: int, c: int) -> bool {
    forall|r: int, j: int|
        0 <= r < n && 0 <= j < c ==> #[trigger] aug[r]@[j] == (if r == j {
            1int
        } else {
            0int
        })
}

/// The identity matrix of size `n`.
pub open spec fn identity(n: int) -> Seq<Seq<int>> {
    Seq::new(n as nat, |k: int| Seq::new(n as nat, |r: int| if r == k { 1int } else { 0int }))
}

/// Builds the augmented matrix `[M mod m | I]` for multiplication by `poly`.
fn build_aug(poly: &Poly, modulus: i64, n: usize) -> (aug: Vec<Vec<i64>>)
    requires
        0 < modulus <= i64::MAX / 2,
        forall|i: int| 1 <= i < n && i < poly.coeffs@.len() ==> poly.coeffs@[i] > i64::MIN,
        2 * n <= usize::MAX,
    ensures
        aug_well_formed(aug@, n as int, modulus as int),
        aug_tracks(poly.coeffs@, n as int, modulus as int, identity(n as int), aug@),
{
    let ghost a = poly.coeffs@;
    let ghost ni = n as int;
    let ghost m = modulus as int;
    let mut aug: Vec<Vec<i64>> = Vec::new();
    let mut i: usize = 0;
    while i < n
        invariant
            a == poly.coeffs@,
            ni == n,
            m == modulus,
            0 < modulus <= i64::MAX / 2,
            forall|i: int| 1 <= i < n && i < poly.coeffs@.len() ==> poly.coeffs@[i] > i64::MIN,
            2 * n <= usize::MAX,
            0 <= i <= n,
            aug@.len() == i,
            forall|r: int| 0 <= r < i ==> (#[trigger] aug@[r])@.len() == 2 * ni,
            forall|r: int, j: int|
                0 <= r < i && 0 <= j < 2 * ni ==> #[trigger] aug@[r]@[j] == (if j < ni {
                    aug_target(a, ni, r, j) % m
                } else {
                    aug_target(a, ni, r, j)
                }),
        decreases n - i,
    {
        let mut row: Vec<i64> = Vec::new();
        let mut j: usize = 0;
        while j < n
            invariant
                a == poly.coeffs@,
                ni == n,
                m == modulus,
                0 < modulus <= i64::MAX / 2,
                forall|i: int| 1 <= i < n && i < poly.coeffs@.len() ==> poly.coeffs@[i] > i64::MIN,
                2 * n <= usize::MAX,
                0 <= i < n,
                0 <= j <= n,
                row@.len() == j,
                forall|jj: int| 0 <= jj < j ==> #[trigger] row@[jj] == aug_target(a, ni, i as int, jj) % m,
            decreases n - j,
        {
            let val = if i >= j {
                let idx = i - j;
                if idx < poly.coeffs.len() {
                    poly.coeffs[idx]
                } else {
                    0
                }
            } else {
                let idx = n + i - j;
                if idx < poly.coeffs.len() {
                    -poly.coeffs[idx]
                } else {
                    0
                }
            };
            proof {
                lemma_mod_pos_ok_small_modulus(val as int, m);
            }
            row.push(mod_pos(val, modulus));
            j = j + 1;
        }
        let mut j: usize = 0;
        while j < n
            invariant
                a == poly.coeffs@,
                ni == n,
                m == modulus,
                0 <= i < n,
                0 <= j <= n,
                row@.len() == n + j,
                forall|jj: int| 0 <= jj < ni ==> #[trigger] row@[jj] == aug_target(a, ni, i as int, jj) % m,
                forall|jj: int|
                    ni <= jj < ni + j ==> #[trigger] row@[jj] == aug_target(a, ni, i as int, jj),
            decreases n - j,
        {
            row.push(if i == j { 1 } else { 0 });
            j = j + 1;
        }
        aug.push(row);
        i = i + 1;
    }
    proof {
        assert forall|r: int, j: int| 0 <= r < ni && 0 <= j < 2 * ni implies {
            &&& 0 <= (#[trigger] aug@[r]@[j])
            &&& (j < ni || m >= 2) ==> aug@[r]@[j] < m
            &&& aug@[r]@[j] <= 1 || aug@[r]@[j] < m
        } by {
            if j < ni {
                lemma_mod_bound(aug_target(a, ni, r, j), m);
            }
        }
        let u = identity(ni);
        assert forall|k: int, j: int| 0 <= k < ni && 0 <= j < 2 * ni implies #[trigger] sum_seq(
            col_products(u[k], aug@, j),
        ) % m == aug_target(a, ni, k, j) % m by {
            let s = col_products(u[k], aug@, j);
            assert forall|r: int| 0 <= r < s.len() && r != k implies s[r] == 0 by {
                lemma_mul_basics(aug@[r]@[j] as int);
            }
            lemma_sum_single(s, k);
            lemma_mul_basics(aug@[k]@[j] as int);
            if j < ni {
                lemma_mod_twice(aug_target(a, ni, k, j), m);
            }
        }
    }
    aug
}


/// `u` with columns `c` and `p` exchanged.
pub open spec fn swap_cols(u: Seq<Seq<int>>, c: int, p: int) -> Seq<Seq<int>> {
    Seq::new(u.len(), |k: int| u[k].update(c, u[k][p]).update(p, u[k][c]))
}

/// `u` with column `c` multiplied by `s`.
pub open spec fn scale_col(u: Seq<Seq<int>>, c: int, s: int) -> Seq<Seq<int>> {
    Seq::new(u.len(), |k: int| u[k].update(c, u[k][c] * s))
}

/// `u` with `f` times column `r` added to column `c`.
pub open spec fn add_col(u: Seq<Seq<int>>, c: int, r: int, f: int) -> Seq<Seq<int>> {
    Seq::new(u.len(), |k: int| u[k].update(c, u[k][c] + f * u[k][r]))
}

/// Exchanging rows `c` and `p` of `aug` and columns `c` and `p` of `u` keeps the record.
proof fn lemma_tracks_swap(
    a: Seq<i64>,
    n: int,
    m: int,
    u: Seq<Seq<int>>,
    aug: Seq<Vec<i64>>,
    aug2: Seq<Vec<i64>>,
    c: int,
    p: int,
)
    requires
        m > 0,
        aug.len() == n,
        0 <= c < n,
        0 <= p < n,
        c != p,
        aug_tracks(a, n, m, u, aug),
        aug2 == aug.update(c, aug[p]).update(p, aug[c]),
    ensures
        aug_tracks(a, n, m, swap_cols(u, c, p), aug2),
{
    let u2 = swap_cols(u, c, p);
    assert forall|k: int, j: int| 0 <= k < n && 0 <= j < 2 * n implies #[trigger] sum_seq(
        col_products(u2[k], aug2, j),
    ) % m == aug_target(a, n, k, j) % m by {
        let s = col_products(u[k], aug, j);
        let t = col_products(u2[k], aug2, j);
        assert(sum_seq(s) % m == aug_target(a, n, k, j) % m);
        let s1 = s.update(c, s[p]);
        assert(t =~= s1.update(p, s[c]));
        lemma_sum_update(s, c, s[p]);
        lemma_sum_update(s1, p, s[c]);
    }
}

/// Scaling row `c` of `aug` by `inv` (mod `m`) and column `c` of `u` by `piv`,
/// where `piv·inv ≡ 1`, keeps the record.
proof fn lemma_tracks_scale(
    a: Seq<i64>,
    n: int,
    m: int,
    u: Seq<Seq<int>>,
    aug: Seq<Vec<i64>>,
    new_row: Vec<i64>,
    c: int,
    piv: int,
    inv: int,
)
    requires
        m > 0,
        aug.len() == n,
        0 <= c < n,
        forall|r: int| 0 <= r < n ==> (#[trigger] aug[r])@.len() == 2 * n,
        (piv * inv) % m == 1int % m,
        aug_tracks(a, n, m, u, aug),
        new_row@.len() == aug[c]@.len(),
        forall|j: int|
            0 <= j < new_row@.len() ==> #[trigger] new_row@[j] == ((aug[c]@[j] as int) * inv) % m,
    ensures
        aug_tracks(a, n, m, scale_col(u, c, piv), aug.update(c, new_row)),
{
    let u2 = scale_col(u, c, piv);
    let aug2 = aug.update(c, new_row);
    assert forall|k: int, j: int| 0 <= k < n && 0 <= j < 2 * n implies #[trigger] sum_seq(
        col_products(u2[k], aug2, j),
    ) % m == aug_target(a, n, k, j) % m by {
        let s = col_products(u[k], aug, j);
        let t = col_products(u2[k], aug2, j);
        assert(sum_seq(s) % m == aug_target(a, n, k, j) % m);
        let x = aug[c]@[j] as int;
        let w = u[k][c];
        let v = (w * piv) * ((x * inv) % m);
        assert(t =~= s.update(c, v));
        lemma_sum_update(s, c, v);
        // v ≡ w·x (mod m)
        assert((w * piv) * (x * inv) == (w * x) * (piv * inv)) by (nonlinear_arith);
        lemma_mul_mod_noop_right(w * piv, x * inv, m);
        lemma_mul_mod_noop_right(w * x, piv * inv, m);
        assert(v % m == (w * x) % m) by {
            if m == 1 {
                assert(v % m == 0);
                assert((w * x) % m == 0);
            } else {
                lemma_small_mod(1, m as nat);
                lemma_mul_basics(w * x);
            }
        }
        assert(s[c] == w * x);
        lemma_add_mod_noop(sum_seq(s) - s[c], v, m);
        lemma_add_mod_noop(sum_seq(s) - s[c], s[c], m);
    }
}

/// Subtracting `f` times row `c` from row `r` of `aug` (mod `m`) and adding `f`
/// times column `r` of `u` to its column `c` keeps the record.
proof fn lemma_tracks_eliminate(
    a: Seq<i64>,
    n: int,
    m: int,
    u: Seq<Seq<int>>,
    aug: Seq<Vec<i64>>,
    new_row: Vec<i64>,
    c: int,
    r: int,
    f: int,
)
    requires
        m > 0,
        aug.len() == n,
        0 <= c < n,
        0 <= r < n,
        r != c,
        forall|r: int| 0 <= r < n ==> (#[trigger] aug[r])@.len() == 2 * n,
        aug_tracks(a, n, m, u, aug),
        new_row@.len() == aug[r]@.len(),
        forall|j: int|
            0 <= j < new_row@.len() ==> #[trigger] new_row@[j] == ((aug[r]@[j] as int) - f * (
            aug[c]@[j] as int)) % m,
    ensures
        aug_tracks(a, n, m, add_col(u, c, r, f), aug.update(r, new_row)),
{
    let u2 = add_col(u, c, r, f);
    let aug2 = aug.update(r, new_row);
    assert forall|k: int, j: int| 0 <= k < n && 0 <= j < 2 * n implies #[trigger] sum_seq(
        col_products(u2[k], aug2, j),
    ) % m == aug_target(a, n, k, j) % m by {
        let s = col_products(u[k], aug, j);
        let t = col_products(u2[k], aug2, j);
        assert(sum_seq(s) % m == aug_target(a, n, k, j) % m);
        let xr = aug[r]@[j] as int;
        let xc = aug[c]@[j] as int;
        let ur = u[k][r];
        let uc = u[k][c];
        let y = xr - f * xc;
        let w = y % m;
        let s1 = s.update(r, ur * w);
        assert(t =~= s1.update(c, (uc + f * ur) * xc));
        lemma_sum_update(s, r, ur * w);
        lemma_sum_update(s1, c, (uc + f * ur) * xc);
        lemma_fundamental_div_mod(y, m);
        let d = y / m;
        assert((uc + f * ur) * xc == uc * xc + ur * (f * xc)) by (nonlinear_arith);
        assert(ur * xr - ur * w - ur * (f * xc) == ur * (xr - f * xc - w)) by (nonlinear_arith);
        assert(ur * (m * d) == m * (ur * d)) by (nonlinear_arith);
        assert(xr - f * xc - w == m * d);
        assert(m * (-(ur * d)) == -(m * (ur * d))) by (nonlinear_arith);
        assert(s[r] == ur * xr);
        assert(s1[c] == uc * xc);
        assert(sum_seq(t) == sum_seq(s) + m * (-(ur * d)));
        lemma_mod_add_multiple(sum_seq(s), -(ur * d), m);
    }
}

/// Once the left half of `aug` is the identity, its first right-hand column is
/// the inverse of `a` modulo `m`.
proof fn lemma_tracks_final(a: Seq<i64>, n: int, m: int, u: Seq<Seq<int>>, aug: Seq<Vec<i64>>, inv: Seq<i64>)
    requires
        m > 0,
        aug.len() == n,
        forall|r: int| 0 <= r < n ==> (#[trigger] aug[r])@.len() == 2 * n,
        aug_tracks(a, n, m, u, aug),
        cols_reduced(aug, n, n),
        inv.len() == n,
        forall|r: int| 0 <= r < n ==> #[trigger] inv[r] == aug[r]@[n],
    ensures
        forall|k: int|
            0 <= k < n ==> #[trigger] nega_coeff(a, inv, n, k) % m == (if k == 0 {
                1int
            } else {
                0int
            }) % m,
{
    assert forall|k: int| 0 <= k < n implies #[trigger] nega_coeff(a, inv, n, k) % m == (if k
        == 0 {
        1int
    } else {
        0int
    }) % m by {
        // u agrees with the multiplication matrix modulo m
        assert forall|j: int| 0 <= j < n implies #[trigger] (u[k][j] % m) == nega_matrix(a, n, k, j)
            % m by {
            let s = col_products(u[k], aug, j);
            assert(sum_seq(s) % m == aug_target(a, n, k, j) % m);
            assert forall|r: int| 0 <= r < s.len() && r != j implies s[r] == 0 by {
                assert(aug[r]@[j] == 0);
                lemma_mul_basics(u[k][r]);
            }
            lemma_sum_single(s, j);
            assert(aug[j]@[j] == 1);
            lemma_mul_basics(u[k][j]);
        }
        let s = col_products(u[k], aug, n);
        assert(sum_seq(s) % m == aug_target(a, n, k, n) % m);
        let g = |r: int| nega_matrix(a, n, k, r) * (inv[r] as int);
        let t = Seq::new(n as nat, g);
        assert forall|r: int| 0 <= r < s.len() implies #[trigger] (s[r] % m) == t[r] % m by {
            lemma_mul_mod_noop_left(u[k][r], inv[r] as int, m);
            lemma_mul_mod_noop_left(nega_matrix(a, n, k, r), inv[r] as int, m);
        }
        lemma_sum_congruent(s, t, m);
        lemma_sum_seq_new(g, n as nat);
        let f = nega_terms(inv, a, n, k);
        assert forall|r: int| 0 <= r < n implies #[trigger] g(r) == f(r) by {
            if r <= k {
                lemma_mul_is_commutative(coeff(a, k - r), inv[r] as int);
            } else {
                lemma_mul_is_commutative(coeff(a, n + k - r), inv[r] as int);
                lemma_mul_unary_negation(coeff(a, n + k - r), inv[r] as int);
            }
        }
        crate::sums::lemma_sum_range_ext(g, f, 0, n);
        lemma_nega_coeff_commutative(inv, a, n, k);
    }
}


/// Exchanges rows `i` and `j`.
fn swap_rows(aug: &mut Vec<Vec<i64>>, i: usize, j: usize)
    requires
        i < old(aug)@.len(),
        j < old(aug)@.len(),
        i != j,
    ensures
        final(aug)@ == old(aug)@.update(i as int, old(aug)@[j as int]).update(
            j as int,
            old(aug)@[i as int],
        ),
{
    let mut tmp: Vec<i64> = Vec::new();
    aug.set_and_swap(i, &mut tmp);
    aug.set_and_swap(j, &mut tmp);
    aug.set_and_swap(i, &mut tmp);
}

/// `row` scaled by `s` modulo `m`.
fn scale_row(row: &Vec<i64>, s: i64, m: i64) -> (r: Vec<i64>)
    requires
        2 <= m <= i64::MAX / 2,
        (m as int - 1) * (m as int - 1) <= i64::MAX,
        0 <= s < m,
        forall|j: int| 0 <= j < row@.len() ==> 0 <= #[trigger] row@[j] < m,
    ensures
        r@.len() == row@.len(),
        forall|j: int| 0 <= j < r@.len() ==> #[trigger] r@[j] == ((row@[j] as int) * (s as int)) % (m as int),
{
    let mut out: Vec<i64> = Vec::new();
    let mut j: usize = 0;
    while j < row.len()
        invariant
            2 <= m <= i64::MAX / 2,
            (m as int - 1) * (m as int - 1) <= i64::MAX,
            0 <= s < m,
            forall|j: int| 0 <= j < row@.len() ==> 0 <= #[trigger] row@[j] < m,
            0 <= j <= row@.len(),
            out@.len() == j,
            forall|jj: int|
                0 <= jj < j ==> #[trigger] out@[jj] == ((row@[jj] as int) * (s as int)) % (m as int),
        decreases row@.len() - j,
    {
        let x = row[j];
        assert(0 <= (x as int) * (s as int) <= (m as int - 1) * (m as int - 1)) by (nonlinear_arith)
            requires
                0 <= x < m,
                0 <= s < m,
        ;
        proof {
            lemma_mod_pos_ok_small_modulus((x as int) * (s as int), m as int);
        }
        out.push(mod_pos(x * s, m));
        j = j + 1;
    }
    out
}

/// `row` minus `f` times `prow`, modulo `m`.
fn eliminate_row(row: &Vec<i64>, prow: &Vec<i64>, f: i64, m: i64) -> (r: Vec<i64>)
    requires
        2 <= m <= i64::MAX / 2,
        (m as int - 1) * (m as int - 1) <= i64::MAX,
        0 <= f < m,
        row@.len() == prow@.len(),
        forall|j: int| 0 <= j < row@.len() ==> 0 <= #[trigger] row@[j] < m,
        forall|j: int| 0 <= j < prow@.len() ==> 0 <= #[trigger] prow@[j] < m,
    ensures
        r@.len() == row@.len(),
        forall|j: int|
            0 <= j < r@.len() ==> #[trigger] r@[j] == ((row@[j] as int) - (f as int) * (prow@[j] as int))
                % (m as int),
{
    let mut out: Vec<i64> = Vec::new();
    let mut j: usize = 0;
    while j < row.len()
        invariant
            2 <= m <= i64::MAX / 2,
            (m as int - 1) * (m as int - 1) <= i64::MAX,
            0 <= f < m,
            row@.len() == prow@.len(),
            forall|j: int| 0 <= j < row@.len() ==> 0 <= #[trigger] row@[j] < m,
            forall|j: int| 0 <= j < prow@.len() ==> 0 <= #[trigger] prow@[j] < m,
            0 <= j <= row@.len(),
            out@.len() == j,
            forall|jj: int|
                0 <= jj < j ==> #[trigger] out@[jj] == ((row@[jj] as int) - (f as int) * (
                prow@[jj] as int)) % (m as int),
        decreases row@.len() - j,
    {
        let x = row[j];
        let y = prow[j];
        assert(0 <= (f as int) * (y as int) <= (m as int - 1) * (m as int - 1)) by (nonlinear_arith)
            requires
                0 <= f < m,
                0 <= y < m,
        ;
        proof {
            lemma_mod_pos_ok_small_modulus((x as int) - (f as int) * (y as int), m as int);
        }
        out.push(mod_pos(x - f * y, m));
        j = j + 1;
    }
    out
}

/// `g` inverts `a` in `Z_m[x]/(x^n + 1)`: `a·g ≡ 1 (mod m)`.
pub open spec fn inverts(a: Seq<i64>, g: Seq<i64>, n: int, m: int) -> bool {
    forall|k: int|
        0 <= k < n ==> #[trigger] nega_coeff(a, g, n, k) % m == (if k == 0 {
            1int
        } else {
            0int
        }) % m
}

/// `m` is a prime number.
pub open spec fn is_prime(m: int) -> bool {
    &&& m >= 2
    &&& forall|d: int| 1 < d < m ==> #[trigger] (m % d) != 0
}

/// The zero polynomial with `n` integer coefficients.
pub open spec fn zero_poly(n: int) -> Seq<int> {
    Seq::new(n as nat, |k: int| 0int)
}

/// Modulo a prime, every residue in `(0, m)` is coprime to `m`.
proof fn lemma_prime_coprime(x: int, m: int)
    requires
        is_prime(m),
        0 < x < m,
    ensures
        gcd_spec(x as nat, m as nat) == 1,
{
    lemma_gcd_divides(x as nat, m as nat);
    let g = gcd_spec(x as nat, m as nat) as int;
    lemma_divides_le(g, x);
    if g > 1 {
        assert(m % g != 0);
    }
}

/// When column `col` has, below the reduced columns, only entries divisible by
/// `d` (a divisor of `m`), the vector `v` with `v_col = 1` and
/// `v_j = -aug[j][col]` above it is in the kernel of the multiplication matrix
/// modulo `d`: `v·a ≡ 0 (mod d)`.
proof fn lemma_no_pivot_kernel(
    a: Seq<i64>,
    n: int,
    m: int,
    u: Seq<Seq<int>>,
    aug: Seq<Vec<i64>>,
    col: int,
    d: int,
) -> (v: Seq<int>)
    requires
        m > 0,
        d > 0,
        m % d == 0,
        0 <= col < n,
        aug_well_formed(aug, n, m),
        aug_tracks(a, n, m, u, aug),
        cols_reduced(aug, n, col),
        forall|r: int| col <= r < n ==> (#[trigger] aug[r]@[col] as int) % d == 0,
    ensures
        v.len() == n,
        v[col] == 1,
        cong(pmul(v, widen(a), n), zero_poly(n), n, d),
{
    let v = Seq::new(
        n as nat,
        |j: int|
            if j < col {
                -(aug[j]@[col] as int)
            } else if j == col {
                1int
            } else {
                0int
            },
    );
    // every row of the current left half takes v to a multiple of d
    assert forall|r: int| 0 <= r < n implies sum_range(#[trigger] row_times(aug, v, r), 0, n) % d == 0 by {
        let f = row_times(aug, v, r);
        lemma_sum_range_split(f, 0, col, n);
        assert forall|j: int| col <= j < n && j != col implies #[trigger] f(j) == 0 by {
            lemma_mul_basics(aug[r]@[j] as int);
        }
        lemma_sum_range_single(f, col, n, col);
        lemma_mul_basics(aug[r]@[col] as int);
        if r < col {
            assert forall|j: int| 0 <= j < col && j != r implies #[trigger] f(j) == 0 by {
                lemma_mul_basics(v[j]);
            }
            lemma_sum_range_single(f, 0, col, r);
            lemma_mul_basics(v[r]);
            lemma_small_mod(0, d as nat);
        } else {
            assert forall|j: int| 0 <= j < col implies #[trigger] f(j) == 0 by {
                lemma_mul_basics(v[j]);
            }
            lemma_sum_range_zero(f, 0, col);
        }
    }
    let wa = widen(a);
    assert forall|k: int| 0 <= k < n implies #[trigger] ic(pmul(v, wa, n), k) % d == ic(zero_poly(n), k) % d by {
        // (M·v)_k = Σ_j M[k][j]·v_j
        let mv = |j: int| nega_matrix(a, n, k, j) * v[j];
        assert forall|j: int| 0 <= j < n implies #[trigger] prod_terms(v, wa, n, k)(j) == mv(j) by {
            assert(ic(wa, k - j) == coeff(a, k - j));
            assert(ic(wa, n + k - j) == coeff(a, n + k - j));
            lemma_mul_is_commutative(v[j], nega_matrix(a, n, k, j));
        }
        lemma_sum_range_ext(prod_terms(v, wa, n, k), mv, 0, n);
        // M[k][j] ≡ Σ_r u[k][r]·aug[r][j] (mod m, hence mod d)
        let uk = u[k];
        let prod = |r: int, j: int| uk[r] * (aug[r]@[j] as int) * v[j];
        let sj = |j: int| sum_range(col_fn(prod, j), 0, n);
        assert forall|j: int| 0 <= j < n implies #[trigger] mv(j) % d == sj(j) % d by {
            let cp = |r: int| uk[r] * (aug[r]@[j] as int);
            assert(col_products(uk, aug, j) =~= Seq::new(n as nat, cp));
            lemma_sum_seq_new(cp, n as nat);
            assert(sum_seq(col_products(uk, aug, j)) % m == aug_target(a, n, k, j) % m);
            assert forall|r: int| 0 <= r < n implies #[trigger] col_fn(prod, j)(r) == v[j] * cp(r) by {
                lemma_mul_is_commutative(v[j], cp(r));
            }
            lemma_sum_range_scale(cp, col_fn(prod, j), v[j], 0, n);
            lemma_mod_of_divisor(nega_matrix(a, n, k, j), sum_range(cp, 0, n), m, d);
            lemma_mul_mod_noop_left(nega_matrix(a, n, k, j), v[j], d);
            lemma_mul_mod_noop_left(sum_range(cp, 0, n), v[j], d);
            lemma_mul_is_commutative(v[j], sum_range(cp, 0, n));
        }
        lemma_sum_range_congruent(mv, sj, d, 0, n);
        // swap the double sum: Σ_r u[k][r]·(Σ_j aug[r][j]·v_j) ≡ 0 (mod d)
        lemma_sum_range_swap(prod, n, n);
        lemma_sum_range_ext(sj, col_sums(prod, n), 0, n);
        let zf = |r: int| 0int;
        assert forall|r: int| 0 <= r < n implies #[trigger] row_sums(prod, n)(r) % d == zf(r) % d by {
            let f = row_times(aug, v, r);
            assert forall|j: int| 0 <= j < n implies #[trigger] row_fn(prod, r)(j) == uk[r] * f(j) by {
                lemma_mul_is_associative(uk[r], aug[r]@[j] as int, v[j]);
            }
            lemma_sum_range_scale(f, row_fn(prod, r), uk[r], 0, n);
            assert(sum_range(f, 0, n) % d == 0);
            lemma_mul_mod_noop_right(uk[r], sum_range(f, 0, n), d);
            lemma_mul_basics(uk[r]);
            lemma_small_mod(0, d as nat);
        }
        lemma_sum_range_congruent(row_sums(prod, n), zf, d, 0, n);
        lemma_sum_range_zero(zf, 0, n);
        lemma_small_mod(0, d as nat);
    }
    v
}

/// Residues that agree modulo `m` agree modulo every divisor `d` of `m`.
proof fn lemma_mod_of_divisor(x: int, y: int, m: int, d: int)
    requires
        m > 0,
        d > 0,
        m % d == 0,
        x % m == y % m,
    ensures
        x % d == y % d,
{
    lemma_fundamental_div_mod(x, m);
    lemma_fundamental_div_mod(y, m);
    lemma_fundamental_div_mod(m, d);
    let k = m / d;
    let t = k * (x / m - y / m);
    assert(x == y + d * t) by (nonlinear_arith)
        requires
            x == m * (x / m) + x % m,
            y == m * (y / m) + y % m,
            x % m == y % m,
            m == d * k + m % d,
            m % d == 0,
            t == k * (x / m - y / m),
    ;
    lemma_mod_add_multiple(y, t, d);
}

/// An inverse modulo `m` is an inverse modulo every divisor `d` of `m`.
proof fn lemma_inverts_divisor(a: Seq<i64>, g: Seq<i64>, n: int, m: int, d: int)
    requires
        m > 0,
        d > 0,
        m % d == 0,
        inverts(a, g, n, m),
    ensures
        inverts(a, g, n, d),
{
    assert forall|k: int| 0 <= k < n implies #[trigger] nega_coeff(a, g, n, k) % d == (if k == 0 {
        1int
    } else {
        0int
    }) % d by {
        lemma_mod_of_divisor(nega_coeff(a, g, n, k), if k == 0 {
            1int
        } else {
            0int
        }, m, d);
    }
}

/// An odd divisor of a power of two is 1.
proof fn lemma_odd_divides_pow2(g: int, m: int)
    requires
        m > 0,
        is_power_of_two(m as nat),
        g > 0,
        g % 2 == 1,
        m % g == 0,
    ensures
        g == 1,
    decreases m,
{
    if m == 1 {
        lemma_divides_le(g, 1);
    } else {
        lemma_fundamental_div_mod(m, g);
        let t = m / g;
        assert(m == g * t);
        if t % 2 == 1 {
            lemma_fundamental_div_mod(g, 2);
            lemma_fundamental_div_mod(t, 2);
            let kk = 2 * (g / 2) * (t / 2) + g / 2 + t / 2;
            assert(g * t == 1 + 2 * kk) by (nonlinear_arith)
                requires
                    g == 2 * (g / 2) + 1,
                    t == 2 * (t / 2) + 1,
                    kk == 2 * (g / 2) * (t / 2) + g / 2 + t / 2,
            ;
            lemma_mod_add_multiple(1, kk, 2);
            assert(m % 2 == 0);
            assert(false);
        }
        lemma_fundamental_div_mod(t, 2);
        let t2 = t / 2;
        assert(m / 2 == g * t2) by (nonlinear_arith)
            requires
                m == g * t,
                t == 2 * t2 + t % 2,
                t % 2 == 0,
        ;
        lemma_mod_multiples_basic(t2, g);
        lemma_mul_is_commutative(g, t2);
        lemma_odd_divides_pow2(g, m / 2);
    }
}

/// Modulo a power of two, every odd residue is coprime to the modulus.
proof fn lemma_pow2_odd_coprime(x: int, m: int)
    requires
        m > 0,
        is_power_of_two(m as nat),
        x > 0,
        x % 2 == 1,
    ensures
        gcd_spec(x as nat, m as nat) == 1,
{
    lemma_gcd_divides(x as nat, m as nat);
    let g = gcd_spec(x as nat, m as nat) as int;
    if g % 2 == 0 {
        lemma_fundamental_div_mod(x, g);
        lemma_fundamental_div_mod(g, 2);
        let k = x / g;
        assert(x == 2 * ((g / 2) * k)) by (nonlinear_arith)
            requires
                x == g * k + x % g,
                x % g == 0,
                g == 2 * (g / 2) + g % 2,
                g % 2 == 0,
        ;
        lemma_mod_multiples_basic((g / 2) * k, 2);
        lemma_mul_is_commutative(2, (g / 2) * k);
    }
    lemma_odd_divides_pow2(g, m);
}

/// Modulo `m`, Gauss-Jordan elimination that always takes a unit pivot finds
/// an inverse whenever one exists: `m` is a prime or a power of two (at least 2).
pub open spec fn inversion_exact(m: int) -> bool {
    &&& m >= 2
    &&& (is_prime(m) || is_power_of_two(m as nat))
}

/// A residue that is zero or not a unit modulo a prime `m` is divisible by
/// `m`; modulo a power of two `m`, by 2.
proof fn lemma_non_units_share_prime(m: int, x: int) -> (d: int)
    requires
        inversion_exact(m),
        0 <= x < m,
        x == 0 || gcd_spec(x as nat, m as nat) != 1,
    ensures
        d >= 2,
        m % d == 0,
        d == (if is_prime(m) { m } else { 2 }),
        x % d == 0,
{
    if is_prime(m) {
        if x != 0 {
            lemma_prime_coprime(x, m);
        }
        lemma_small_mod(0, m as nat);
        lemma_mod_self_0(m);
        m
    } else {
        assert(m % 2 == 0);
        if x % 2 == 1 {
            lemma_pow2_odd_coprime(x, m);
        }
        if x == 0 {
            lemma_small_mod(0, 2);
        }
        2
    }
}

/// Row `r` of `aug` times `v`, term by term.
pub open spec fn row_times(aug: Seq<Vec<i64>>, v: Seq<int>, r: int) -> spec_fn(int) -> int {
    |j: int| (aug[r]@[j] as int) * v[j]
}

/// A kernel vector of multiplication by `a` that is nonzero modulo `m` rules
/// out an inverse of `a`.
proof fn lemma_kernel_blocks_inverse(a: Seq<i64>, g: Seq<i64>, n: int, m: int, v: Seq<int>, col: int)
    requires
        m >= 2,
        0 <= col < n,
        v.len() == n,
        v[col] == 1,
        cong(pmul(v, widen(a), n), zero_poly(n), n, m),
    ensures
        !inverts(a, g, n, m),
{
    if !inverts(a, g, n, m) {
        return;
    }
    let wa = widen(a);
    let wg = widen(g);
    assert forall|k: int| 0 <= k < n implies #[trigger] ic(pmul(wa, wg, n), k) % m == ic(unit_poly(n), k) % m by {
        lemma_nega_coeff_is_prod(a, g, n, k);
    }
    lemma_pmul_cong_right(v, pmul(wa, wg, n), unit_poly(n), n, m);
    lemma_pmul_unit(v, n);
    lemma_pmul_assoc(v, wa, wg, n);
    lemma_pmul_cong_left(pmul(v, wa, n), zero_poly(n), wg, n, m);
    assert(ic(pmul(zero_poly(n), wg, n), col) == 0) by {
        let t = prod_terms(zero_poly(n), wg, n, col);
        assert forall|j: int| 0 <= j < n implies #[trigger] t(j) == 0 by {
            lemma_mul_basics(shifted(wg, j, n, col));
        }
        lemma_sum_range_zero(t, 0, n);
    }
    assert(ic(trunc(v, n), col) % m == ic(pmul(v, pmul(wa, wg, n), n), col) % m);
    assert(ic(pmul(pmul(v, wa, n), wg, n), col) % m == ic(pmul(zero_poly(n), wg, n), col) % m);
    lemma_small_mod(1, m as nat);
    lemma_small_mod(0, m as nat);
}

/// Compute the inverse of a polynomial in the ring `Z_mod[x]/(x^n + 1)` by
/// Gauss-Jordan elimination on the negacyclic multiplication matrix.
///
/// Each column takes as pivot the first entry at or below the diagonal that is
/// a unit modulo `modulus`; `None` is returned when a column has none. Modulo a
/// prime or a power of two this happens only for polynomials without an
/// inverse.
pub fn invert_negacyclic(poly: &Poly, modulus: i64, n: usize) -> (r: Option<Poly>)
    requires
        modulus > 0,
        (modulus as int - 1) * (modulus as int - 1) <= i64::MAX,
        forall|i: int| 1 <= i < n && i < poly.coeffs@.len() ==> poly.coeffs@[i] > i64::MIN,
        2 * n <= usize::MAX,
    ensures
        r matches Some(inv) ==> {
            &&& inv.coeffs@.len() == n
            &&& forall|i: int| 0 <= i < n ==> 0 <= #[trigger] inv.coeffs@[i] < modulus
            &&& forall|k: int|
                0 <= k < n ==> #[trigger] nega_coeff(poly.coeffs@, inv.coeffs@, n as int, k) % (
                modulus as int) == (if k == 0 {
                1int
            } else {
                0int
            }) % (modulus as int)
        },
        r is None && inversion_exact(modulus as int) ==> forall|g: Seq<i64>|
            !#[trigger] inverts(poly.coeffs@, g, n as int, modulus as int),
{
    let ghost a = poly.coeffs@;
    let ghost ni = n as int;
    let ghost m = modulus as int;
    assert(m <= i64::MAX / 2) by (nonlinear_arith)
        requires
            (m - 1) * (m - 1) <= i64::MAX,
            m >= 1,
    ;
    let mut aug = build_aug(poly, modulus, n);
    let ghost mut u: Seq<Seq<int>> = identity(ni);
    let mut col: usize = 0;
    while col < n
        invariant
            a == poly.coeffs@,
            ni == n,
            m == modulus,
            0 < m <= i64::MAX / 2,
            (m - 1) * (m - 1) <= i64::MAX,
            2 * n <= usize::MAX,
            0 <= col <= n,
            aug_well_formed(aug@, ni, m),
            aug_tracks(a, ni, m, u, aug@),
            cols_reduced(aug@, ni, col as int),
            col > 0 ==> m >= 2,
        decreases n - col,
    {
        // find a pivot: the first nonzero entry at or below the diagonal that
        // is a unit modulo `modulus`
        let mut pivot: Option<(usize, i64)> = None;
        let mut row: usize = col;
        while row < n
            invariant_except_break
                pivot is None,
            invariant
                aug_well_formed(aug@, ni, m),
                m == modulus,
                ni == n,
                0 < m <= i64::MAX / 2,
                0 <= col < n,
                col <= row <= n,
                forall|r: int|
                    col <= r < row ==> #[trigger] aug@[r]@[col as int] == 0 || gcd_spec(
                        aug@[r]@[col as int] as nat,
                        m as nat,
                    ) != 1,
            ensures
                pivot is None ==> row == n,
                pivot matches Some(pv) ==> {
                    &&& col <= pv.0 < n
                    &&& aug@[pv.0 as int]@[col as int] != 0
                    &&& 0 <= pv.1 < m
                    &&& ((aug@[pv.0 as int]@[col as int] as int) * (pv.1 as int)) % m == 1int % m
                },
            decreases n - row,
        {
            let x = aug[row][col];
            proof {
                lemma_small_mod(x as nat, m as nat);
            }
            if x % modulus != 0 {
                match mod_inverse(x, modulus) {
                    Some(inv) => {
                        pivot = Some((row, inv));
                        break;
                    },
                    None => {},
                }
            }
            row = row + 1;
        }
        let (p, piv_inv) = match pivot {
            None => {
                proof {
                    if inversion_exact(m) {
                        let d = if is_prime(m) { m } else { 2 };
                        assert forall|r: int| col <= r < ni implies (#[trigger] aug@[r]@[col as int] as int) % d
                            == 0 by {
                            lemma_non_units_share_prime(m, aug@[r]@[col as int] as int);
                        }
                        assert(d >= 2 && m % d == 0) by {
                            lemma_non_units_share_prime(m, 0);
                        }
                        let v = lemma_no_pivot_kernel(a, ni, m, u, aug@, col as int, d);
                        assert forall|g: Seq<i64>| !#[trigger] inverts(a, g, ni, m) by {
                            lemma_kernel_blocks_inverse(a, g, ni, d, v, col as int);
                            if inverts(a, g, ni, m) {
                                lemma_inverts_divisor(a, g, ni, m, d);
                            }
                        }
                    }
                }
                return None;
            },
            Some(pv) => pv,
        };
        proof {
            assert(m >= 2) by {
                assert(0 <= aug@[p as int]@[col as int] < m);
            }
        }
        if p != col {
            let ghost before = aug@;
            swap_rows(&mut aug, col, p);
            proof {
                lemma_tracks_swap(a, ni, m, u, before, aug@, col as int, p as int);
                u = swap_cols(u, col as int, p as int);
                assert forall|r: int, j: int| 0 <= r < ni && 0 <= j < col implies #[trigger] aug@[r]@[j]
                    == (if r == j {
                    1int
                } else {
                    0int
                }) by {
                    if r == col {
                        assert(aug@[r]@[j] == before[p as int]@[j]);
                    } else if r == p {
                        assert(aug@[r]@[j] == before[col as int]@[j]);
                    } else {
                        assert(aug@[r] == before[r]);
                    }
                }
            }
        }
        let piv_val = aug[col][col];
        proof {
            lemma_small_mod(piv_val as nat, m as nat);
        }
        let ghost before_scale = aug@;
        let scaled = scale_row(&aug[col], piv_inv, modulus);
        aug.set(col, scaled);
        proof {
            lemma_tracks_scale(
                a,
                ni,
                m,
                u,
                before_scale,
                scaled,
                col as int,
                piv_val as int,
                piv_inv as int,
            );
            u = scale_col(u, col as int, piv_val as int);
            lemma_small_mod(1, m as nat);
            assert forall|j: int| 0 <= j < col implies #[trigger] aug@[col as int]@[j] == 0 by {
                assert(before_scale[col as int]@[j] == 0);
                lemma_mul_basics(piv_inv as int);
                lemma_small_mod(0, m as nat);
            }
            assert forall|j: int| 0 <= j < 2 * ni implies 0 <= #[trigger] aug@[col as int]@[j] < m by {
                lemma_mod_bound((before_scale[col as int]@[j] as int) * (piv_inv as int), m);
            }
        }
        // clear column `col` in every other row
        let ghost prow = aug@[col as int];
        let mut r: usize = 0;
        while r < n
            invariant
                a == poly.coeffs@,
                ni == n,
                m == modulus,
                2 <= m <= i64::MAX / 2,
                (m - 1) * (m - 1) <= i64::MAX,
                0 <= col < n,
                0 <= r <= n,
                aug_well_formed(aug@, ni, m),
                aug_tracks(a, ni, m, u, aug@),
                aug@[col as int] == prow,
                prow@[col as int] == 1,
                forall|j: int| 0 <= j < col ==> #[trigger] prow@[j] == 0,
                cols_reduced(aug@, ni, col as int),
                forall|r2: int| 0 <= r2 < r && r2 != col ==> #[trigger] aug@[r2]@[col as int] == 0,
            decreases n - r,
        {
            if r != col {
                let factor = aug[r][col];
                if factor != 0 {
                    let ghost before_elim = aug@;
                    let new_row = eliminate_row(&aug[r], &aug[col], factor, modulus);
                    aug.set(r, new_row);
                    proof {
                        lemma_tracks_eliminate(
                            a,
                            ni,
                            m,
                            u,
                            before_elim,
                            new_row,
                            col as int,
                            r as int,
                            factor as int,
                        );
                        u = add_col(u, col as int, r as int, factor as int);
                        assert forall|j: int| 0 <= j < 2 * ni implies 0 <= #[trigger] aug@[r as int]@[j]
                            < m by {
                            lemma_mod_bound(
                                (before_elim[r as int]@[j] as int) - (factor as int) * (prow@[j] as int),
                                m,
                            );
                        }
                        assert forall|j: int| 0 <= j < col implies #[trigger] aug@[r as int]@[j] == (if r
                            == j {
                            1int
                        } else {
                            0int
                        }) by {
                            assert(prow@[j] == 0);
                            lemma_mul_basics(factor as int);
                            lemma_small_mod(before_elim[r as int]@[j] as nat, m as nat);
                        }
                        assert(aug@[r as int]@[col as int] == 0) by {
                            lemma_mul_basics(factor as int);
                            lemma_small_mod(0, m as nat);
                        }
                    }
                }
            }
            r = r + 1;
        }
        col = col + 1;
    }
    let mut inv_coeffs: Vec<i64> = Vec::new();
    let mut i: usize = 0;
    while i < n
        invariant
            ni == n,
            0 <= i <= n,
            aug_well_formed(aug@, ni, m),
            m == modulus,
            inv_coeffs@.len() == i,
            forall|r: int| 0 <= r < i ==> #[trigger] inv_coeffs@[r] == aug@[r]@[ni],
        decreases n - i,
    {
        inv_coeffs.push(aug[i][n]);
        i = i + 1;
    }
    proof {
        lemma_tracks_final(a, ni, m, u, aug@, inv_coeffs@);
        assert forall|i: int| 0 <= i < ni implies 0 <= #[trigger] inv_coeffs@[i] < m by {
            assert(m >= 2);
            assert(inv_coeffs@[i] == aug@[i]@[ni]);
        }
    }
    Some(Poly::new(inv_coeffs))
}


/// The number of entries of `s` equal to `v`.
pub open spec fn count_of(s: Seq<i64>, v: i64) -> nat
    decreases s.len(),
{
    if s.len() == 0 {
        0
    } else {
        count_of(s.drop_last(), v) + (if s.last() == v {
            1nat
        } else {
            0nat
        })
    }
}

/// Replacing one entry changes each count by at most one.
proof fn lemma_count_update(s: Seq<i64>, i: int, w: i64, v: i64)
    requires
        0 <= i < s.len(),
    ensures
        count_of(s.update(i, w), v) + (if s[i] == v {
            1int
        } else {
            0int
        }) == count_of(s, v) + (if w == v {
            1int
        } else {
            0int
        }),
    decreases s.len(),
{
    let t = s.update(i, w);
    if i == s.len() - 1 {
        assert(t.drop_last() =~= s.drop_last());
    } else {
        assert(t.drop_last() =~= s.drop_last().update(i, w));
        lemma_count_update(s.drop_last(), i, w, v);
    }
}

/// No entry of `s` equals `v`.
proof fn lemma_count_none(s: Seq<i64>, v: i64)
    requires
        forall|i: int| 0 <= i < s.len() ==> s[i] != v,
    ensures
        count_of(s, v) == 0,
    decreases s.len(),
{
    if s.len() > 0 {
        lemma_count_none(s.drop_last(), v);
    }
}

/// A sequence with more zeros than `c` has a zero entry.
proof fn lemma_count_zero_exists(s: Seq<i64>) -> (i: int)
    requires
        count_of(s, 0) > 0,
    ensures
        0 <= i < s.len(),
        s[i] == 0,
    decreases s.len(),
{
    if s.last() == 0 {
        s.len() - 1
    } else {
        lemma_count_zero_exists(s.drop_last())
    }
}

/// Counts of distinct values add up to at most the length.
proof fn lemma_count_total(s: Seq<i64>)
    ensures
        count_of(s, 0i64) + count_of(s, 1i64) + count_of(s, -1i64) <= s.len(),
        (forall|i: int| 0 <= i < s.len() ==> -1 <= #[trigger] s[i] <= 1) ==> count_of(s, 0)
            + count_of(s, 1i64) + count_of(s, -1i64) == s.len(),
    decreases s.len(),
{
    if s.len() > 0 {
        lemma_count_total(s.drop_last());
        if forall|i: int| 0 <= i < s.len() ==> -1 <= #[trigger] s[i] <= 1 {
            assert(forall|i: int|
                0 <= i < s.drop_last().len() ==> -1 <= #[trigger] s.drop_last()[i] <= 1) by {
                assert forall|i: int| 0 <= i < s.drop_last().len() implies -1 <= #[trigger] s.drop_last()[i] <= 1 by {
                    assert(s.drop_last()[i] == s[i]);
                }
            }
            assert(-1 <= s[s.len() - 1] <= 1);
        }
    }
}

/// `s` is a trinary polynomial of length `n` with exactly `d` coefficients
/// equal to 1, `d` equal to -1, and the rest 0.
pub open spec fn is_trinary(s: Seq<i64>, n: int, d: int) -> bool {
    &&& s.len() == n
    &&& forall|i: int| 0 <= i < n ==> -1 <= #[trigger] s[i] <= 1
    &&& count_of(s, 1) == d
    &&& count_of(s, -1i64) == d
}


/// The first index of `c` at or after `i` that holds 0 (the length when none does).
pub open spec fn first_zero_from(c: Seq<i64>, i: int) -> int
    decreases c.len() - i,
{
    if i < 0 || i >= c.len() {
        c.len() as int
    } else if c[i] == 0 {
        i
    } else {
        first_zero_from(c, i + 1)
    }
}

/// The generator state and the position that the search for a free position
/// of `c` ends with, from state `s` after `tries` draws: each draw `x` proposes
/// position `x mod n` and is taken when that position holds 0; after
/// `u64::MAX` draws the first free position is taken.
pub open spec fn free_draw(s: u64, c: Seq<i64>, n: int, tries: nat) -> (u64, int)
    decreases u64::MAX - tries,
{
    if tries >= u64::MAX {
        (s, first_zero_from(c, 0))
    } else {
        let x = xorshift_next(s);
        let idx = ((x as usize) as int) % n;
        if c[idx] == 0 {
            (x, idx)
        } else {
            free_draw(x, c, n, tries + 1)
        }
    }
}

/// Placing `k` copies of `val` at free positions of `c`, one search after the
/// other, from generator state `s`: the final state and coefficients.
pub open spec fn place_values(s: u64, c: Seq<i64>, n: int, val: i64, k: nat) -> (u64, Seq<i64>)
    decreases k,
{
    if k == 0 {
        (s, c)
    } else {
        let prev = place_values(s, c, n, val, (k - 1) as nat);
        let next = free_draw(prev.0, prev.1, n, 0);
        (next.0, prev.1.update(next.1, val))
    }
}

/// The trinary polynomial that `random_trinary` draws from generator state
/// `s`, with the state it leaves: `d` ones, then `d` minus ones, placed at
/// free positions of the zero polynomial of length `n`.
pub open spec fn trinary_draw(s: u64, n: int, d: nat) -> (u64, Seq<i64>) {
    let ones = place_values(s, Seq::new(n as nat, |i: int| 0i64), n, 1, d);
    place_values(ones.0, ones.1, n, -1i64, d)
}


/// The generator state before key-generation attempt `i`, from state `s`:
/// every attempt draws `f` and then `g` with `random_trinary`.
pub open spec fn attempt_state(s: u64, n: int, d: nat, i: nat) -> u64
    decreases i,
{
    if i == 0 {
        s
    } else {
        let prev = attempt_state(s, n, d, (i - 1) as nat);
        trinary_draw(trinary_draw(prev, n, d).0, n, d).0
    }
}

/// The polynomial `f` of key-generation attempt `i` from state `s`.
pub open spec fn attempt_f(s: u64, n: int, d: nat, i: nat) -> Seq<i64> {
    trinary_draw(attempt_state(s, n, d, i), n, d).1
}

/// The polynomial `g` of key-generation attempt `i` from state `s`.
pub open spec fn attempt_g(s: u64, n: int, d: nat, i: nat) -> Seq<i64> {
    trinary_draw(trinary_draw(attempt_state(s, n, d, i), n, d).0, n, d).1
}

/// `f` has an inverse in `Z_m[x]/(x^n + 1)`.
pub open spec fn invertible(f: Seq<i64>, n: int, m: int) -> bool {
    exists|g: Seq<i64>| #[trigger] inverts(f, g, n, m)
}

/// Key-generation attempt `j` from state `s` fails: its `f` is not invertible
/// both modulo `q` and modulo `p`.
pub open spec fn attempt_fails(s: u64, n: int, d: nat, p: int, q: int, j: nat) -> bool {
    !(invertible(attempt_f(s, n, d, j), n, q) && invertible(attempt_f(s, n, d, j), n, p))
}


/// NTRU cryptosystem instance.
#[derive(Debug, Clone)]
pub struct Ntru {
    /// Polynomial degree.
    pub n: usize,
    /// Small modulus (e.g. 3).
    pub p: i64,
    /// Large modulus.
    pub q: i64,
    /// Number of +1 coefficients (and of -1 coefficients) in random trinary polynomials.
    pub d: usize,
    /// The pseudo-random generator that drives key generation and encryption.
    pub rng: XorShift64,
}

/// NTRU key pair.
#[derive(Debug, Clone, PartialEq)]
pub struct NtruKeyPair {
    /// Public key polynomial `h`.
    pub h: Poly,
    /// Secret key polynomial `f`.
    pub f: Poly,
    /// Secret key `f_p = f^{-1} mod p`.
    pub f_p: Poly,
}

/// NTRU ciphertext.
#[derive(Debug, Clone, PartialEq)]
pub struct NtruCiphertext {
    /// Ciphertext polynomial `e`.
    pub e: Poly,
}

impl Ntru {
    /// The parameters admit the arithmetic of key generation, encryption and
    /// decryption: `1 < p < q`, `q²` fits in an `i64`, and `d <= n/3`.
    pub open spec fn params_ok(&self) -> bool {
        &&& 1 < self.p < self.q
        &&& (self.q as int) * (self.q as int) <= i64::MAX
        &&& self.d <= self.n / 3
        &&& 2 * self.n <= usize::MAX
    }

    /// The shape of a trinary polynomial is admissible: `d <= n/3`, and `2n`
    /// fits in a `usize`.
    pub open spec fn shape_ok(&self) -> bool {
        &&& self.d <= self.n / 3
        &&& 2 * self.n <= usize::MAX
    }

    /// The parameters admit encryption: an admissible shape and a positive
    /// `q` at most half the `i64` range.
    pub open spec fn encrypt_ok(&self) -> bool {
        &&& self.shape_ok()
        &&& 0 < self.q
        &&& 2 * self.q <= i64::MAX + 1
    }

    /// `self` and `other` have the same parameters.
    pub open spec fn same_params(&self, other: &Ntru) -> bool {
        &&& self.n == other.n
        &&& self.p == other.p
        &&& self.q == other.q
        &&& self.d == other.d
    }

    /// Create a new NTRU instance.
    pub fn new(n: usize, p: i64, q: i64, d: usize, seed: u64) -> (r: Ntru)
        requires
            p > 1,
            q > p,
            d <= n / 3,
        ensures
            r.n == n,
            r.p == p,
            r.q == q,
            r.d == d,
            r.rng@ == (if seed == 0 { 1 } else { seed }),
    {
        Ntru { n, p, q, d, rng: XorShift64::new(seed) }
    }

    /// Draws positions `next_u64() mod n` until one holds 0 in `coeffs`, and returns it.
    /// The draws are bounded by the generator's period (every position appears
    /// within it); past that bound the first free position is taken.
    fn draw_free_position(&mut self, coeffs: &Vec<i64>) -> (idx: usize)
        requires
            old(self).n == coeffs@.len(),
            count_of(coeffs@, 0) > 0,
        ensures
            final(self).same_params(old(self)),
            idx < coeffs@.len(),
            coeffs@[idx as int] == 0,
            final(self).rng@ == free_draw(old(self).rng@, coeffs@, old(self).n as int, 0).0,
            idx == free_draw(old(self).rng@, coeffs@, old(self).n as int, 0).1,
    {
        let mut tries: u64 = 0;
        loop
            invariant
                self.same_params(old(self)),
                self.n == coeffs@.len(),
                count_of(coeffs@, 0) > 0,
                free_draw(old(self).rng@, coeffs@, self.n as int, 0) == free_draw(
                    self.rng@,
                    coeffs@,
                    self.n as int,
                    tries as nat,
                ),
            decreases u64::MAX - tries,
        {
            if tries == u64::MAX {
                return first_zero(coeffs);
            }
            let x = self.rng.next_u64();
            let idx = (#[verifier::truncate] (x as usize)) % self.n;
            tries = tries + 1;
            if coeffs[idx] == 0 {
                return idx;
            }
        }
    }

    /// Generate a random trinary polynomial with `d` entries of +1 and `d` of -1.
    pub fn random_trinary(&mut self) -> (r: Poly)
        requires
            old(self).shape_ok(),
        ensures
            final(self).same_params(old(self)),
            is_trinary(r.coeffs@, old(self).n as int, old(self).d as int),
            r.coeffs@ == trinary_draw(old(self).rng@, old(self).n as int, old(self).d as nat).1,
            final(self).rng@ == trinary_draw(old(self).rng@, old(self).n as int, old(self).d as nat).0,
    {
        let n = self.n;
        let ghost s0 = self.rng@;
        let ghost ni = n as int;
        let ghost dn = self.d as nat;
        let mut coeffs = zeros(n);
        proof {
            lemma_count_none(coeffs@, 1);
            lemma_count_none(coeffs@, -1i64);
            lemma_count_total(coeffs@);
            assert(coeffs@ =~= Seq::new(n as nat, |i: int| 0i64));
        }
        let mut placed: usize = 0;
        while placed < self.d
            invariant
                self.same_params(old(self)),
                old(self).shape_ok(),
                n == self.n,
                s0 == old(self).rng@,
                ni == n,
                dn == self.d,
                (self.rng@, coeffs@) == place_values(s0, Seq::new(n as nat, |i: int| 0i64), ni, 1, placed as nat),
                coeffs@.len() == n,
                placed <= self.d,
                forall|i: int| 0 <= i < n ==> 0 <= #[trigger] coeffs@[i] <= 1,
                count_of(coeffs@, 1) == placed,
                count_of(coeffs@, -1i64) == 0,
                count_of(coeffs@, 0) + placed == n,
            decreases self.d - placed,
        {
            let ghost before = (self.rng@, coeffs@);
            let idx = self.draw_free_position(&coeffs);
            proof {
                assert((placed + 1) as nat - 1 == placed as nat);
            }
            proof {
                lemma_count_update(coeffs@, idx as int, 1, 1);
                lemma_count_update(coeffs@, idx as int, 1, -1i64);
                lemma_count_update(coeffs@, idx as int, 1, 0);
            }
            coeffs.set(idx, 1);
            placed = placed + 1;
        }
        let ghost ones = (self.rng@, coeffs@);
        let mut placed: usize = 0;
        while placed < self.d
            invariant
                self.same_params(old(self)),
                old(self).shape_ok(),
                n == self.n,
                ni == n,
                dn == self.d,
                ones == place_values(s0, Seq::new(n as nat, |i: int| 0i64), ni, 1, dn),
                (self.rng@, coeffs@) == place_values(ones.0, ones.1, ni, -1i64, placed as nat),
                coeffs@.len() == n,
                placed <= self.d,
                forall|i: int| 0 <= i < n ==> -1 <= #[trigger] coeffs@[i] <= 1,
                count_of(coeffs@, 1) == self.d,
                count_of(coeffs@, -1i64) == placed,
                count_of(coeffs@, 0) + placed + self.d == n,
            decreases self.d - placed,
        {
            let idx = self.draw_free_position(&coeffs);
            proof {
                assert((placed + 1) as nat - 1 == placed as nat);
                lemma_count_update(coeffs@, idx as int, -1i64, 1);
                lemma_count_update(coeffs@, idx as int, -1i64, -1i64);
                lemma_count_update(coeffs@, idx as int, -1i64, 0);
            }
            coeffs.set(idx, -1);
            placed = placed + 1;
        }
        Poly::new(coeffs)
    }
}

/// The first index holding 0.
fn first_zero(coeffs: &Vec<i64>) -> (idx: usize)
    requires
        count_of(coeffs@, 0) > 0,
    ensures
        idx < coeffs@.len(),
        coeffs@[idx as int] == 0,
        idx == first_zero_from(coeffs@, 0),
{
    let ghost w = lemma_count_zero_exists(coeffs@);
    let mut i: usize = 0;
    while i < coeffs.len()
        invariant
            0 <= w < coeffs@.len(),
            coeffs@[w] == 0,
            0 <= i <= w,
            forall|j: int| 0 <= j < i ==> coeffs@[j] != 0,
            first_zero_from(coeffs@, 0) == first_zero_from(coeffs@, i as int),
        decreases coeffs@.len() - i,
    {
        if coeffs[i] == 0 {
            return i;
        }
        i = i + 1;
    }
    i
}


/// `g` times `p`, reduced modulo `q`, coefficient by coefficient.
pub open spec fn scaled_seq(g: Seq<i64>, p: int, q: int) -> Seq<i64> {
    Seq::new(g.len(), |i: int| (((g[i] as int) * p) % q) as i64)
}

/// `inv` is the inverse of `f` in `Z_m[x]/(x^n + 1)`, with coefficients in `[0, m)`.
pub open spec fn is_ring_inverse(f: Seq<i64>, inv: Seq<i64>, n: int, m: int) -> bool {
    &&& inv.len() == n
    &&& forall|i: int| 0 <= i < n ==> 0 <= #[trigger] inv[i] < m
    &&& forall|k: int|
        0 <= k < n ==> #[trigger] nega_coeff(f, inv, n, k) % m == (if k == 0 {
            1int
        } else {
            0int
        }) % m
}

/// An NTRU key pair for parameters `(n, p, q, d)`: `f` is trinary, `f_p` is its
/// inverse modulo `p`, and `h = (p·g mod q)·f_q mod q` for a trinary `g` and the
/// inverse `f_q` of `f` modulo `q`.
pub open spec fn is_ntru_key(kp: NtruKeyPair, n: int, p: int, q: int, d: int) -> bool {
    &&& is_trinary(kp.f.coeffs@, n, d)
    &&& is_ring_inverse(kp.f.coeffs@, kp.f_p.coeffs@, n, p)
    &&& exists|g: Seq<i64>, fq: Seq<i64>| #[trigger] is_public_key_of(kp.h.coeffs@, kp.f.coeffs@, g, fq, n, p, q, d)
}

/// `h = (p·g mod q)·fq mod q` for a trinary `g` and the inverse `fq` of `f` modulo `q`.
pub open spec fn is_public_key_of(
    h: Seq<i64>,
    f: Seq<i64>,
    g: Seq<i64>,
    fq: Seq<i64>,
    n: int,
    p: int,
    q: int,
    d: int,
) -> bool {
    &&& is_trinary(g, n, d)
    &&& is_ring_inverse(f, fq, n, q)
    &&& h.len() == n
    &&& forall|k: int|
        0 <= k < n ==> #[trigger] h[k] == nega_coeff(scaled_seq(g, p, q), fq, n, k) % q
}

/// A coefficient of `a·e` reduced modulo `q` and centred into `(-q/2, q/2]`.
pub open spec fn center(c: int, q: int) -> int {
    if c > q / 2 {
        c - q
    } else {
        c
    }
}

/// The centred coefficients of `f·e mod q` that decryption multiplies by `f_p`.
pub open spec fn centered_product(f: Seq<i64>, e: Seq<i64>, n: int, q: int) -> Seq<i64> {
    Seq::new(n as nat, |i: int| center(nega_coeff(f, e, n, i) % q, q) as i64)
}

/// The message polynomial `[bit, 0, ..., 0]` of length `n`.
pub open spec fn bit_message(bit: u8, n: int) -> Seq<i64> {
    Seq::new(n as nat, |i: int| if i == 0 { bit as i64 } else { 0i64 })
}

/// Coefficient bounds that keep the arithmetic of `decrypt` within `i64`.
pub open spec fn decrypt_fits(ntru: &Ntru, kp: &NtruKeyPair, ct: &NtruCiphertext) -> bool {
    &&& mul_fits(kp.f.coeffs@, ct.e.coeffs@, ntru.q as int, ntru.n as int)
    &&& forall|j: int|
        0 <= j < ntru.n ==> (ntru.q as int / 2) * abs(#[trigger] coeff(kp.f_p.coeffs@, j)) <= i64::MAX
            - ntru.p
}

/// With `q² <= i64::MAX`, `q` is at most half the `i64` range.
proof fn lemma_square_bound(q: int)
    requires
        q >= 2,
        q * q <= i64::MAX,
    ensures
        2 * q <= i64::MAX + 1,
        (q - 1) * (q - 1) <= i64::MAX,
        (q - 1) * (q - 1) <= i64::MAX - q,
{
    assert(2 * q <= q * q) by (nonlinear_arith)
        requires
            q >= 2,
    ;
    assert((q - 1) * (q - 1) + q <= q * q) by (nonlinear_arith)
        requires
            q >= 2,
    ;
}

impl Ntru {
    /// Generate a key pair.
    ///
    /// Returns `Err(LatticeError::SamplingFailed)` if none of 100 candidate
    /// polynomials `f` is invertible both modulo `q` and modulo `p`.
    pub fn keygen(&mut self) -> (r: Result<NtruKeyPair, LatticeError>)
        requires
            old(self).params_ok(),
        ensures
            final(self).same_params(old(self)),
            match r {
                Ok(kp) => {
                    &&& is_ntru_key(
                        kp,
                        old(self).n as int,
                        old(self).p as int,
                        old(self).q as int,
                        old(self).d as int,
                    )
                    &&& exists|i: nat|
                        {
                            &&& i < 100
                            &&& #[trigger] attempt_f(old(self).rng@, old(self).n as int, old(self).d as nat, i)
                                == kp.f.coeffs@
                            &&& exists|fq: Seq<i64>|
                                is_public_key_of(
                                    kp.h.coeffs@,
                                    kp.f.coeffs@,
                                    attempt_g(old(self).rng@, old(self).n as int, old(self).d as nat, i),
                                    fq,
                                    old(self).n as int,
                                    old(self).p as int,
                                    old(self).q as int,
                                    old(self).d as int,
                                )
                            &&& exists|fq: Seq<i64>|
                                is_public_key_of(
                                    kp.h.coeffs@,
                                    kp.f.coeffs@,
                                    trinary_draw(
                                        trinary_draw(
                                            attempt_state(old(self).rng@, old(self).n as int, old(self).d as nat, i),
                                            old(self).n as int,
                                            old(self).d as nat,
                                        ).0,
                                        old(self).n as int,
                                        old(self).d as nat,
                                    ).1,
                                    fq,
                                    old(self).n as int,
                                    old(self).p as int,
                                    old(self).q as int,
                                    old(self).d as int,
                                )
                            &&& final(self).rng@ == attempt_state(
                                old(self).rng@,
                                old(self).n as int,
                                old(self).d as nat,
                                i + 1,
                            )
                            &&& inversion_exact(old(self).p as int) && inversion_exact(old(self).q as int) ==> forall|j: nat|
                                j < i ==> #[trigger] attempt_fails(
                                    old(self).rng@,
                                    old(self).n as int,
                                    old(self).d as nat,
                                    old(self).p as int,
                                    old(self).q as int,
                                    j,
                                )
                        }
                },
                Err(e) => {
                    &&& e == LatticeError::SamplingFailed
                    &&& final(self).rng@ == attempt_state(
                        old(self).rng@,
                        old(self).n as int,
                        old(self).d as nat,
                        100,
                    )
                    &&& inversion_exact(old(self).p as int) && inversion_exact(old(self).q as int) ==> forall|j: nat|
                        j < 100 ==> #[trigger] attempt_fails(
                            old(self).rng@,
                            old(self).n as int,
                            old(self).d as nat,
                            old(self).p as int,
                            old(self).q as int,
                            j,
                        )
                },
            },
    {
        let ghost n0 = self.n as int;
        let ghost d0 = self.d as int;
        let ghost p0 = self.p as int;
        let ghost q0 = self.q as int;
        let ghost s0 = self.rng@;
        let ghost dn = self.d as nat;
        proof {
            lemma_square_bound(q0);
            assert((p0 - 1) * (p0 - 1) <= i64::MAX) by (nonlinear_arith)
                requires
                    1 < p0 < q0,
                    (q0 - 1) * (q0 - 1) <= i64::MAX,
            ;
        }
        let mut attempt: usize = 0;
        while attempt < 100
            invariant
                self.params_ok(),
                self.same_params(old(self)),
                n0 == self.n,
                d0 == self.d,
                p0 == self.p,
                q0 == self.q,
                2 * q0 <= i64::MAX + 1,
                (q0 - 1) * (q0 - 1) <= i64::MAX - q0,
                (p0 - 1) * (p0 - 1) <= i64::MAX,
                s0 == old(self).rng@,
                dn == self.d,
                attempt <= 100,
                self.rng@ == attempt_state(s0, n0, dn, attempt as nat),
                inversion_exact(p0) && inversion_exact(q0) ==> forall|j: nat|
                    j < attempt ==> #[trigger] attempt_fails(s0, n0, dn, p0, q0, j),
            decreases 100 - attempt,
        {
            let f = self.random_trinary();
            let g = self.random_trinary();
            proof {
                assert((attempt + 1) as nat - 1 == attempt as nat);
                assert(self.rng@ == attempt_state(s0, n0, dn, (attempt + 1) as nat));
                assert(f.coeffs@ == attempt_f(s0, n0, dn, attempt as nat));
                assert(g.coeffs@ == attempt_g(s0, n0, dn, attempt as nat));
            }
            let fq_opt = invert_negacyclic(&f, self.q, self.n);
            if fq_opt.is_none() {
                proof {
                    if inversion_exact(q0) {
                        assert(!invertible(f.coeffs@, n0, q0));
                    }
                }
            }
            if let Some(f_q) = fq_opt {
                let fp_opt = invert_negacyclic(&f, self.p, self.n);
                if fp_opt.is_none() {
                    proof {
                        if inversion_exact(p0) {
                            assert(!invertible(f.coeffs@, n0, p0));
                        }
                    }
                }
                if let Some(f_p) = fp_opt {
                    proof {
                        assert forall|i: int| 0 <= i < g.coeffs@.len() implies {
                            &&& i64::MIN <= (g.coeffs@[i] as int) * p0 <= i64::MAX
                            &&& mod_pos_ok(#[trigger] ((g.coeffs@[i] as int) * p0), q0)
                        } by {
                            assert(-1 <= g.coeffs@[i] <= 1);
                            assert(-p0 <= (g.coeffs@[i] as int) * p0 <= p0) by (nonlinear_arith)
                                requires
                                    -1 <= g.coeffs@[i] <= 1,
                                    p0 > 0,
                            ;
                            lemma_mod_pos_ok_small_modulus((g.coeffs@[i] as int) * p0, q0);
                        }
                    }
                    let pg = g.scale(self.p, self.q);
                    proof {
                        assert forall|i: int| 0 <= i < n0 implies abs(#[trigger] coeff(pg.coeffs@, i)) <= q0 - 1 by {
                            lemma_mod_bound((g.coeffs@[i] as int) * p0, q0);
                        }
                        assert forall|j: int| 0 <= j < n0 implies abs(#[trigger] coeff(f_q.coeffs@, j)) <= q0 - 1 by {
                            assert(0 <= f_q.coeffs@[j] < q0);
                        }
                        lemma_mul_fits_bounded(pg.coeffs@, f_q.coeffs@, q0, n0, q0 - 1, q0 - 1);
                    }
                    let h = pg.mul_ring(&f_q, self.q, self.n);
                    let kp = NtruKeyPair { h, f, f_p };
                    proof {
                        assert(pg.coeffs@ =~= scaled_seq(g.coeffs@, p0, q0));
                        assert(is_public_key_of(
                            kp.h.coeffs@,
                            kp.f.coeffs@,
                            g.coeffs@,
                            f_q.coeffs@,
                            n0,
                            p0,
                            q0,
                            d0,
                        ));
                        assert(attempt_f(s0, n0, dn, attempt as nat) == kp.f.coeffs@);
                    }
                    return Ok(kp);
                }
            }
            proof {
                if inversion_exact(p0) && inversion_exact(q0) {
                    assert(attempt_fails(s0, n0, dn, p0, q0, attempt as nat));
                    assert forall|j: nat| j < attempt + 1 implies #[trigger] attempt_fails(s0, n0, dn, p0, q0, j) by {
                        if j < attempt {
                        }
                    }
                }
            }
            attempt = attempt + 1;
        }
        Err(LatticeError::SamplingFailed)
    }

    /// Encrypt a message polynomial (coefficients should be in `[-(p-1)/2, (p-1)/2]`).
    pub fn encrypt(&mut self, kp: &NtruKeyPair, message: &Poly) -> (ct: NtruCiphertext)
        requires
            old(self).encrypt_ok(),
            forall|i: int|
                0 <= i < old(self).n ==> abs(#[trigger] coeff(kp.h.coeffs@, i)) <= i64::MAX
                    - old(self).q,
            forall|i: int|
                0 <= i < old(self).n ==> i64::MIN <= #[trigger] coeff(message.coeffs@, i) <= i64::MAX
                    - old(self).q,
        ensures
            final(self).same_params(old(self)),
            final(self).rng@ == trinary_draw(old(self).rng@, old(self).n as int, old(self).d as nat).0,
            ct.e.coeffs@.len() == old(self).n,
            ({
                let r = trinary_draw(old(self).rng@, old(self).n as int, old(self).d as nat).1;
                &&& is_trinary(r, old(self).n as int, old(self).d as int)
                &&& forall|k: int|
                    0 <= k < old(self).n ==> #[trigger] ct.e.coeffs@[k] == (nega_coeff(
                        kp.h.coeffs@,
                        r,
                        old(self).n as int,
                        k,
                    ) + coeff(message.coeffs@, k)) % (old(self).q as int)
            }),
    {
        let ghost n0 = self.n as int;
        let ghost q0 = self.q as int;
        let r = self.random_trinary();
        proof {
            assert forall|j: int| 0 <= j < n0 implies abs(#[trigger] coeff(r.coeffs@, j)) <= 1 by {
                assert(-1 <= r.coeffs@[j] <= 1);
            }
            lemma_mul_fits_bounded(kp.h.coeffs@, r.coeffs@, q0, n0, i64::MAX - q0, 1);
        }
        let rh = kp.h.mul_ring(&r, self.q, self.n);
        proof {
            assert forall|i: int| 0 <= i < n0 implies {
                &&& i64::MIN <= coeff(rh.coeffs@, i) + coeff(message.coeffs@, i) <= i64::MAX
                &&& mod_pos_ok(#[trigger] (coeff(rh.coeffs@, i) + coeff(message.coeffs@, i)), q0)
            } by {
                lemma_mod_bound(nega_coeff(kp.h.coeffs@, r.coeffs@, n0, i), q0);
                lemma_mod_pos_ok_small_modulus(coeff(rh.coeffs@, i) + coeff(message.coeffs@, i), q0);
            }
        }
        let e = rh.add_mod(message, self.q, self.n);
        proof {
            assert forall|k: int| 0 <= k < n0 implies #[trigger] e.coeffs@[k] == (nega_coeff(
                kp.h.coeffs@,
                r.coeffs@,
                n0,
                k,
            ) + coeff(message.coeffs@, k)) % q0 by {
                lemma_mod_add_left(nega_coeff(kp.h.coeffs@, r.coeffs@, n0, k), coeff(message.coeffs@, k), q0);
            }
        }
        NtruCiphertext { e }
    }

    /// Decrypt a ciphertext: `m = f_p · centre(f · e mod q)  (mod p)`.
    pub fn decrypt(&self, kp: &NtruKeyPair, ct: &NtruCiphertext) -> (m: Poly)
        requires
            self.params_ok(),
            decrypt_fits(self, kp, ct),
        ensures
            m.coeffs@.len() == self.n,
            forall|k: int|
                0 <= k < self.n ==> #[trigger] m.coeffs@[k] == nega_coeff(
                    centered_product(kp.f.coeffs@, ct.e.coeffs@, self.n as int, self.q as int),
                    kp.f_p.coeffs@,
                    self.n as int,
                    k,
                ) % (self.p as int),
    {
        let ghost n0 = self.n as int;
        let ghost q0 = self.q as int;
        let ghost p0 = self.p as int;
        proof {
            lemma_square_bound(q0);
        }
        let a_mod_q = kp.f.mul_ring(&ct.e, self.q, self.n);
        let mut a_centered: Vec<i64> = Vec::new();
        let mut i: usize = 0;
        while i < self.n
            invariant
                n0 == self.n,
                q0 == self.q,
                self.params_ok(),
                2 * q0 <= i64::MAX + 1,
                a_mod_q.coeffs@.len() == n0,
                forall|k: int|
                    0 <= k < n0 ==> #[trigger] a_mod_q.coeffs@[k] == nega_coeff(
                        kp.f.coeffs@,
                        ct.e.coeffs@,
                        n0,
                        k,
                    ) % q0,
                0 <= i <= n0,
                a_centered@.len() == i,
                forall|k: int|
                    0 <= k < i ==> #[trigger] a_centered@[k] == centered_product(
                        kp.f.coeffs@,
                        ct.e.coeffs@,
                        n0,
                        q0,
                    )[k],
            decreases n0 - i,
        {
            proof {
                lemma_mod_pos_ok_small_modulus(a_mod_q.coeffs@[i as int] as int, q0);
                lemma_mod_bound(nega_coeff(kp.f.coeffs@, ct.e.coeffs@, n0, i as int), q0);
                lemma_mod_twice(nega_coeff(kp.f.coeffs@, ct.e.coeffs@, n0, i as int), q0);
            }
            let c = mod_pos(a_mod_q.coeffs[i], self.q);
            a_centered.push(if c > self.q / 2 { c - self.q } else { c });
            i = i + 1;
        }
        let a_poly = Poly::new(a_centered);
        proof {
            assert(a_poly.coeffs@ =~= centered_product(kp.f.coeffs@, ct.e.coeffs@, n0, q0));
            assert((p0 - 1) * (p0 - 1) <= i64::MAX) by (nonlinear_arith)
                requires
                    1 < p0 < q0,
                    (q0 - 1) * (q0 - 1) <= i64::MAX,
            ;
            assert(2 * p0 <= i64::MAX + 1) by (nonlinear_arith)
                requires
                    1 < p0 < q0,
                    2 * q0 <= i64::MAX + 1,
            ;
            assert forall|i: int| 0 <= i < n0 implies abs(#[trigger] coeff(a_poly.coeffs@, i)) <= q0 / 2 by {
                lemma_mod_bound(nega_coeff(kp.f.coeffs@, ct.e.coeffs@, n0, i), q0);
            }
            assert forall|i: int, j: int| 0 <= i < n0 && 0 <= j < n0 implies -(i64::MAX - p0) <= #[trigger] coeff(
                a_poly.coeffs@,
                i,
            ) * #[trigger] coeff(kp.f_p.coeffs@, j) <= i64::MAX - p0 by {
                let x = coeff(a_poly.coeffs@, i);
                let y = coeff(kp.f_p.coeffs@, j);
                assert(abs(x) <= q0 / 2);
                assert((q0 / 2) * abs(y) <= i64::MAX - p0);
                assert(-((q0 / 2) * abs(y)) <= x * y <= (q0 / 2) * abs(y)) by (nonlinear_arith)
                    requires
                        abs(x) <= q0 / 2,
                        abs(x) == (if x < 0 { -x } else { x }),
                        abs(y) == (if y < 0 { -y } else { y }),
                ;
            }
        }
        a_poly.mul_ring(&kp.f_p, self.p, self.n)
    }

    /// Encrypt a single bit as a constant polynomial.
    pub fn encrypt_bit(&mut self, kp: &NtruKeyPair, bit: u8) -> (ct: NtruCiphertext)
        requires
            old(self).encrypt_ok(),
            bit <= 1,
            old(self).n > 0,
            forall|i: int|
                0 <= i < old(self).n ==> abs(#[trigger] coeff(kp.h.coeffs@, i)) <= i64::MAX
                    - old(self).q,
        ensures
            final(self).same_params(old(self)),
            final(self).rng@ == trinary_draw(old(self).rng@, old(self).n as int, old(self).d as nat).0,
            ct.e.coeffs@.len() == old(self).n,
            ({
                let r = trinary_draw(old(self).rng@, old(self).n as int, old(self).d as nat).1;
                &&& is_trinary(r, old(self).n as int, old(self).d as int)
                &&& forall|k: int|
                    0 <= k < old(self).n ==> #[trigger] ct.e.coeffs@[k] == (nega_coeff(
                        kp.h.coeffs@,
                        r,
                        old(self).n as int,
                        k,
                    ) + coeff(bit_message(bit, old(self).n as int), k)) % (old(self).q as int)
            }),
            forall|k: int|
                0 <= k < old(self).n ==> #[trigger] ct.e.coeffs@[k] == (nega_coeff(
                    kp.h.coeffs@,
                    trinary_draw(old(self).rng@, old(self).n as int, old(self).d as nat).1,
                    old(self).n as int,
                    k,
                ) + (if k == 0 {
                    bit as int
                } else {
                    0int
                })) % (old(self).q as int),
    {
        let mut coeffs = zeros(self.n);
        coeffs.set(0, bit as i64);
        let msg = Poly::new(coeffs);
        proof {
            assert(msg.coeffs@ =~= bit_message(bit, self.n as int));
        }
        self.encrypt(kp, &msg)
    }

    /// Decrypt to a single bit: coefficient 0 of the decrypted polynomial, modulo `p`.
    pub fn decrypt_bit(&self, kp: &NtruKeyPair, ct: &NtruCiphertext) -> (b: u8)
        requires
            self.params_ok(),
            self.n > 0,
            decrypt_fits(self, kp, ct),
        ensures
            b == #[verifier::truncate] ((nega_coeff(
                centered_product(kp.f.coeffs@, ct.e.coeffs@, self.n as int, self.q as int),
                kp.f_p.coeffs@,
                self.n as int,
                0,
            ) % (self.p as int)) as u8),
    {
        let msg = self.decrypt(kp, ct);
        proof {
            lemma_square_bound(self.q as int);
            lemma_mod_pos_ok_small_modulus(msg.coeffs@[0] as int, self.p as int);
            lemma_mod_bound(
                nega_coeff(
                    centered_product(kp.f.coeffs@, ct.e.coeffs@, self.n as int, self.q as int),
                    kp.f_p.coeffs@,
                    self.n as int,
                    0,
                ),
                self.p as int,
            );
            lemma_mod_twice(
                nega_coeff(
                    centered_product(kp.f.coeffs@, ct.e.coeffs@, self.n as int, self.q as int),
                    kp.f_p.coeffs@,
                    self.n as int,
                    0,
                ),
                self.p as int,
            );
        }
        #[verifier::truncate] (mod_pos(msg.coeffs[0], self.p) as u8)
    }
}


/// The integer polynomial `p·(g·r) + f·m` that `f·e` equals modulo `q` for a
/// ciphertext `e` of `m` made with `r` under a key with secret `g`.
pub open spec fn ntru_noise(f: Seq<i64>, g: Seq<i64>, r: Seq<i64>, m: Seq<i64>, n: int, p: int) -> Seq<int> {
    padd(pscale(pmul(widen(g), widen(r), n), p, n), pmul(widen(f), widen(m), n), n)
}

/// A value in `(q/2 - q, q/2]` is recovered from its residue by centring.
proof fn lemma_center_recovers(t: int, q: int)
    requires
        q > 0,
        q / 2 - q < t <= q / 2,
    ensures
        center(t % q, q) == t,
{
    if t >= 0 {
        lemma_small_mod(t as nat, q as nat);
    } else {
        lemma_mod_add_multiple(t, 1, q);
        lemma_small_mod((t + q) as nat, q as nat);
    }
}

/// Decryption undoes encryption: a ciphertext `e = r·h + m (mod q)` under an
/// NTRU key `(h = (p·g)·f_q, f, f_p)` decrypts to `m mod p`, coefficient by
/// coefficient, whenever `p·(g·r) + f·m` has every coefficient in
/// `(q/2 - q, q/2]` (so that centring `f·e mod q` recovers it exactly).
pub proof fn lemma_ntru_decrypt_correct(
    h: Seq<i64>,
    f: Seq<i64>,
    fp: Seq<i64>,
    g: Seq<i64>,
    fq: Seq<i64>,
    r: Seq<i64>,
    m: Seq<i64>,
    e: Seq<i64>,
    out: Seq<i64>,
    n: int,
    p: int,
    q: int,
    d: int,
)
    requires
        n > 0,
        1 < p < q,
        q <= i64::MAX,
        is_public_key_of(h, f, g, fq, n, p, q, d),
        is_ring_inverse(f, fp, n, p),
        e.len() == n,
        forall|k: int| 0 <= k < n ==> #[trigger] e[k] == (nega_coeff(h, r, n, k) + coeff(m, k)) % q,
        forall|k: int| 0 <= k < n ==> q / 2 - q < #[trigger] ntru_noise(f, g, r, m, n, p)[k] <= q / 2,
        out.len() == n,
        forall|k: int|
            0 <= k < n ==> #[trigger] out[k] == nega_coeff(centered_product(f, e, n, q), fp, n, k) % p,
    ensures
        forall|k: int| 0 <= k < n ==> #[trigger] out[k] == coeff(m, k) % p,
{
    let wh = widen(h);
    let wf = widen(f);
    let wfp = widen(fp);
    let wg = widen(g);
    let wfq = widen(fq);
    let wr = widen(r);
    let wm = widen(m);
    let we = widen(e);
    let unit = unit_poly(n);
    let pg = pscale(wg, p, n);
    // S1–S3: h ≡ (p·g)·f_q (mod q)
    let sg = scaled_seq(g, p, q);
    assert forall|k: int| 0 <= k < n implies #[trigger] h[k] == ic(pmul(widen(sg), wfq, n), k) % q by {
        lemma_nega_coeff_is_prod(sg, fq, n, k);
    }
    lemma_residue_cong(h, pmul(widen(sg), wfq, n), n, q);
    assert forall|i: int| 0 <= i < n implies #[trigger] ic(widen(sg), i) % q == ic(pg, i) % q by {
        lemma_mod_bound((g[i] as int) * p, q);
        lemma_mod_twice((g[i] as int) * p, q);
        lemma_mul_is_commutative(g[i] as int, p);
    }
    lemma_pmul_cong_left(widen(sg), pg, wfq, n, q);
    let x = pmul(pg, wfq, n);
    lemma_cong_trans(wh, pmul(widen(sg), wfq, n), x, n, q);
    // S4–S5: e ≡ x·r + m (mod q)
    let e1 = padd(pmul(wh, wr, n), wm, n);
    assert forall|k: int| 0 <= k < n implies #[trigger] e[k] == ic(e1, k) % q by {
        lemma_nega_coeff_is_prod(h, r, n, k);
        assert(coeff(m, k) == ic(wm, k));
    }
    lemma_residue_cong(e, e1, n, q);
    lemma_pmul_cong_left(wh, x, wr, n, q);
    assert(cong(wm, wm, n, q));
    lemma_padd_cong(pmul(wh, wr, n), pmul(x, wr, n), wm, wm, n, q);
    let e2 = padd(pmul(x, wr, n), wm, n);
    lemma_cong_trans(we, e1, e2, n, q);
    // S6–S7: f·e ≡ (x·r)·f + m·f
    lemma_pmul_cong_right(wf, we, e2, n, q);
    lemma_pmul_comm(wf, e2, n);
    lemma_pmul_add_left(pmul(x, wr, n), wm, wf, n);
    // S8: (x·r)·f ≡ p·(g·r)
    lemma_pmul_assoc(x, wr, wf, n);
    lemma_pmul_assoc(pg, wfq, pmul(wr, wf, n), n);
    lemma_pmul_comm(wfq, pmul(wr, wf, n), n);
    lemma_pmul_assoc(wr, wf, wfq, n);
    assert forall|k: int| 0 <= k < n implies #[trigger] ic(pmul(wf, wfq, n), k) % q == ic(unit, k) % q by {
        lemma_nega_coeff_is_prod(f, fq, n, k);
    }
    lemma_pmul_cong_right(wr, pmul(wf, wfq, n), unit, n, q);
    lemma_pmul_unit(wr, n);
    lemma_pmul_cong_right(pg, pmul(wr, pmul(wf, wfq, n), n), trunc(wr, n), n, q);
    lemma_pmul_comm(pg, trunc(wr, n), n);
    lemma_pmul_trunc_left(wr, pg, n);
    lemma_pmul_comm(wr, pg, n);
    lemma_pmul_scale_left(wg, p, wr, n);
    let t = ntru_noise(f, g, r, m, n, p);
    assert(cong(pmul(pmul(x, wr, n), wf, n), pscale(pmul(wg, wr, n), p, n), n, q));
    // S9–S11: f·e ≡ t (mod q)
    lemma_pmul_comm(wm, wf, n);
    assert(cong(pmul(wf, wm, n), pmul(wf, wm, n), n, q));
    lemma_padd_cong(
        pmul(pmul(x, wr, n), wf, n),
        pscale(pmul(wg, wr, n), p, n),
        pmul(wm, wf, n),
        pmul(wf, wm, n),
        n,
        q,
    );
    lemma_cong_trans(pmul(wf, we, n), pmul(wf, e2, n), t, n, q);
    // S12: centring recovers t exactly
    let cp = centered_product(f, e, n, q);
    assert forall|k: int| 0 <= k < n implies #[trigger] widen(cp)[k] == t[k] by {
        lemma_nega_coeff_is_prod(f, e, n, k);
        assert(ic(pmul(wf, we, n), k) % q == ic(t, k) % q);
        lemma_center_recovers(t[k], q);
    }
    assert(widen(cp) =~= t);
    // S13: f_p·t ≡ m (mod p)
    let wgr = pmul(wg, wr, n);
    lemma_pmul_add_left(pscale(wgr, p, n), pmul(wf, wm, n), wfp, n);
    lemma_pmul_scale_left(wgr, p, wfp, n);
    lemma_pmul_comm(wf, wm, n);
    lemma_pmul_assoc(wm, wf, wfp, n);
    assert forall|k: int| 0 <= k < n implies #[trigger] ic(pmul(wf, wfp, n), k) % p == ic(unit, k) % p by {
        lemma_nega_coeff_is_prod(f, fp, n, k);
    }
    lemma_pmul_cong_right(wm, pmul(wf, wfp, n), unit, n, p);
    lemma_pmul_unit(wm, n);
    assert forall|k: int| 0 <= k < n implies #[trigger] out[k] == coeff(m, k) % p by {
        lemma_nega_coeff_is_prod(cp, fp, n, k);
        let y = ic(pmul(wgr, wfp, n), k);
        let z = ic(pmul(pmul(wf, wm, n), wfp, n), k);
        assert(ic(pmul(t, wfp, n), k) == p * y + z);
        assert(z % p == ic(trunc(wm, n), k) % p);
        lemma_mod_multiples_vanish(y, z, p);
        assert(ic(trunc(wm, n), k) == coeff(m, k));
    }
}

/// `|Σ f| <= Σ g` when `|f(j)| <= g(j)` at every index.
proof fn lemma_sum_abs_bound(f: spec_fn(int) -> int, g: spec_fn(int) -> int, lo: int, hi: int)
    requires
        forall|j: int| lo <= j < hi ==> abs(#[trigger] f(j)) <= g(j),
    ensures
        abs(sum_range(f, lo, hi)) <= sum_range(g, lo, hi),
    decreases hi - lo,
{
    if hi > lo {
        lemma_sum_abs_bound(f, g, lo, hi - 1);
        assert(abs(f(hi - 1)) <= g(hi - 1));
    }
}

/// The absolute values of the coefficients of `s`, by index.
pub open spec fn abs_coeffs(s: Seq<i64>) -> spec_fn(int) -> int {
    |j: int| abs(ic(widen(s), j))
}

/// The coefficients of a sequence with entries in `{-1, 0, 1}` add up, in
/// absolute value, to the number of nonzero entries.
proof fn lemma_trinary_abs_sum(s: Seq<i64>)
    requires
        forall|i: int| 0 <= i < s.len() ==> -1 <= #[trigger] s[i] <= 1,
    ensures
        sum_range(abs_coeffs(s), 0, s.len() as int) == count_of(s, 1) + count_of(s, -1i64),
    decreases s.len(),
{
    if s.len() > 0 {
        let t = s.drop_last();
        assert forall|i: int| 0 <= i < t.len() implies -1 <= #[trigger] t[i] <= 1 by {
            assert(t[i] == s[i]);
        }
        lemma_trinary_abs_sum(t);
        assert forall|j: int| 0 <= j < t.len() implies #[trigger] abs_coeffs(s)(j) == abs_coeffs(t)(j) by {
            assert(t[j] == s[j]);
        }
        lemma_sum_range_ext(abs_coeffs(s), abs_coeffs(t), 0, t.len() as int);
        assert(-1 <= s[s.len() - 1] <= 1);
    }
}

/// Every coefficient of `a·b` in `Z[x]/(x^n + 1)` is at most `bb·Σ|a_j|` in
/// size when every coefficient of `b` is at most `bb` in size.
proof fn lemma_prod_coeff_bound(a: Seq<i64>, b: Seq<i64>, n: int, k: int, bb: int)
    requires
        0 <= k < n,
        bb >= 0,
        forall|i: int| 0 <= i < n ==> abs(#[trigger] coeff(b, i)) <= bb,
    ensures
        abs(prod_coeff(widen(a), widen(b), n, k)) <= bb * sum_range(abs_coeffs(a), 0, n),
{
    let wa = widen(a);
    let wb = widen(b);
    let t = prod_terms(wa, wb, n, k);
    let gb = |j: int| bb * abs_coeffs(a)(j);
    assert forall|j: int| 0 <= j < n implies abs(#[trigger] t(j)) <= gb(j) by {
        let x = ic(wa, j);
        let y = shifted(wb, j, n, k);
        if k >= j {
            assert(ic(wb, k - j) == coeff(b, k - j));
        } else {
            assert(ic(wb, n + k - j) == coeff(b, n + k - j));
        }
        assert(abs(y) <= bb);
        assert(abs(x * y) <= bb * abs(x)) by (nonlinear_arith)
            requires
                abs(y) <= bb,
                abs(x) == (if x < 0 { -x } else { x }),
                abs(y) == (if y < 0 { -y } else { y }),
                abs(x * y) == (if x * y < 0 { -(x * y) } else { x * y }),
        ;
    }
    lemma_sum_abs_bound(t, gb, 0, n);
    lemma_sum_range_scale(abs_coeffs(a), gb, bb, 0, n);
}

/// The NTRU decryption noise `p·(g·r) + f·m` is bounded by the parameters:
/// for trinary `f`, `g`, `r` with `d` coefficients of each sign and a message
/// with coefficients at most `(p-1)/2` in size, every coefficient is at most
/// `2dp + d(p-1)` in size.
pub proof fn lemma_ntru_noise_bound(f: Seq<i64>, g: Seq<i64>, r: Seq<i64>, m: Seq<i64>, n: int, p: int, d: int)
    requires
        n > 0,
        p > 1,
        is_trinary(f, n, d),
        is_trinary(g, n, d),
        is_trinary(r, n, d),
        forall|i: int| 0 <= i < n ==> abs(#[trigger] coeff(m, i)) <= (p - 1) / 2,
    ensures
        forall|k: int|
            0 <= k < n ==> abs(#[trigger] ntru_noise(f, g, r, m, n, p)[k]) <= 2 * d * p + d * (p - 1),
{
    lemma_trinary_abs_sum(f);
    lemma_trinary_abs_sum(g);
    assert forall|k: int| 0 <= k < n implies abs(#[trigger] ntru_noise(f, g, r, m, n, p)[k]) <= 2 * d * p + d * (
    p - 1) by {
        assert forall|i: int| 0 <= i < n implies abs(#[trigger] coeff(r, i)) <= 1 by {
            assert(-1 <= r[i] <= 1);
        }
        lemma_prod_coeff_bound(g, r, n, k, 1);
        lemma_prod_coeff_bound(f, m, n, k, (p - 1) / 2);
        let x = prod_coeff(widen(g), widen(r), n, k);
        let y = prod_coeff(widen(f), widen(m), n, k);
        assert(ntru_noise(f, g, r, m, n, p)[k] == p * x + y);
        assert(abs(x) <= 2 * d);
        assert(abs(y) <= (p - 1) / 2 * (2 * d));
        assert(abs(p * x + y) <= 2 * d * p + d * (p - 1)) by (nonlinear_arith)
            requires
                p > 1,
                d >= 0,
                abs(x) <= 2 * d,
                abs(y) <= (p - 1) / 2 * (2 * d),
                abs(x) == (if x < 0 { -x } else { x }),
                abs(y) == (if y < 0 { -y } else { y }),
                abs(p * x + y) == (if p * x + y < 0 { -(p * x + y) } else { p * x + y }),
                2 * ((p - 1) / 2) <= p - 1,
        ;
    }
}

/// Decryption undoes encryption from the parameters alone: for a key
/// generated with parameters `(n, p, q, d)`, a trinary `r`, and a message with
/// coefficients at most `(p-1)/2` in size, decryption recovers the message
/// modulo `p` whenever `2·(2dp + d(p-1)) < q`.
pub proof fn lemma_ntru_decrypt_from_params(
    kp: NtruKeyPair,
    r: Seq<i64>,
    m: Seq<i64>,
    e: Seq<i64>,
    out: Seq<i64>,
    n: int,
    p: int,
    q: int,
    d: int,
)
    requires
        n > 0,
        1 < p < q,
        q <= i64::MAX,
        is_ntru_key(kp, n, p, q, d),
        is_trinary(r, n, d),
        forall|i: int| 0 <= i < n ==> abs(#[trigger] coeff(m, i)) <= (p - 1) / 2,
        2 * (2 * d * p + d * (p - 1)) < q,
        e.len() == n,
        forall|k: int| 0 <= k < n ==> #[trigger] e[k] == (nega_coeff(kp.h.coeffs@, r, n, k) + coeff(m, k)) % q,
        out.len() == n,
        forall|k: int|
            0 <= k < n ==> #[trigger] out[k] == nega_coeff(
                centered_product(kp.f.coeffs@, e, n, q),
                kp.f_p.coeffs@,
                n,
                k,
            ) % p,
    ensures
        forall|k: int| 0 <= k < n ==> #[trigger] out[k] == coeff(m, k) % p,
{
    let (g, fq) = choose|g: Seq<i64>, fq: Seq<i64>|
        #[trigger] is_public_key_of(kp.h.coeffs@, kp.f.coeffs@, g, fq, n, p, q, d);
    lemma_ntru_noise_bound(kp.f.coeffs@, g, r, m, n, p, d);
    assert forall|k: int| 0 <= k < n implies q / 2 - q < #[trigger] ntru_noise(kp.f.coeffs@, g, r, m, n, p)[k]
        <= q / 2 by {
        let t = ntru_noise(kp.f.coeffs@, g, r, m, n, p)[k];
        assert(abs(t) <= 2 * d * p + d * (p - 1));
    }
    lemma_ntru_decrypt_correct(kp.h.coeffs@, kp.f.coeffs@, kp.f_p.coeffs@, g, fq, r, m, e, out, n, p, q, d);
}

/// A bit survives NTRU encryption as a constant polynomial: a ciphertext
/// `e = h·r + [bit, 0, ..., 0] (mod q)` under a key with parameters
/// `(n, p, q, d)`, `p >= 3`, and a trinary `r`, decrypts to `bit` at
/// coefficient 0 and to 0 at every other coefficient whenever
/// `2·(2dp + d(p-1)) < q`.
pub proof fn lemma_ntru_bit_roundtrip(
    kp: NtruKeyPair,
    r: Seq<i64>,
    bit: u8,
    e: Seq<i64>,
    out: Seq<i64>,
    n: int,
    p: int,
    q: int,
    d: int,
)
    requires
        n > 0,
        2 < p < q,
        q <= i64::MAX,
        bit <= 1,
        is_ntru_key(kp, n, p, q, d),
        is_trinary(r, n, d),
        2 * (2 * d * p + d * (p - 1)) < q,
        e.len() == n,
        forall|k: int|
            0 <= k < n ==> #[trigger] e[k] == (nega_coeff(kp.h.coeffs@, r, n, k) + (if k == 0 {
                bit as int
            } else {
                0int
            })) % q,
        out.len() == n,
        forall|k: int|
            0 <= k < n ==> #[trigger] out[k] == nega_coeff(
                centered_product(kp.f.coeffs@, e, n, q),
                kp.f_p.coeffs@,
                n,
                k,
            ) % p,
    ensures
        out[0] == bit,
        forall|k: int| 1 <= k < n ==> #[trigger] out[k] == 0,
{
    let m = Seq::new(n as nat, |i: int| if i == 0 { bit as i64 } else { 0i64 });
    assert forall|i: int| 0 <= i < n implies abs(#[trigger] coeff(m, i)) <= (p - 1) / 2 by {
    }
    assert forall|k: int| 0 <= k < n implies #[trigger] e[k] == (nega_coeff(kp.h.coeffs@, r, n, k) + coeff(m, k))
        % q by {
    }
    lemma_ntru_decrypt_from_params(kp, r, m, e, out, n, p, q, d);
    assert(out[0] == coeff(m, 0) % p);
    lemma_small_mod(bit as nat, p as nat);
    assert forall|k: int| 1 <= k < n implies #[trigger] out[k] == 0 by {
        assert(out[k] == coeff(m, k) % p);
        lemma_small_mod(0, p as nat);
    }
}

/// Each key-generation attempt draws `f` from the attempt's generator state,
/// then `g` from the state that drawing `f` leaves (so `g` is a fresh draw,
/// not `f`), and the next attempt starts from the state that drawing `g`
/// leaves.
pub proof fn lemma_keygen_draw_order(s: u64, n: int, d: nat, i: nat)
    ensures
        attempt_f(s, n, d, i) == trinary_draw(attempt_state(s, n, d, i), n, d).1,
        attempt_g(s, n, d, i) == trinary_draw(trinary_draw(attempt_state(s, n, d, i), n, d).0, n, d).1,
        attempt_state(s, n, d, i + 1) == trinary_draw(trinary_draw(attempt_state(s, n, d, i), n, d).0, n, d).0,
{
    assert((i + 1) as nat - 1 == i);
}

/// The NTRU public key relation: for `h = (p·g mod q)·f_q mod q` with `f_q`
/// the inverse of `f` modulo `q`, `h·f ≡ p·g (mod q)` at every coefficient.
pub proof fn lemma_public_key_relation(
    h: Seq<i64>,
    f: Seq<i64>,
    g: Seq<i64>,
    fq: Seq<i64>,
    n: int,
    p: int,
    q: int,
    d: int,
)
    requires
        n > 0,
        0 < q <= i64::MAX,
        is_public_key_of(h, f, g, fq, n, p, q, d),
    ensures
        forall|k: int| 0 <= k < n ==> #[trigger] nega_coeff(h, f, n, k) % q == (p * coeff(g, k)) % q,
{
    let wh = widen(h);
    let wf = widen(f);
    let wfq = widen(fq);
    let ws = widen(scaled_seq(g, p, q));
    // h ≡ s·fq (mod q)
    assert forall|k: int| 0 <= k < n implies #[trigger] h[k] == ic(pmul(ws, wfq, n), k) % q by {
        lemma_nega_coeff_is_prod(scaled_seq(g, p, q), fq, n, k);
    }
    lemma_residue_cong(h, pmul(ws, wfq, n), n, q);
    // h·f ≡ (s·fq)·f = s·(fq·f) = s·(f·fq) ≡ s·1 = s (mod q)
    lemma_pmul_cong_left(wh, pmul(ws, wfq, n), wf, n, q);
    lemma_pmul_assoc(ws, wfq, wf, n);
    lemma_pmul_comm(wfq, wf, n);
    assert forall|k: int| 0 <= k < n implies #[trigger] ic(pmul(wf, wfq, n), k) % q == ic(unit_poly(n), k) % q by {
        lemma_nega_coeff_is_prod(f, fq, n, k);
    }
    lemma_pmul_cong_right(ws, pmul(wf, wfq, n), unit_poly(n), n, q);
    lemma_pmul_unit(ws, n);
    assert forall|k: int| 0 <= k < n implies #[trigger] nega_coeff(h, f, n, k) % q == (p * coeff(g, k)) % q by {
        lemma_nega_coeff_is_prod(h, f, n, k);
        assert(ic(pmul(wh, wf, n), k) % q == ic(pmul(pmul(ws, wfq, n), wf, n), k) % q);
        assert(ic(pmul(ws, pmul(wf, wfq, n), n), k) % q == ic(pmul(ws, unit_poly(n), n), k) % q);
        assert(ic(trunc(ws, n), k) == ic(ws, k));
        // s_k = (g_k·p) mod q
        assert(ic(ws, k) == ((g[k] as int) * p) % q);
        lemma_mod_twice((g[k] as int) * p, q);
        lemma_mul_is_commutative(g[k] as int, p);
    }
}

/// The message of a single-bit encryption is the constant polynomial
/// `[bit, 0, ..., 0]` of length `n`.
pub proof fn lemma_bit_message_constant(bit: u8, n: int)
    requires
        n > 0,
    ensures
        bit_message(bit, n).len() == n,
        bit_message(bit, n)[0] == bit as i64,
        forall|k: int| 1 <= k < n ==> #[trigger] bit_message(bit, n)[k] == 0,
{
}

/// The public key of a generated key pair: when attempt `i` from state `s`
/// succeeds, `h·f ≡ p·g (mod q)` for the polynomial `g` that attempt draws
/// after `f` (so `h` depends on that second draw, not only on `f`).
pub proof fn lemma_keygen_public_key(kp: NtruKeyPair, s: u64, n: int, p: int, q: int, d: nat, i: nat)
    requires
        n > 0,
        0 < q <= i64::MAX,
        exists|fq: Seq<i64>|
            is_public_key_of(
                kp.h.coeffs@,
                kp.f.coeffs@,
                trinary_draw(trinary_draw(attempt_state(s, n, d, i), n, d).0, n, d).1,
                fq,
                n,
                p,
                q,
                d as int,
            ),
    ensures
        forall|k: int|
            0 <= k < n ==> #[trigger] nega_coeff(kp.h.coeffs@, kp.f.coeffs@, n, k) % q == (p * coeff(
                trinary_draw(trinary_draw(attempt_state(s, n, d, i), n, d).0, n, d).1,
                k,
            )) % q,
{
    let g = trinary_draw(trinary_draw(attempt_state(s, n, d, i), n, d).0, n, d).1;
    let fq = choose|fq: Seq<i64>| is_public_key_of(kp.h.coeffs@, kp.f.coeffs@, g, fq, n, p, q, d as int);
    lemma_public_key_relation(kp.h.coeffs@, kp.f.coeffs@, g, fq, n, p, q, d as int);
}

} // verus!
