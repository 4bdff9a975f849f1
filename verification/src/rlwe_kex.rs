//! Ring-LWE key exchange in the ring `R_q = Z_q[x]/(x^n + 1)`.
//!
//! Both parties derive the same shared secret from noisy ring products; a
//! reconciliation step rounds each coefficient to one key bit (its most
//! significant bit modulo `q`).
//!
//! Protocol: with a public uniform polynomial `a`, Alice publishes
//! `p_A = a·s_A + e_A`, Bob publishes `p_B = a·s_B + e_B`; Alice reconciles
//! `v_A = p_B·s_A` and Bob reconciles `v_B = p_A·s_B`.

use crate::ring_algebra::{
    ic,
    lemma_nega_coeff_is_prod,
    lemma_pmul_add_left,
    lemma_pmul_assoc,
    lemma_pmul_comm,
    lemma_pmul_cong_left,
    lemma_residue_cong,
    padd,
    pmul,
    prod_coeff,
    widen,
};
use crate::ring_lwe::is_power_of_two;
use crate::sums::lemma_mod_add_multiple;
use crate::util::{
    abs,
    coeff,
    draw_mod,
    lemma_mod_add_left,
    lemma_mod_pos_ok_small_modulus,
    mod_draws,
    mod_pos,
    mod_pos_ok,
    mul_fits,
    nega_coeff,
    xorshift_iter,
    xorshift_next,
    Poly,
    XorShift64,
};
use vstd::arithmetic::div_mod::*;
use vstd::arithmetic::mul::*;
use vstd::prelude::*;

verus! {

/// Alice's or Bob's public message.
#[derive(Debug, Clone, PartialEq)]
pub struct KexPublicMessage {
    /// The public polynomial `p = a·s + e`.
    pub p: Poly,
}

/// A reconciled shared secret (raw byte array).
#[derive(Debug, Clone, PartialEq)]
pub struct SharedSecret {
    /// Derived key bytes.
    pub key: Vec<u8>,
}

/// The key bit that coefficient `i` of `v` yields: 1 when its residue modulo
/// `q` is at least `q/2`.
pub open spec fn key_bit(v: Seq<i64>, q: int, i: int) -> u8 {
    if coeff(v, i) % q >= q / 2 {
        1
    } else {
        0
    }
}

/// Bit `t` (0 = most significant) of `byte`.
pub open spec fn bit_at(byte: u8, t: int) -> u8 {
    ((byte >> ((7 - t) as u8)) & 1u8) as u8
}

/// `bytes` packs the key bits of the first `n` coefficients of `v`, most
/// significant bit first, with zero padding in the last byte.
pub open spec fn packs_key_bits(bytes: Seq<u8>, v: Seq<i64>, q: int, n: int) -> bool {
    &&& bytes.len() == (n + 7) / 8
    &&& forall|i: int|
        0 <= i < 8 * bytes.len() ==> #[trigger] bit_at(bytes[i / 8], i % 8) == (if i < n {
            key_bit(v, q, i)
        } else {
            0u8
        })
}

/// Setting bit `j` of `byte` (with all bits from `j` on clear) to `b` leaves the
/// other bits alone.
proof fn lemma_set_bit(byte: u8, b: u8, j: u8, t: u8)
    requires
        b <= 1,
        j < 8,
        t < 8,
    ensures
        bit_at((byte | ((b << (7 - j) as u8) as u8)) as u8, t as int) == (if t == j {
            b | bit_at(byte, t as int)
        } else {
            bit_at(byte, t as int)
        }),
{
    let s = (7 - j) as u8;
    let u = (7 - t) as u8;
    assert((((byte | ((b << s) as u8)) as u8) >> u) & 1u8 == (if t == j {
        b | ((byte >> u) & 1u8)
    } else {
        (byte >> u) & 1u8
    })) by (bit_vector)
        requires
            b <= 1,
            j < 8,
            t < 8,
            s == 7 - j,
            u == 7 - t,
    ;
}

/// Every bit of zero is clear.
proof fn lemma_zero_bits(t: u8)
    requires
        t < 8,
    ensures
        bit_at(0u8, t as int) == 0,
{
    let u = (7 - t) as u8;
    assert((0u8 >> u) & 1u8 == 0u8) by (bit_vector);
}

/// Reconcile a noisy polynomial into exact shared key bytes: the most
/// significant bit (residue at least `q/2`) of each of the first `n`
/// coefficients, packed eight to a byte, most significant first.
pub fn reconcile(v: &Poly, q: i64, n: usize) -> (key: Vec<u8>)
    requires
        n <= v.coeffs@.len(),
        forall|i: int| 0 <= i < n ==> mod_pos_ok(#[trigger] coeff(v.coeffs@, i), q as int),
        n + 7 <= usize::MAX,
    ensures
        packs_key_bits(key@, v.coeffs@, q as int, n as int),
{
    let threshold = q / 2;
    let mut bits: Vec<u8> = Vec::new();
    let mut i: usize = 0;
    while i < n
        invariant
            n <= v.coeffs@.len(),
            forall|i: int| 0 <= i < n ==> mod_pos_ok(#[trigger] coeff(v.coeffs@, i), q as int),
            q > 0 ==> threshold == q / 2,
            0 <= i <= n,
            bits@.len() == i,
            forall|k: int| 0 <= k < i ==> #[trigger] bits@[k] == key_bit(v.coeffs@, q as int, k),
        decreases n - i,
    {
        assert(mod_pos_ok(coeff(v.coeffs@, i as int), q as int));
        let c = mod_pos(v.coeffs[i], q);
        bits.push(if c >= threshold { 1 } else { 0 });
        i = i + 1;
    }
    let mut bytes: Vec<u8> = Vec::new();
    let mut byte: u8 = 0;
    proof {
        assert forall|t: int| 0 <= t < 8 implies #[trigger] bit_at(byte, t) == 0u8 by {
            lemma_zero_bits(t as u8);
        }
    }
    let mut i: usize = 0;
    while i < n
        invariant
            bits@.len() == n,
            forall|k: int| 0 <= k < n ==> #[trigger] bits@[k] == key_bit(v.coeffs@, q as int, k),
            0 <= i <= n,
            bytes@.len() == i / 8,
            forall|k: int|
                0 <= k < 8 * bytes@.len() ==> #[trigger] bit_at(bytes@[k / 8], k % 8) == key_bit(
                    v.coeffs@,
                    q as int,
                    k,
                ),
            forall|t: int|
                0 <= t < 8 ==> #[trigger] bit_at(byte, t) == (if t < i % 8 {
                    key_bit(v.coeffs@, q as int, 8 * (i / 8) + t)
                } else {
                    0u8
                }),
        decreases n - i,
    {
        let b = bits[i];
        let j = (i % 8) as u8;
        let ghost old_byte = byte;
        byte = byte | (b << (7 - j));
        proof {
            assert forall|t: int| 0 <= t < 8 implies #[trigger] bit_at(byte, t) == (if t < j + 1 {
                key_bit(v.coeffs@, q as int, 8 * (i / 8) + t)
            } else {
                0u8
            }) by {
                lemma_set_bit(old_byte, b, j, t as u8);
                if t == j {
                    assert(bit_at(old_byte, t) == 0);
                    assert(b | 0u8 == b) by (bit_vector);
                }
            }
        }
        if i % 8 == 7 {
            let ghost old_bytes = bytes@;
            bytes.push(byte);
            byte = 0;
            proof {
                assert forall|k: int| 0 <= k < 8 * bytes@.len() implies #[trigger] bit_at(
                    bytes@[k / 8],
                    k % 8,
                ) == key_bit(v.coeffs@, q as int, k) by {
                    if k < 8 * old_bytes.len() {
                        assert(bytes@[k / 8] == old_bytes[k / 8]);
                    } else {
                        assert(k / 8 == i / 8);
                        assert(8 * (i / 8) + k % 8 == k);
                    }
                }
                assert forall|t: int| 0 <= t < 8 implies #[trigger] bit_at(byte, t) == 0u8 by {
                    lemma_zero_bits(t as u8);
                }
            }
        }
        i = i + 1;
    }
    if n % 8 != 0 {
        let ghost old_bytes = bytes@;
        bytes.push(byte);
        proof {
            assert forall|k: int| 0 <= k < 8 * bytes@.len() implies #[trigger] bit_at(bytes@[k / 8], k % 8)
                == (if k < n {
                key_bit(v.coeffs@, q as int, k)
            } else {
                0u8
            }) by {
                if k < 8 * old_bytes.len() {
                    assert(bytes@[k / 8] == old_bytes[k / 8]);
                } else {
                    assert(k / 8 == n / 8);
                    assert(8 * (n / 8) + k % 8 == k);
                }
            }
        }
    }
    bytes
}


/// A Ring-LWE key-exchange session (the error width lives with the sampler
/// that produces the small secrets and errors).
#[derive(Debug, Clone)]
pub struct RlweKex {
    /// Ring dimension (power of 2).
    pub n: usize,
    /// Modulus.
    pub q: i64,
    /// The pseudo-random generator for the public polynomial and sampler seeds.
    pub rng: XorShift64,
}

/// The residues modulo `q` of the coefficients of `a·b` in `Z[x]/(x^n + 1)`.
pub open spec fn ring_product(a: Seq<i64>, b: Seq<i64>, n: int, q: int) -> Seq<i64> {
    Seq::new(n as nat, |k: int| (nega_coeff(a, b, n, k) % q) as i64)
}

/// `p = a·s + e mod q`, coefficient by coefficient.
pub open spec fn is_public_message(p: Seq<i64>, a: Seq<i64>, s: Seq<i64>, e: Seq<i64>, n: int, q: int) -> bool {
    &&& p.len() == n
    &&& forall|k: int| 0 <= k < n ==> #[trigger] p[k] == (nega_coeff(a, s, n, k) + coeff(e, k)) % q
}

impl RlweKex {
    /// Create a new key-exchange instance; `n` must be a power of 2.
    pub fn new(n: usize, q: i64, seed: u64) -> (r: RlweKex)
        requires
            is_power_of_two(n as nat),
        ensures
            r.n == n,
            r.q == q,
            r.rng@ == (if seed == 0 { 1 } else { seed }),
    {
        RlweKex { n, q, rng: XorShift64::new(seed) }
    }

    /// Generate the public parameter `a` (shared by both parties): `n`
    /// uniform coefficients in `[0, q)`.
    pub fn public_a(&mut self) -> (a: Poly)
        requires
            old(self).q > 0,
        ensures
            final(self).n == old(self).n,
            final(self).q == old(self).q,
            final(self).rng@ == xorshift_iter(old(self).rng@, old(self).n as nat),
            a.coeffs@ == mod_draws(old(self).rng@, old(self).n as nat, old(self).q as int, 0),
    {
        let v = draw_mod(&mut self.rng, self.n, self.q, 0);
        Poly::new(v)
    }

    /// Draw a seed for the sampler of a small polynomial.
    pub fn next_seed(&mut self) -> (s: u64)
        ensures
            final(self).n == old(self).n,
            final(self).q == old(self).q,
            s == xorshift_next(old(self).rng@),
            final(self).rng@ == s,
    {
        self.rng.next_u64()
    }

    /// `p = a·s + e mod q` for the given small secret `s` and error `e`.
    fn public_message(&self, a: &Poly, s: &Poly, e: &Poly) -> (p: Poly)
        requires
            0 < self.q,
            2 * self.q <= i64::MAX + 1,
            2 * self.n <= usize::MAX,
            mul_fits(a.coeffs@, s.coeffs@, self.q as int, self.n as int),
            forall|i: int|
                0 <= i < self.n ==> -(i64::MAX - self.q) <= #[trigger] coeff(e.coeffs@, i) <= i64::MAX
                    - self.q,
        ensures
            is_public_message(p.coeffs@, a.coeffs@, s.coeffs@, e.coeffs@, self.n as int, self.q as int),
    {
        let q = self.q;
        let n = self.n;
        let prod = a.mul_ring(s, q, n);
        proof {
            assert forall|i: int| 0 <= i < n implies {
                &&& i64::MIN <= coeff(prod.coeffs@, i) + coeff(e.coeffs@, i) <= i64::MAX
                &&& mod_pos_ok(#[trigger] (coeff(prod.coeffs@, i) + coeff(e.coeffs@, i)), q as int)
            } by {
                lemma_mod_bound(nega_coeff(a.coeffs@, s.coeffs@, n as int, i), q as int);
                assert(-(i64::MAX - q) <= coeff(e.coeffs@, i) <= i64::MAX - q);
                lemma_mod_pos_ok_small_modulus(coeff(prod.coeffs@, i) + coeff(e.coeffs@, i), q as int);
            }
        }
        let p = prod.add_mod(e, q, n);
        proof {
            assert forall|k: int| 0 <= k < n implies #[trigger] p.coeffs@[k] == (nega_coeff(
                a.coeffs@,
                s.coeffs@,
                n as int,
                k,
            ) + coeff(e.coeffs@, k)) % (q as int) by {
                lemma_mod_add_left(nega_coeff(a.coeffs@, s.coeffs@, n as int, k), coeff(e.coeffs@, k), q as int);
            }
        }
        p
    }

    /// Reconciled key bits of `p·s mod q`.
    fn shared_key(&self, p: &Poly, s: &Poly) -> (key: Vec<u8>)
        requires
            0 < self.q,
            2 * self.q <= i64::MAX + 1,
            2 * self.n <= usize::MAX,
            mul_fits(p.coeffs@, s.coeffs@, self.q as int, self.n as int),
        ensures
            packs_key_bits(
                key@,
                ring_product(p.coeffs@, s.coeffs@, self.n as int, self.q as int),
                self.q as int,
                self.n as int,
            ),
    {
        let v = p.mul_ring(s, self.q, self.n);
        proof {
            assert(v.coeffs@ =~= ring_product(p.coeffs@, s.coeffs@, self.n as int, self.q as int));
            assert forall|i: int| 0 <= i < self.n implies mod_pos_ok(#[trigger] coeff(v.coeffs@, i), self.q as int) by {
                lemma_mod_pos_ok_small_modulus(coeff(v.coeffs@, i), self.q as int);
            }
        }
        reconcile(&v, self.q, self.n)
    }

    /// Alice's key pair and public message for her small secret `s` and error
    /// `e`: returns `(s, p_A = a·s + e)`.
    pub fn alice_init_with(&self, a: &Poly, s: Poly, e: &Poly) -> (r: (Poly, KexPublicMessage))
        requires
            0 < self.q,
            2 * self.q <= i64::MAX + 1,
            2 * self.n <= usize::MAX,
            mul_fits(a.coeffs@, s.coeffs@, self.q as int, self.n as int),
            forall|i: int|
                0 <= i < self.n ==> -(i64::MAX - self.q) <= #[trigger] coeff(e.coeffs@, i) <= i64::MAX
                    - self.q,
        ensures
            r.0 == s,
            is_public_message(r.1.p.coeffs@, a.coeffs@, s.coeffs@, e.coeffs@, self.n as int, self.q as int),
    {
        let p = self.public_message(a, &s, e);
        (s, KexPublicMessage { p })
    }

    /// Bob's key pair, public message and shared secret for his small secret
    /// `s` and error `e`: returns `(s, p_B = a·s + e, reconcile(p_A·s))`.
    pub fn bob_respond_with(&self, a: &Poly, alice_pub: &KexPublicMessage, s: Poly, e: &Poly) -> (r: (
        Poly,
        KexPublicMessage,
        SharedSecret,
    ))
        requires
            0 < self.q,
            2 * self.q <= i64::MAX + 1,
            2 * self.n <= usize::MAX,
            mul_fits(a.coeffs@, s.coeffs@, self.q as int, self.n as int),
            mul_fits(alice_pub.p.coeffs@, s.coeffs@, self.q as int, self.n as int),
            forall|i: int|
                0 <= i < self.n ==> -(i64::MAX - self.q) <= #[trigger] coeff(e.coeffs@, i) <= i64::MAX
                    - self.q,
        ensures
            r.0 == s,
            is_public_message(r.1.p.coeffs@, a.coeffs@, s.coeffs@, e.coeffs@, self.n as int, self.q as int),
            packs_key_bits(
                r.2.key@,
                ring_product(alice_pub.p.coeffs@, s.coeffs@, self.n as int, self.q as int),
                self.q as int,
                self.n as int,
            ),
    {
        let p = self.public_message(a, &s, e);
        let key = self.shared_key(&alice_pub.p, &s);
        (s, KexPublicMessage { p }, SharedSecret { key })
    }

    /// Alice derives the shared secret from Bob's public message: `reconcile(p_B·s_A)`.
    pub fn alice_derive(&self, alice_secret: &Poly, bob_pub: &KexPublicMessage) -> (k: SharedSecret)
        requires
            0 < self.q,
            2 * self.q <= i64::MAX + 1,
            2 * self.n <= usize::MAX,
            mul_fits(bob_pub.p.coeffs@, alice_secret.coeffs@, self.q as int, self.n as int),
        ensures
            packs_key_bits(
                k.key@,
                ring_product(bob_pub.p.coeffs@, alice_secret.coeffs@, self.n as int, self.q as int),
                self.q as int,
                self.n as int,
            ),
    {
        SharedSecret { key: self.shared_key(&bob_pub.p, alice_secret) }
    }
}

/// Two bytes with the same eight bits are equal.
proof fn lemma_bits_determine_byte(x: u8, y: u8)
    requires
        forall|t: int| 0 <= t < 8 ==> #[trigger] bit_at(x, t) == bit_at(y, t),
    ensures
        x == y,
{
    assert(bit_at(x, 0) == bit_at(y, 0));
    assert(bit_at(x, 1) == bit_at(y, 1));
    assert(bit_at(x, 2) == bit_at(y, 2));
    assert(bit_at(x, 3) == bit_at(y, 3));
    assert(bit_at(x, 4) == bit_at(y, 4));
    assert(bit_at(x, 5) == bit_at(y, 5));
    assert(bit_at(x, 6) == bit_at(y, 6));
    assert(bit_at(x, 7) == bit_at(y, 7));
    assert(x == y) by (bit_vector)
        requires
            (x >> 7u8) & 1u8 == (y >> 7u8) & 1u8,
            (x >> 6u8) & 1u8 == (y >> 6u8) & 1u8,
            (x >> 5u8) & 1u8 == (y >> 5u8) & 1u8,
            (x >> 4u8) & 1u8 == (y >> 4u8) & 1u8,
            (x >> 3u8) & 1u8 == (y >> 3u8) & 1u8,
            (x >> 2u8) & 1u8 == (y >> 2u8) & 1u8,
            (x >> 1u8) & 1u8 == (y >> 1u8) & 1u8,
            (x >> 0u8) & 1u8 == (y >> 0u8) & 1u8,
    ;
}

/// Packed key bytes are determined by the key bits they pack.
proof fn lemma_packed_keys_equal(b1: Seq<u8>, b2: Seq<u8>, v1: Seq<i64>, v2: Seq<i64>, q: int, n: int)
    requires
        n >= 0,
        packs_key_bits(b1, v1, q, n),
        packs_key_bits(b2, v2, q, n),
        forall|i: int| 0 <= i < n ==> #[trigger] key_bit(v1, q, i) == key_bit(v2, q, i),
    ensures
        b1 == b2,
{
    assert forall|j: int| 0 <= j < b1.len() implies #[trigger] b1[j] == b2[j] by {
        assert forall|t: int| 0 <= t < 8 implies #[trigger] bit_at(b1[j], t) == bit_at(b2[j], t) by {
            let i = 8 * j + t;
            assert(i / 8 == j && i % 8 == t);
            assert(bit_at(b1[i / 8], i % 8) == bit_at(b2[i / 8], i % 8));
        }
        lemma_bits_determine_byte(b1[j], b2[j]);
    }
    assert(b1 =~= b2);
}

/// Reconciliation is deterministic: the packed key bytes are determined by
/// the coefficients they are reconciled from.
pub proof fn lemma_reconcile_deterministic(k1: Seq<u8>, k2: Seq<u8>, v: Seq<i64>, q: int, n: int)
    requires
        n >= 0,
        packs_key_bits(k1, v, q, n),
        packs_key_bits(k2, v, q, n),
    ensures
        k1 == k2,
{
    lemma_packed_keys_equal(k1, k2, v, v, q, n);
}

/// `u ≡ x` and `v ≡ y (mod q)` give `u - v ≡ x - y (mod q)`.
proof fn lemma_mod_diff(u: int, x: int, v: int, y: int, q: int)
    requires
        q > 0,
        u % q == x % q,
        v % q == y % q,
    ensures
        (u - v - (x - y)) % q == 0,
{
    lemma_fundamental_div_mod(u, q);
    lemma_fundamental_div_mod(x, q);
    lemma_fundamental_div_mod(v, q);
    lemma_fundamental_div_mod(y, q);
    let k = u / q - x / q - v / q + y / q;
    assert(u - v - (x - y) == q * k) by (nonlinear_arith)
        requires
            u == q * (u / q) + u % q,
            x == q * (x / q) + x % q,
            v == q * (v / q) + v % q,
            y == q * (y / q) + y % q,
            u % q == x % q,
            v % q == y % q,
            k == u / q - x / q - v / q + y / q,
    ;
    lemma_mod_multiples_basic(k, q);
    lemma_mul_is_commutative(q, k);
}

/// The noise terms cancel: for public messages `p_A = a·s_A + e_A` and
/// `p_B = a·s_B + e_B (mod q)`, Alice's product `p_B·s_A` and Bob's product
/// `p_A·s_B` differ, modulo `q`, by exactly `e_B·s_A - e_A·s_B` at every
/// coefficient.
pub proof fn lemma_kex_noise_cancels(
    a: Seq<i64>,
    s_a: Seq<i64>,
    e_a: Seq<i64>,
    s_b: Seq<i64>,
    e_b: Seq<i64>,
    p_a: Seq<i64>,
    p_b: Seq<i64>,
    n: int,
    q: int,
)
    requires
        n >= 0,
        q > 0,
        is_public_message(p_a, a, s_a, e_a, n, q),
        is_public_message(p_b, a, s_b, e_b, n, q),
    ensures
        forall|k: int|
            0 <= k < n ==> (#[trigger] nega_coeff(p_b, s_a, n, k) - nega_coeff(p_a, s_b, n, k) - (nega_coeff(
                e_b,
                s_a,
                n,
                k,
            ) - nega_coeff(e_a, s_b, n, k))) % q == 0,
{
    let wa = widen(a);
    let wsa = widen(s_a);
    let wsb = widen(s_b);
    let wea = widen(e_a);
    let web = widen(e_b);
    let ta = padd(pmul(wa, wsa, n), wea, n);
    let tb = padd(pmul(wa, wsb, n), web, n);
    assert forall|k: int| 0 <= k < n implies #[trigger] p_a[k] == ic(ta, k) % q by {
        lemma_nega_coeff_is_prod(a, s_a, n, k);
    }
    assert forall|k: int| 0 <= k < n implies #[trigger] p_b[k] == ic(tb, k) % q by {
        lemma_nega_coeff_is_prod(a, s_b, n, k);
    }
    lemma_residue_cong(p_a, ta, n, q);
    lemma_residue_cong(p_b, tb, n, q);
    lemma_pmul_cong_left(widen(p_b), tb, wsa, n, q);
    lemma_pmul_cong_left(widen(p_a), ta, wsb, n, q);
    lemma_pmul_add_left(pmul(wa, wsb, n), web, wsa, n);
    lemma_pmul_add_left(pmul(wa, wsa, n), wea, wsb, n);
    // (a·s_B)·s_A = (a·s_A)·s_B
    lemma_pmul_assoc(wa, wsb, wsa, n);
    lemma_pmul_comm(wsb, wsa, n);
    lemma_pmul_assoc(wa, wsa, wsb, n);
    let big = pmul(pmul(wa, wsa, n), wsb, n);
    assert forall|k: int| 0 <= k < n implies (#[trigger] nega_coeff(p_b, s_a, n, k) - nega_coeff(p_a, s_b, n, k) - (
    nega_coeff(e_b, s_a, n, k) - nega_coeff(e_a, s_b, n, k))) % q == 0 by {
        lemma_nega_coeff_is_prod(p_b, s_a, n, k);
        lemma_nega_coeff_is_prod(p_a, s_b, n, k);
        lemma_nega_coeff_is_prod(e_b, s_a, n, k);
        lemma_nega_coeff_is_prod(e_a, s_b, n, k);
        let u = prod_coeff(widen(p_b), wsa, n, k);
        let v = prod_coeff(widen(p_a), wsb, n, k);
        let db = prod_coeff(web, wsa, n, k);
        let da = prod_coeff(wea, wsb, n, k);
        assert(u % q == (big[k] + db) % q) by {
            assert(ic(pmul(widen(p_b), wsa, n), k) % q == ic(pmul(tb, wsa, n), k) % q);
        }
        assert(v % q == (big[k] + da) % q) by {
            assert(ic(pmul(widen(p_a), wsb, n), k) % q == ic(pmul(ta, wsb, n), k) % q);
        }
        lemma_mod_diff(u, big[k] + db, v, big[k] + da, q);
    }
}

/// Reconciliation keeps coefficient `v` (a residue modulo `q`) on its side of
/// the boundaries 0 and `q/2` when it moves by `d`.
pub open spec fn clear_of_boundaries(v: int, d: int, q: int) -> bool {
    ||| abs(d) <= v && v + abs(d) < q / 2
    ||| q / 2 + abs(d) <= v && v + abs(d) < q
}

/// Both parties derive the same key: when every coefficient of Alice's product
/// `p_B·s_A mod q` lies farther from the reconciliation boundaries 0 and `q/2`
/// than the noise `e_B·s_A - e_A·s_B` there, the key bytes that Alice and Bob
/// reconcile are equal.
pub proof fn lemma_kex_keys_agree(
    a: Seq<i64>,
    s_a: Seq<i64>,
    e_a: Seq<i64>,
    s_b: Seq<i64>,
    e_b: Seq<i64>,
    p_a: Seq<i64>,
    p_b: Seq<i64>,
    key_a: Seq<u8>,
    key_b: Seq<u8>,
    n: int,
    q: int,
)
    requires
        n >= 0,
        0 < q <= i64::MAX,
        is_public_message(p_a, a, s_a, e_a, n, q),
        is_public_message(p_b, a, s_b, e_b, n, q),
        packs_key_bits(key_a, ring_product(p_b, s_a, n, q), q, n),
        packs_key_bits(key_b, ring_product(p_a, s_b, n, q), q, n),
        forall|k: int|
            0 <= k < n ==> clear_of_boundaries(
                #[trigger] nega_coeff(p_b, s_a, n, k) % q,
                nega_coeff(e_b, s_a, n, k) - nega_coeff(e_a, s_b, n, k),
                q,
            ),
    ensures
        key_a == key_b,
{
    lemma_kex_noise_cancels(a, s_a, e_a, s_b, e_b, p_a, p_b, n, q);
    let va = ring_product(p_b, s_a, n, q);
    let vb = ring_product(p_a, s_b, n, q);
    assert forall|i: int| 0 <= i < n implies #[trigger] key_bit(va, q, i) == key_bit(vb, q, i) by {
        let u = nega_coeff(p_b, s_a, n, i);
        let v = nega_coeff(p_a, s_b, n, i);
        let d = nega_coeff(e_b, s_a, n, i) - nega_coeff(e_a, s_b, n, i);
        assert((u - v - d) % q == 0);
        lemma_mod_bound(u, q);
        lemma_mod_bound(v, q);
        assert(coeff(va, i) == u % q);
        assert(coeff(vb, i) == v % q);
        lemma_mod_twice(u, q);
        lemma_mod_twice(v, q);
        // v ≡ u - d ≡ (u mod q) - d, which lies in [0, q)
        let w = u % q - d;
        let m = u - v - d;
        lemma_fundamental_div_mod(u, q);
        lemma_fundamental_div_mod(m, q);
        let k = u / q - m / q;
        assert(v == w + q * k) by (nonlinear_arith)
            requires
                u == q * (u / q) + u % q,
                m == q * (m / q) + m % q,
                m % q == 0,
                m == u - v - d,
                w == u % q - d,
                k == u / q - m / q,
        ;
        lemma_mod_add_multiple(w, k, q);
        lemma_small_mod(w as nat, q as nat);
        assert(v % q == w);
    }
    lemma_packed_keys_equal(key_a, key_b, va, vb, q, n);
}

} // verus!
