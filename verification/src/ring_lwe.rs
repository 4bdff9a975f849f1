//! Ring-LWE encryption in the ring `R_q = Z_q[x]/(x^n + 1)` (`n` a power of 2).
//!
//! Key generation publishes `(a, b = a·s + e)` for a uniform `a` and small
//! secret `s` and error `e`; encryption of a binary message `m` with small
//! `r, e1, e2` is `(c1, c2) = (a·r + e1, b·r + e2 + ⌊q/2⌋·m)`; decryption
//! rounds each coefficient of `c2 - c1·s` to the nearer of 0 and `q/2`.
//!
//! The small polynomials come from a discrete Gaussian sampler; the library
//! takes them as arguments (`keygen_with`, `encrypt_with`), and hands out the
//! seeds for the sampler from its own generator (`next_seed`).

use crate::ring_algebra::{
    ic,
    lemma_nega_coeff_is_prod,
    lemma_pmul_add_left,
    lemma_pmul_assoc,
    lemma_pmul_comm,
    lemma_pmul_cong_left,
    lemma_residue_cong,
    padd,
    pmul,
    prod_coeff,
    widen,
};
use crate::util::{
    abs,
    add_fits,
    coeff,
    draw_mod,
    lemma_mod_add_left,
    lemma_mod_pos_ok_small_modulus,
    mod_draws,
    mod_pos,
    mod_pos_ok,
    mul_fits,
    nega_coeff,
    scale_fits,
    xorshift_iter,
    xorshift_next,
    zeros,
    Poly,
    XorShift64,
};
use vstd::arithmetic::div_mod::*;
use vstd::arithmetic::mul::*;
use vstd::prelude::*;

verus! {

/// `n` is a power of two.
pub open spec fn is_power_of_two(n: nat) -> bool
    decreases n,
{
    if n == 1 {
        true
    } else if n < 2 || n % 2 != 0 {
        false
    } else {
        is_power_of_two(n / 2)
    }
}

/// Ring-LWE cryptosystem instance (the error width lives with the sampler that
/// produces the small polynomials).
#[derive(Debug, Clone)]
pub struct RingLWE {
    /// Ring dimension `n` (a power of 2).
    pub n: usize,
    /// Modulus `q`.
    pub q: i64,
    /// The pseudo-random generator for uniform polynomials and sampler seeds.
    pub rng: XorShift64,
}

/// Ring-LWE key pair.
#[derive(Debug, Clone, PartialEq)]
pub struct RingKeyPair {
    /// Secret key polynomial.
    pub secret: Poly,
    /// Public key polynomial a (sampled uniformly).
    pub a: Poly,
    /// Public key polynomial b = a*s + e.
    pub b: Poly,
}

/// Ring-LWE ciphertext: a pair of polynomials (c1, c2).
#[derive(Debug, Clone, PartialEq)]
pub struct RingCiphertext {
    /// First component polynomial.
    pub c1: Poly,
    /// Second component polynomial.
    pub c2: Poly,
}

/// The bit that a residue `c` in `[0, q)` decodes to: 1 when it is nearer to
/// `q/2` than to 0, i.e. strictly between `q/4` and `3q/4`.
pub open spec fn decode_bit(c: int, q: int) -> i64 {
    if q / 4 < c && c < 3 * q / 4 {
        1
    } else {
        0
    }
}

/// The message polynomial `[bit, 0, ..., 0]` of length `n`.
pub open spec fn bit_poly(bit: u8, n: int) -> Seq<i64> {
    Seq::new(n as nat, |i: int| if i == 0 { bit as i64 } else { 0i64 })
}

/// The arithmetic of `encrypt_with` stays within `i64`.
pub open spec fn encrypt_fits(
    q: int,
    n: int,
    kp: &RingKeyPair,
    message: Seq<i64>,
    r: Seq<i64>,
    e1: Seq<i64>,
    e2: Seq<i64>,
) -> bool {
    &&& 0 < q
    &&& 2 * q <= i64::MAX + 1
    &&& mul_fits(kp.a.coeffs@, r, q, n)
    &&& mul_fits(kp.b.coeffs@, r, q, n)
    &&& forall|i: int|
        0 <= i < n ==> -(i64::MAX - q) <= #[trigger] coeff(e1, i) <= i64::MAX - q
    &&& forall|i: int|
        0 <= i < n ==> -(i64::MAX - q) <= #[trigger] coeff(e2, i) <= i64::MAX - q
    &&& scale_fits(message, q / 2, q)
}

impl RingLWE {
    /// Create a new Ring-LWE instance. `n` must be a power of 2.
    pub fn new(n: usize, q: i64, seed: u64) -> (r: RingLWE)
        requires
            is_power_of_two(n as nat),
        ensures
            r.n == n,
            r.q == q,
            r.rng@ == (if seed == 0 { 1 } else { seed }),
    {
        RingLWE { n, q, rng: XorShift64::new(seed) }
    }

    /// Generate a random polynomial with coefficients in `[0, q)`.
    pub fn random_poly(&mut self) -> (p: Poly)
        requires
            old(self).q > 0,
        ensures
            final(self).n == old(self).n,
            final(self).q == old(self).q,
            final(self).rng@ == xorshift_iter(old(self).rng@, old(self).n as nat),
            p.coeffs@ == mod_draws(old(self).rng@, old(self).n as nat, old(self).q as int, 0),
    {
        let v = draw_mod(&mut self.rng, self.n, self.q, 0);
        Poly::new(v)
    }

    /// Draw a seed for the sampler of a small polynomial.
    pub fn next_seed(&mut self) -> (s: u64)
        ensures
            final(self).n == old(self).n,
            final(self).q == old(self).q,
            s == xorshift_next(old(self).rng@),
            final(self).rng@ == s,
    {
        self.rng.next_u64()
    }

    /// Build the key pair `(secret, a, b = a·secret + e mod q)`.
    pub fn keygen_with(&self, a: Poly, secret: Poly, e: Poly) -> (kp: RingKeyPair)
        requires
            0 < self.q,
            2 * self.q <= i64::MAX + 1,
            2 * self.n <= usize::MAX,
            mul_fits(a.coeffs@, secret.coeffs@, self.q as int, self.n as int),
            forall|i: int|
                0 <= i < self.n ==> -(i64::MAX - self.q) <= #[trigger] coeff(e.coeffs@, i) <= i64::MAX
                    - self.q,
        ensures
            kp.secret == secret,
            kp.a == a,
            kp.b.coeffs@.len() == self.n,
            forall|k: int|
                0 <= k < self.n ==> #[trigger] kp.b.coeffs@[k] == (nega_coeff(
                    a.coeffs@,
                    secret.coeffs@,
                    self.n as int,
                    k,
                ) + coeff(e.coeffs@, k)) % (self.q as int),
    {
        let q = self.q;
        let n = self.n;
        let as_prod = a.mul_ring(&secret, q, n);
        proof {
            add_after_product(as_prod.coeffs@, a.coeffs@, secret.coeffs@, e.coeffs@, q as int, n as int);
        }
        let b = as_prod.add_mod(&e, q, n);
        proof {
            assert forall|k: int| 0 <= k < n implies #[trigger] b.coeffs@[k] == (nega_coeff(
                a.coeffs@,
                secret.coeffs@,
                n as int,
                k,
            ) + coeff(e.coeffs@, k)) % (q as int) by {
                lemma_mod_add_left(nega_coeff(a.coeffs@, secret.coeffs@, n as int, k), coeff(e.coeffs@, k), q as int);
            }
        }
        RingKeyPair { secret, a, b }
    }

    /// Encrypt a message polynomial with the small polynomials `r`, `e1`, `e2`:
    /// `c1 = a·r + e1`, `c2 = b·r + e2 + ⌊q/2⌋·message`.
    pub fn encrypt_with(&self, kp: &RingKeyPair, message: &Poly, r: &Poly, e1: &Poly, e2: &Poly) -> (ct: RingCiphertext)
        requires
            encrypt_fits(self.q as int, self.n as int, kp, message.coeffs@, r.coeffs@, e1.coeffs@, e2.coeffs@),
            2 * self.n <= usize::MAX,
        ensures
            ct.c1.coeffs@.len() == self.n,
            ct.c2.coeffs@.len() == self.n,
            forall|k: int|
                0 <= k < self.n ==> #[trigger] ct.c1.coeffs@[k] == (nega_coeff(
                    kp.a.coeffs@,
                    r.coeffs@,
                    self.n as int,
                    k,
                ) + coeff(e1.coeffs@, k)) % (self.q as int),
            forall|k: int|
                0 <= k < self.n ==> #[trigger] ct.c2.coeffs@[k] == (nega_coeff(
                    kp.b.coeffs@,
                    r.coeffs@,
                    self.n as int,
                    k,
                ) + coeff(e2.coeffs@, k) + coeff(message.coeffs@, k) * (self.q as int / 2)) % (
                self.q as int),
    {
        let q = self.q;
        let n = self.n;
        let ghost qi = q as int;
        let ar = kp.a.mul_ring(r, q, n);
        proof {
            add_after_product(ar.coeffs@, kp.a.coeffs@, r.coeffs@, e1.coeffs@, qi, n as int);
        }
        let c1 = ar.add_mod(e1, q, n);
        let br0 = kp.b.mul_ring(r, q, n);
        proof {
            add_after_product(br0.coeffs@, kp.b.coeffs@, r.coeffs@, e2.coeffs@, qi, n as int);
        }
        let br = br0.add_mod(e2, q, n);
        let encoded = message.scale(q / 2, q);
        proof {
            assert forall|i: int| 0 <= i < n implies {
                &&& i64::MIN <= coeff(br.coeffs@, i) + coeff(encoded.coeffs@, i) <= i64::MAX
                &&& mod_pos_ok(#[trigger] (coeff(br.coeffs@, i) + coeff(encoded.coeffs@, i)), qi)
            } by {
                lemma_mod_bound(coeff(br0.coeffs@, i) + coeff(e2.coeffs@, i), qi);
                if i < encoded.coeffs@.len() {
                    lemma_mod_bound((message.coeffs@[i] as int) * (qi / 2), qi);
                }
                lemma_mod_pos_ok_small_modulus(coeff(br.coeffs@, i) + coeff(encoded.coeffs@, i), qi);
            }
        }
        let c2 = br.add_mod(&encoded, q, n);
        proof {
            assert forall|k: int| 0 <= k < n implies #[trigger] c1.coeffs@[k] == (nega_coeff(
                kp.a.coeffs@,
                r.coeffs@,
                n as int,
                k,
            ) + coeff(e1.coeffs@, k)) % qi by {
                lemma_mod_add_left(nega_coeff(kp.a.coeffs@, r.coeffs@, n as int, k), coeff(e1.coeffs@, k), qi);
            }
            assert forall|k: int| 0 <= k < n implies #[trigger] c2.coeffs@[k] == (nega_coeff(
                kp.b.coeffs@,
                r.coeffs@,
                n as int,
                k,
            ) + coeff(e2.coeffs@, k) + coeff(message.coeffs@, k) * (qi / 2)) % qi by {
                let x = nega_coeff(kp.b.coeffs@, r.coeffs@, n as int, k);
                let m = coeff(message.coeffs@, k) * (qi / 2);
                lemma_mod_add_left(x, coeff(e2.coeffs@, k), qi);
                lemma_mod_add_left(x + coeff(e2.coeffs@, k), m, qi);
                if k < message.coeffs@.len() {
                    lemma_add_mod_noop(x + coeff(e2.coeffs@, k), m, qi);
                    lemma_add_mod_noop((x + coeff(e2.coeffs@, k)) % qi, m, qi);
                    lemma_mod_twice(m, qi);
                    lemma_add_mod_noop(coeff(br.coeffs@, k), m, qi);
                } else {
                    lemma_mul_basics(qi / 2);
                }
            }
        }
        RingCiphertext { c1, c2 }
    }
}

/// After `p = a·b mod q`, adding `e` (bounded away from the ends of the range)
/// and reducing stays within `i64`.
proof fn add_after_product(p: Seq<i64>, a: Seq<i64>, b: Seq<i64>, e: Seq<i64>, q: int, n: int)
    requires
        0 < q,
        2 * q <= i64::MAX + 1,
        p.len() == n,
        forall|k: int| 0 <= k < n ==> #[trigger] p[k] == nega_coeff(a, b, n, k) % q,
        forall|i: int| 0 <= i < n ==> -(i64::MAX - q) <= #[trigger] coeff(e, i) <= i64::MAX - q,
    ensures
        add_fits(p, e, q, n),
{
    assert forall|i: int| 0 <= i < n implies {
        &&& i64::MIN <= coeff(p, i) + coeff(e, i) <= i64::MAX
        &&& mod_pos_ok(#[trigger] (coeff(p, i) + coeff(e, i)), q)
    } by {
        lemma_mod_bound(nega_coeff(a, b, n, i), q);
        assert(-(i64::MAX - q) <= coeff(e, i) <= i64::MAX - q);
        lemma_mod_pos_ok_small_modulus(coeff(p, i) + coeff(e, i), q);
    }
}


/// The arithmetic of `decrypt` stays within `i64`.
pub open spec fn decrypt_fits(q: int, n: int, kp: &RingKeyPair, ct: &RingCiphertext) -> bool {
    &&& 0 < q
    &&& 3 * q <= i64::MAX
    &&& mul_fits(ct.c1.coeffs@, kp.secret.coeffs@, q, n)
    &&& forall|i: int|
        0 <= i < n ==> -(i64::MAX - q) <= #[trigger] coeff(ct.c2.coeffs@, i) <= i64::MAX - q
}

/// The residue of coefficient `k` of `c2 - c1·s` modulo `q`.
pub open spec fn noisy_coeff(kp: &RingKeyPair, ct: &RingCiphertext, n: int, q: int, k: int) -> int {
    (coeff(ct.c2.coeffs@, k) - nega_coeff(ct.c1.coeffs@, kp.secret.coeffs@, n, k)) % q
}

impl RingLWE {
    /// Decrypt a ciphertext: each coefficient of `c2 - c1·s (mod q)` decodes to 1
    /// when it lies strictly between `q/4` and `3q/4`, and to 0 otherwise.
    pub fn decrypt(&self, kp: &RingKeyPair, ct: &RingCiphertext) -> (m: Poly)
        requires
            decrypt_fits(self.q as int, self.n as int, kp, ct),
            2 * self.n <= usize::MAX,
        ensures
            m.coeffs@.len() == self.n,
            forall|k: int|
                0 <= k < self.n ==> #[trigger] m.coeffs@[k] == decode_bit(
                    noisy_coeff(kp, ct, self.n as int, self.q as int, k),
                    self.q as int,
                ),
    {
        let q = self.q;
        let n = self.n;
        let ghost qi = q as int;
        let ghost ni = n as int;
        proof {
            assert(2 * qi <= i64::MAX + 1);
        }
        let c1s = ct.c1.mul_ring(&kp.secret, q, n);
        proof {
            assert forall|i: int| 0 <= i < c1s.coeffs@.len() implies {
                &&& i64::MIN <= (c1s.coeffs@[i] as int) * -1 <= i64::MAX
                &&& mod_pos_ok(#[trigger] ((c1s.coeffs@[i] as int) * -1), qi)
            } by {
                lemma_mod_bound(nega_coeff(ct.c1.coeffs@, kp.secret.coeffs@, ni, i), qi);
                lemma_mod_pos_ok_small_modulus((c1s.coeffs@[i] as int) * -1, qi);
            }
        }
        let neg = c1s.scale(-1, q);
        proof {
            assert forall|i: int| 0 <= i < n implies {
                &&& i64::MIN <= coeff(ct.c2.coeffs@, i) + coeff(neg.coeffs@, i) <= i64::MAX
                &&& mod_pos_ok(#[trigger] (coeff(ct.c2.coeffs@, i) + coeff(neg.coeffs@, i)), qi)
            } by {
                lemma_mod_bound((c1s.coeffs@[i] as int) * -1, qi);
                lemma_mod_pos_ok_small_modulus(coeff(ct.c2.coeffs@, i) + coeff(neg.coeffs@, i), qi);
            }
        }
        let v = ct.c2.add_mod(&neg, q, n);
        proof {
            assert forall|k: int| 0 <= k < ni implies #[trigger] v.coeffs@[k] == noisy_coeff(kp, ct, ni, qi, k) by {
                let c2 = coeff(ct.c2.coeffs@, k);
                let x = nega_coeff(ct.c1.coeffs@, kp.secret.coeffs@, ni, k);
                let t = (x % qi) * -1;
                let nk = coeff(neg.coeffs@, k);
                assert(nk == t % qi);
                lemma_add_mod_noop(c2, t, qi);
                lemma_add_mod_noop(c2, nk, qi);
                lemma_mod_twice(t, qi);
                lemma_mod_add_left(c2, t, qi);
                lemma_sub_mod_noop(c2, x, qi);
            }
        }
        let mut coeffs: Vec<i64> = Vec::new();
        let mut i: usize = 0;
        while i < v.coeffs.len()
            invariant
                qi == q,
                ni == n,
                0 < q,
                3 * q <= i64::MAX,
                v.coeffs@.len() == n,
                forall|k: int|
                    0 <= k < n ==> #[trigger] v.coeffs@[k] == noisy_coeff(kp, ct, ni, qi, k),
                0 <= i <= n,
                coeffs@.len() == i,
                forall|k: int|
                    0 <= k < i ==> #[trigger] coeffs@[k] == decode_bit(noisy_coeff(kp, ct, ni, qi, k), qi),
            decreases n - i,
        {
            proof {
                lemma_mod_pos_ok_small_modulus(v.coeffs@[i as int] as int, qi);
                lemma_mod_bound(coeff(ct.c2.coeffs@, i as int) - nega_coeff(ct.c1.coeffs@, kp.secret.coeffs@, ni, i as int), qi);
                lemma_mod_twice(coeff(ct.c2.coeffs@, i as int) - nega_coeff(ct.c1.coeffs@, kp.secret.coeffs@, ni, i as int), qi);
            }
            let c = mod_pos(v.coeffs[i], q);
            coeffs.push(if c > q / 4 && c < 3 * q / 4 { 1 } else { 0 });
            i = i + 1;
        }
        Poly::new(coeffs)
    }
}


impl RingLWE {
    /// Encrypt a single bit as the constant polynomial `[bit, 0, ..., 0]`.
    pub fn encrypt_bit_with(&self, kp: &RingKeyPair, bit: u8, r: &Poly, e1: &Poly, e2: &Poly) -> (ct: RingCiphertext)
        requires
            bit <= 1,
            self.n > 0,
            2 * self.n <= usize::MAX,
            encrypt_fits(self.q as int, self.n as int, kp, bit_poly(bit, self.n as int), r.coeffs@, e1.coeffs@, e2.coeffs@),
        ensures
            ct.c1.coeffs@.len() == self.n,
            ct.c2.coeffs@.len() == self.n,
            forall|k: int|
                0 <= k < self.n ==> #[trigger] ct.c1.coeffs@[k] == (nega_coeff(
                    kp.a.coeffs@,
                    r.coeffs@,
                    self.n as int,
                    k,
                ) + coeff(e1.coeffs@, k)) % (self.q as int),
            forall|k: int|
                0 <= k < self.n ==> #[trigger] ct.c2.coeffs@[k] == (nega_coeff(
                    kp.b.coeffs@,
                    r.coeffs@,
                    self.n as int,
                    k,
                ) + coeff(e2.coeffs@, k) + coeff(bit_poly(bit, self.n as int), k) * (self.q as int / 2))
                    % (self.q as int),
            forall|k: int|
                0 <= k < self.n ==> #[trigger] ct.c2.coeffs@[k] == (nega_coeff(
                    kp.b.coeffs@,
                    r.coeffs@,
                    self.n as int,
                    k,
                ) + coeff(e2.coeffs@, k) + (if k == 0 {
                    (bit as int) * (self.q as int / 2)
                } else {
                    0int
                })) % (self.q as int),
    {
        let mut coeffs = zeros(self.n);
        coeffs.set(0, bit as i64);
        let msg = Poly::new(coeffs);
        proof {
            assert(msg.coeffs@ =~= bit_poly(bit, self.n as int));
            lemma_mul_basics(self.q as int / 2);
        }
        self.encrypt_with(kp, &msg, r, e1, e2)
    }

    /// Decrypt to a single bit: coefficient 0 of the decrypted polynomial.
    pub fn decrypt_bit(&self, kp: &RingKeyPair, ct: &RingCiphertext) -> (b: u8)
        requires
            decrypt_fits(self.q as int, self.n as int, kp, ct),
            2 * self.n <= usize::MAX,
            self.n > 0,
        ensures
            b as i64 == decode_bit(noisy_coeff(kp, ct, self.n as int, self.q as int, 0), self.q as int),
    {
        let msg = self.decrypt(kp, ct);
        proof {
            lemma_mod_pos_ok_small_modulus(msg.coeffs@[0] as int, self.q as int);
            if self.q == 1 {
                assert(decode_bit(noisy_coeff(kp, ct, self.n as int, 1, 0), 1) == 0);
            } else {
                lemma_small_mod(msg.coeffs@[0] as nat, self.q as nat);
            }
        }
        mod_pos(msg.coeffs[0], self.q) as u8
    }
}


/// The decryption noise `e·r + e2 - e1·s` of a Ring-LWE ciphertext, as an
/// integer polynomial.
pub open spec fn rlwe_noise(e: Seq<i64>, r: Seq<i64>, e1: Seq<i64>, e2: Seq<i64>, s: Seq<i64>, n: int) -> Seq<int> {
    Seq::new(
        n as nat,
        |k: int| prod_coeff(widen(e), widen(r), n, k) + ic(widen(e2), k) - prod_coeff(widen(e1), widen(s), n, k),
    )
}

/// A bit encoded as `bit·⌊q/2⌋` plus small noise decodes back to the bit.
proof fn lemma_decode_small_noise(nu: int, bit: int, q: int)
    requires
        q > 0,
        bit == 0 || bit == 1,
        4 * abs(nu) + 4 < q,
    ensures
        decode_bit((nu + bit * (q / 2)) % q, q) == bit,
{
    let enc = bit * (q / 2);
    assert(enc == 0 || enc == q / 2);
    if nu + enc >= 0 {
        lemma_small_mod((nu + enc) as nat, q as nat);
    } else {
        crate::sums::lemma_mod_add_multiple(nu + enc, 1, q);
        lemma_small_mod((nu + enc + q) as nat, q as nat);
    }
}

/// Decryption undoes encryption: for a key `b = a·s + e (mod q)` and a
/// ciphertext `c1 = a·r + e1`, `c2 = b·r + e2 + ⌊q/2⌋·m (mod q)` of a binary
/// message `m`, each coefficient decrypts to `m` whenever the noise
/// `e·r + e2 - e1·s` satisfies `4·|noise| + 4 < q` there.
pub proof fn lemma_ring_lwe_decrypt_correct(
    kp: &RingKeyPair,
    ct: &RingCiphertext,
    e: Seq<i64>,
    r: Seq<i64>,
    e1: Seq<i64>,
    e2: Seq<i64>,
    m: Seq<i64>,
    n: int,
    q: int,
)
    requires
        0 < q,
        n > 0,
        kp.b.coeffs@.len() == n,
        forall|k: int|
            0 <= k < n ==> #[trigger] kp.b.coeffs@[k] == (nega_coeff(kp.a.coeffs@, kp.secret.coeffs@, n, k) + coeff(
                e,
                k,
            )) % q,
        ct.c1.coeffs@.len() == n,
        ct.c2.coeffs@.len() == n,
        forall|k: int|
            0 <= k < n ==> #[trigger] ct.c1.coeffs@[k] == (nega_coeff(kp.a.coeffs@, r, n, k) + coeff(e1, k)) % q,
        forall|k: int|
            0 <= k < n ==> #[trigger] ct.c2.coeffs@[k] == (nega_coeff(kp.b.coeffs@, r, n, k) + coeff(e2, k) + coeff(
                m,
                k,
            ) * (q / 2)) % q,
        forall|k: int| 0 <= k < n ==> #[trigger] coeff(m, k) == 0 || coeff(m, k) == 1,
        forall|k: int|
            0 <= k < n ==> 4 * abs(#[trigger] rlwe_noise(e, r, e1, e2, kp.secret.coeffs@, n)[k]) + 4 < q,
    ensures
        forall|k: int| 0 <= k < n ==> #[trigger] decode_bit(noisy_coeff(kp, ct, n, q, k), q) == coeff(m, k),
{
    let wa = widen(kp.a.coeffs@);
    let ws = widen(kp.secret.coeffs@);
    let wb = widen(kp.b.coeffs@);
    let wr = widen(r);
    let we = widen(e);
    let we1 = widen(e1);
    let wc1 = widen(ct.c1.coeffs@);
    // b ≡ a·s + e, c1 ≡ a·r + e1 (mod q)
    let b1 = padd(pmul(wa, ws, n), we, n);
    assert forall|k: int| 0 <= k < n implies #[trigger] kp.b.coeffs@[k] == ic(b1, k) % q by {
        lemma_nega_coeff_is_prod(kp.a.coeffs@, kp.secret.coeffs@, n, k);
    }
    lemma_residue_cong(kp.b.coeffs@, b1, n, q);
    let c11 = padd(pmul(wa, wr, n), we1, n);
    assert forall|k: int| 0 <= k < n implies #[trigger] ct.c1.coeffs@[k] == ic(c11, k) % q by {
        lemma_nega_coeff_is_prod(kp.a.coeffs@, r, n, k);
    }
    lemma_residue_cong(ct.c1.coeffs@, c11, n, q);
    lemma_pmul_cong_left(wb, b1, wr, n, q);
    lemma_pmul_add_left(pmul(wa, ws, n), we, wr, n);
    lemma_pmul_cong_left(wc1, c11, ws, n, q);
    lemma_pmul_add_left(pmul(wa, wr, n), we1, ws, n);
    // (a·s)·r = (a·r)·s
    lemma_pmul_assoc(wa, ws, wr, n);
    lemma_pmul_comm(ws, wr, n);
    lemma_pmul_assoc(wa, wr, ws, n);
    let big = pmul(pmul(wa, ws, n), wr, n);
    assert forall|k: int| 0 <= k < n implies #[trigger] decode_bit(noisy_coeff(kp, ct, n, q, k), q) == coeff(m, k) by {
        lemma_nega_coeff_is_prod(kp.b.coeffs@, r, n, k);
        lemma_nega_coeff_is_prod(ct.c1.coeffs@, kp.secret.coeffs@, n, k);
        let br = prod_coeff(wb, wr, n, k);
        let c1s = prod_coeff(wc1, ws, n, k);
        let er = prod_coeff(we, wr, n, k);
        let e1s = prod_coeff(we1, ws, n, k);
        let bigk = big[k];
        assert(br % q == (bigk + er) % q) by {
            assert(ic(pmul(wb, wr, n), k) % q == ic(pmul(b1, wr, n), k) % q);
        }
        assert(c1s % q == (bigk + e1s) % q) by {
            assert(ic(pmul(wc1, ws, n), k) % q == ic(pmul(c11, ws, n), k) % q);
        }
        let mk = coeff(m, k) * (q / 2);
        let c2 = ct.c2.coeffs@[k] as int;
        let nu = rlwe_noise(e, r, e1, e2, kp.secret.coeffs@, n)[k];
        assert(nu == er + coeff(e2, k) - e1s);
        // c2 - c1·s ≡ (big + er + e2 + mk) - (big + e1s) = nu + mk
        assert(c2 == (br + coeff(e2, k) + mk) % q);
        lemma_mod_add_left(br, coeff(e2, k) + mk, q);
        lemma_mod_add_left(bigk + er, coeff(e2, k) + mk, q);
        assert(c2 == (bigk + er + coeff(e2, k) + mk) % q);
        lemma_sub_mod_noop(c2, c1s, q);
        lemma_sub_mod_noop(bigk + er + coeff(e2, k) + mk, bigk + e1s, q);
        lemma_mod_twice(bigk + er + coeff(e2, k) + mk, q);
        assert((c2 - c1s) % q == (nu + mk) % q);
        lemma_decode_small_noise(nu, coeff(m, k), q);
    }
}

/// A bit survives Ring-LWE encryption as a constant polynomial: a ciphertext
/// with `c1 = a·r + e1` and `c2 = b·r + e2 + [bit·⌊q/2⌋, 0, ..., 0] (mod q)`
/// under a key `b = a·s + e (mod q)` decodes to `bit` at coefficient 0 and to
/// 0 at every other coefficient whenever the noise `e·r + e2 - e1·s`
/// satisfies `4·|noise| + 4 < q` at every coefficient.
pub proof fn lemma_ring_lwe_bit_roundtrip(
    kp: &RingKeyPair,
    ct: &RingCiphertext,
    e: Seq<i64>,
    r: Seq<i64>,
    e1: Seq<i64>,
    e2: Seq<i64>,
    bit: u8,
    n: int,
    q: int,
)
    requires
        0 < q,
        n > 0,
        bit <= 1,
        kp.b.coeffs@.len() == n,
        forall|k: int|
            0 <= k < n ==> #[trigger] kp.b.coeffs@[k] == (nega_coeff(kp.a.coeffs@, kp.secret.coeffs@, n, k) + coeff(
                e,
                k,
            )) % q,
        ct.c1.coeffs@.len() == n,
        ct.c2.coeffs@.len() == n,
        forall|k: int|
            0 <= k < n ==> #[trigger] ct.c1.coeffs@[k] == (nega_coeff(kp.a.coeffs@, r, n, k) + coeff(e1, k)) % q,
        forall|k: int|
            0 <= k < n ==> #[trigger] ct.c2.coeffs@[k] == (nega_coeff(kp.b.coeffs@, r, n, k) + coeff(e2, k) + (if k
                == 0 {
                (bit as int) * (q / 2)
            } else {
                0int
            })) % q,
        forall|k: int|
            0 <= k < n ==> 4 * abs(#[trigger] rlwe_noise(e, r, e1, e2, kp.secret.coeffs@, n)[k]) + 4 < q,
    ensures
        decode_bit(noisy_coeff(kp, ct, n, q, 0), q) == bit as i64,
        forall|k: int| 1 <= k < n ==> #[trigger] decode_bit(noisy_coeff(kp, ct, n, q, k), q) == 0,
{
    let m = Seq::new(n as nat, |i: int| if i == 0 { bit as i64 } else { 0i64 });
    assert forall|k: int| 0 <= k < n implies #[trigger] ct.c2.coeffs@[k] == (nega_coeff(kp.b.coeffs@, r, n, k) + coeff(
        e2,
        k,
    ) + coeff(m, k) * (q / 2)) % q by {
        lemma_mul_basics(q / 2);
    }
    assert forall|k: int| 0 <= k < n implies #[trigger] coeff(m, k) == 0 || coeff(m, k) == 1 by {
    }
    lemma_ring_lwe_decrypt_correct(kp, ct, e, r, e1, e2, m, n, q);
    assert(decode_bit(noisy_coeff(kp, ct, n, q, 0), q) == coeff(m, 0));
    assert forall|k: int| 1 <= k < n implies #[trigger] decode_bit(noisy_coeff(kp, ct, n, q, k), q) == 0 by {
        assert(decode_bit(noisy_coeff(kp, ct, n, q, k), q) == coeff(m, k));
    }
}

/// The message of a single-bit encryption is the constant polynomial
/// `[bit, 0, ..., 0]` of length `n`.
pub proof fn lemma_bit_poly_constant(bit: u8, n: int)
    requires
        n > 0,
    ensures
        bit_poly(bit, n).len() == n,
        bit_poly(bit, n)[0] == bit as i64,
        forall|k: int| 1 <= k < n ==> #[trigger] bit_poly(bit, n)[k] == 0,
{
}

} // verus!
