//! Learning With Errors (LWE) encryption and decryption.
//!
//! - Key generation: a secret `s` uniform in `[0, q)^n`.
//! - Public key: rows `a_j` uniform in `[0, q)^n` and `b_j = <a_j, s> + e_j mod q`.
//! - Encryption of a bit `m`: pick a row `j`, output `(a_j, b_j + e + m·⌊q/2⌋ mod q)`.
//! - Decryption: `v = b - <a, s> mod q` decodes to 1 when it lies strictly
//!   between `q/4` and `3q/4`.
//!
//! The errors `e_j` and `e` come from a discrete Gaussian sampler; the library
//! takes them as arguments and hands out the sampler seeds from its own generator.

use crate::sums::lemma_mod_add_multiple;
use crate::util::{
    abs,
    copy_vec,
    dot_fits,
    dot_spec,
    dot_sum,
    draw_mod,
    lemma_xorshift_iter_add,
    lemma_mod_add_left,
    lemma_mod_pos_ok_small_modulus,
    mod_draws,
    mod_pos,
    mod_pos_ok,
    xorshift_iter,
    xorshift_next,
    XorShift64,
};
use vstd::arithmetic::div_mod::*;
use vstd::arithmetic::mul::*;
use vstd::prelude::*;

verus! {

/// LWE cryptosystem instance parameterized by dimension and modulus (the
/// error width lives with the sampler that produces the errors).
#[derive(Debug, Clone)]
pub struct LWE {
    /// Dimension `n` of the secret vector.
    pub n: usize,
    /// Modulus `q`.
    pub q: i64,
    /// The pseudo-random generator for secrets, public rows and sampler seeds.
    pub rng: XorShift64,
}

/// LWE public key: a matrix A and vector b such that b = A·s + e (mod q).
#[derive(Debug, Clone, PartialEq)]
pub struct LWEPublicKey {
    /// The matrix `A` of size `m × n`.
    pub a: Vec<Vec<i64>>,
    /// The vector `b` of size `m`.
    pub b: Vec<i64>,
}

/// LWE ciphertext: a pair (a, b).
#[derive(Debug, Clone, PartialEq)]
pub struct LWECiphertext {
    /// The vector `a`.
    pub a: Vec<i64>,
    /// The scalar `b = <a, s> + e + encode(m) mod q`.
    pub b: i64,
}

/// The bit that a residue `v` in `[0, q)` decodes to: 1 when `q/4 < v < 3q/4`.
pub open spec fn lwe_decode(v: int, q: int) -> u8 {
    if q / 4 < v && v < 3 * q / 4 {
        1
    } else {
        0
    }
}

/// The encoding of the message bit `m`: `⌊q/2⌋` for 1, 0 for 0.
pub open spec fn lwe_encode(m: u8, q: int) -> int {
    if m == 1 {
        q / 2
    } else {
        0
    }
}

/// Row `j` of a public key drawn from a generator started at `s`: `n`
/// coefficients `next_mod(q)`, after the `j·n` draws of the earlier rows.
pub open spec fn public_row(s: u64, j: int, n: int, q: int) -> Seq<i64> {
    mod_draws(xorshift_iter(s, (j * n) as nat), n as nat, q, 0)
}

/// The arithmetic of public-key row `j` stays within `i64`: the dot product
/// of the drawn row `a` with the secret (every product and running sum), the
/// sum with the error, and its reduction modulo `q`.
pub open spec fn row_fits(a: Seq<i64>, secret: Seq<i64>, e: i64, q: int) -> bool {
    &&& dot_fits(a, secret)
    &&& i64::MIN <= dot_spec(a, secret) + e <= i64::MAX
    &&& mod_pos_ok(dot_spec(a, secret) + e, q)
}

/// The arithmetic of `decrypt` stays within `i64` for `ct`.
pub open spec fn lwe_decrypt_fits(q: int, secret: Seq<i64>, ct: &LWECiphertext) -> bool {
    &&& 0 < q
    &&& 3 * q <= i64::MAX
    &&& dot_fits(ct.a@, secret)
    &&& i64::MIN <= (ct.b as int) - dot_spec(ct.a@, secret) <= i64::MAX - q
}

impl LWE {
    /// Create a new LWE instance with the given dimension and modulus.
    pub fn new(n: usize, q: i64, seed: u64) -> (r: LWE)
        ensures
            r.n == n,
            r.q == q,
            r.rng@ == (if seed == 0 { 1 } else { seed }),
    {
        LWE { n, q, rng: XorShift64::new(seed) }
    }

    /// Generate a secret key: a vector of `n` random values in `[0, q)`.
    pub fn keygen(&mut self) -> (s: Vec<i64>)
        requires
            old(self).q > 0,
        ensures
            final(self).n == old(self).n,
            final(self).q == old(self).q,
            final(self).rng@ == xorshift_iter(old(self).rng@, old(self).n as nat),
            s@ == mod_draws(old(self).rng@, old(self).n as nat, old(self).q as int, 0),
    {
        draw_mod(&mut self.rng, self.n, self.q, 0)
    }

    /// Draw a seed for the error sampler.
    pub fn next_seed(&mut self) -> (s: u64)
        ensures
            final(self).n == old(self).n,
            final(self).q == old(self).q,
            s == xorshift_next(old(self).rng@),
            final(self).rng@ == s,
    {
        self.rng.next_u64()
    }

    /// Generate a public key with `m` samples and the given errors.
    ///
    /// Returns `(A, b)` where row `j` of `A` is drawn uniformly and
    /// `b_j = <A_j, s> + errors[j] mod q`.
    pub fn public_keygen_with_errors(&mut self, secret: &[i64], m: usize, errors: &[i64]) -> (pk: LWEPublicKey)
        requires
            0 < old(self).q,
            errors@.len() >= m,
            forall|j: int|
                0 <= j < m ==> row_fits(
                    #[trigger] public_row(old(self).rng@, j, old(self).n as int, old(self).q as int),
                    secret@,
                    errors@[j],
                    old(self).q as int,
                ),
        ensures
            final(self).n == old(self).n,
            final(self).q == old(self).q,
            final(self).rng@ == xorshift_iter(old(self).rng@, (m * old(self).n) as nat),
            pk.a@.len() == m,
            pk.b@.len() == m,
            forall|j: int|
                0 <= j < m ==> (#[trigger] pk.a@[j])@ == public_row(
                    old(self).rng@,
                    j,
                    old(self).n as int,
                    old(self).q as int,
                ),
            forall|j: int|
                0 <= j < m ==> #[trigger] pk.b@[j] == (dot_spec(pk.a@[j]@, secret@) + errors@[j])
                    % (old(self).q as int),
    {
        let ghost s0 = self.rng@;
        let ghost n = self.n as int;
        let ghost q = self.q as int;
        let mut a_matrix: Vec<Vec<i64>> = Vec::new();
        let mut b_vec: Vec<i64> = Vec::new();
        let mut j: usize = 0;
        while j < m
            invariant
                s0 == old(self).rng@,
                n == self.n,
                q == self.q,
                self.n == old(self).n,
                self.q == old(self).q,
                0 < self.q,
                errors@.len() >= m,
                forall|j: int|
                    0 <= j < m ==> row_fits(#[trigger] public_row(s0, j, n, q), secret@, errors@[j], q),
                0 <= j <= m,
                self.rng@ == xorshift_iter(s0, (j * n) as nat),
                a_matrix@.len() == j,
                b_vec@.len() == j,
                forall|k: int| 0 <= k < j ==> (#[trigger] a_matrix@[k])@ == public_row(s0, k, n, q),
                forall|k: int|
                    0 <= k < j ==> #[trigger] b_vec@[k] == (dot_spec(a_matrix@[k]@, secret@) + errors@[k]) % q,
            decreases m - j,
        {
            let ghost before = self.rng@;
            let a = draw_mod(&mut self.rng, self.n, self.q, 0);
            proof {
                lemma_xorshift_iter_add(s0, (j * n) as nat, n as nat);
                assert((j * n) as nat + n as nat == ((j + 1) * n) as nat) by (nonlinear_arith)
                    requires
                        n >= 0,
                        j >= 0,
                ;
                assert forall|i: int| 0 <= i < n implies 0 <= #[trigger] a@[i] < q by {
                    lemma_mod_bound(xorshift_iter(before, (i + 1) as nat) as int, q);
                }
                assert(a@ == public_row(s0, j as int, n, q));
                assert(row_fits(public_row(s0, j as int, n, q), secret@, errors@[j as int], q));
            }
            let dot = dot_sum(&a, secret);
            let e = errors[j];
            let b = mod_pos(dot + e, self.q);
            a_matrix.push(a);
            b_vec.push(b);
            j = j + 1;
        }
        LWEPublicKey { a: a_matrix, b: b_vec }
    }

    /// Pick the public key row for an encryption and draw the error sampler's
    /// seed: returns `(next_u64() mod rows, next_u64())`.
    pub fn encrypt_pick(&mut self, pk: &LWEPublicKey) -> (r: (usize, u64))
        requires
            pk.a@.len() > 0,
        ensures
            final(self).n == old(self).n,
            final(self).q == old(self).q,
            r.0 == xorshift_next(old(self).rng@) % (pk.a@.len() as u64),
            r.0 < pk.a@.len(),
            r.1 == xorshift_next(xorshift_next(old(self).rng@)),
            final(self).rng@ == r.1,
    {
        let m_size = pk.a.len();
        let x = self.rng.next_u64();
        let idx = (x % (m_size as u64)) as usize;
        let seed = self.rng.next_u64();
        (idx, seed)
    }

    /// Encrypt the bit `m` with public key row `idx` and fresh error `e`:
    /// `(a_idx, b_idx + e + m·⌊q/2⌋ mod q)`.
    pub fn encrypt_with_error(&self, pk: &LWEPublicKey, idx: usize, m: u8, e: i64) -> (ct: LWECiphertext)
        requires
            m <= 1,
            idx < pk.a@.len(),
            idx < pk.b@.len(),
            0 < self.q,
            i64::MIN <= pk.b@[idx as int] + e <= i64::MAX,
            i64::MIN <= pk.b@[idx as int] + e + lwe_encode(m, self.q as int) <= i64::MAX,
            mod_pos_ok(pk.b@[idx as int] + e + lwe_encode(m, self.q as int), self.q as int),
        ensures
            ct.a@ == pk.a@[idx as int]@,
            ct.b == (pk.b@[idx as int] + e + lwe_encode(m, self.q as int)) % (self.q as int),
    {
        let sum_a = copy_vec(&pk.a[idx]);
        let sum_b = pk.b[idx];
        let encode = if m == 1 { self.q / 2 } else { 0 };
        LWECiphertext { a: sum_a, b: mod_pos(sum_b + e + encode, self.q) }
    }

    /// Decrypt a ciphertext using the secret key: `v = b - <a, s> mod q`
    /// decodes to 1 when `q/4 < v < 3q/4`, and to 0 otherwise.
    pub fn decrypt(&self, secret: &[i64], ct: &LWECiphertext) -> (m: u8)
        requires
            lwe_decrypt_fits(self.q as int, secret@, ct),
        ensures
            m == lwe_decode(((ct.b as int) - dot_spec(ct.a@, secret@)) % (self.q as int), self.q as int),
    {
        let dot = dot_sum(&ct.a, secret);
        proof {
            lemma_mod_pos_ok_small_modulus(ct.b - dot, self.q as int);
        }
        let v = mod_pos(ct.b - dot, self.q);
        if v > self.q / 4 && v < 3 * self.q / 4 {
            1
        } else {
            0
        }
    }

    /// Decrypt a vector of ciphertexts.
    pub fn decrypt_bits(&self, secret: &[i64], cts: &[LWECiphertext]) -> (ms: Vec<u8>)
        requires
            forall|i: int| 0 <= i < cts@.len() ==> lwe_decrypt_fits(self.q as int, secret@, #[trigger] &cts@[i]),
        ensures
            ms@.len() == cts@.len(),
            forall|i: int|
                0 <= i < cts@.len() ==> #[trigger] ms@[i] == lwe_decode(
                    ((cts@[i].b as int) - dot_spec(cts@[i].a@, secret@)) % (self.q as int),
                    self.q as int,
                ),
    {
        let mut out: Vec<u8> = Vec::new();
        let mut i: usize = 0;
        while i < cts.len()
            invariant
                forall|i: int| 0 <= i < cts@.len() ==> lwe_decrypt_fits(self.q as int, secret@, #[trigger] &cts@[i]),
                0 <= i <= cts@.len(),
                out@.len() == i,
                forall|k: int|
                    0 <= k < i ==> #[trigger] out@[k] == lwe_decode(
                        ((cts@[k].b as int) - dot_spec(cts@[k].a@, secret@)) % (self.q as int),
                        self.q as int,
                    ),
            decreases cts@.len() - i,
        {
            assert(lwe_decrypt_fits(self.q as int, secret@, &cts@[i as int]));
            out.push(self.decrypt(secret, &cts[i]));
            i = i + 1;
        }
        out
    }
}


/// Decryption undoes encryption: a ciphertext made from public key row
/// `(row, b_row = <row, s> + e_key mod q)` with fresh error `e` decrypts to its
/// message bit whenever the total error is small, `4·|e_key + e| + 4 < q`.
pub proof fn lemma_lwe_decrypt_correct(
    q: int,
    row: Seq<i64>,
    secret: Seq<i64>,
    b_row: int,
    e_key: int,
    e: int,
    m: u8,
    ct_b: int,
)
    requires
        0 < q,
        m <= 1,
        b_row == (dot_spec(row, secret) + e_key) % q,
        ct_b == (b_row + e + lwe_encode(m, q)) % q,
        4 * abs(e_key + e) + 4 < q,
    ensures
        lwe_decode((ct_b - dot_spec(row, secret)) % q, q) == m,
{
    let d = dot_spec(row, secret);
    let nu = e_key + e;
    let enc = lwe_encode(m, q);
    // ct_b - d ≡ nu + enc (mod q)
    lemma_mod_add_left(d + e_key, e + enc, q);
    assert(ct_b == (d + e_key + e + enc) % q);
    lemma_mod_add_left(d + e_key + e + enc, -d, q);
    assert((ct_b - d) % q == (nu + enc) % q);
    if nu + enc >= 0 {
        lemma_small_mod((nu + enc) as nat, q as nat);
    } else {
        lemma_mod_add_multiple(nu + enc, 1, q);
        lemma_small_mod((nu + enc + q) as nat, q as nat);
    }
}

} // verus!
