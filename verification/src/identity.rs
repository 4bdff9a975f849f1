//! Agent identity verification via lattice-based cryptography.
//!
//! Uses Ring-LWE primitives to build a lightweight identity layer: each agent
//! holds an [`AgentKeyPair`] and can issue and verify [`IdentityToken`]s that
//! authenticate the agent without revealing the private key.

use crate::sums::lemma_mod_add_multiple;
use crate::util::{
    abs,
    coeff,
    copy_vec,
    draw_mod,
    lemma_mod_add_left,
    lemma_mod_pos_ok_small_modulus,
    lemma_mul_fits_bounded,
    lemma_xorshift_iter_add,
    mod_draws,
    mod_pos,
    mod_pos_ok,
    mul_fits,
    nega_coeff,
    seed_state,
    xorshift_iter,
    xorshift_next,
    Poly,
    XorShift64,
};
use vstd::arithmetic::div_mod::*;
use vstd::prelude::*;
use vstd::utf8::encode_utf8;

verus! {

/// The eight little-endian bytes of `x`.
pub open spec fn le_bytes(x: u64) -> Seq<u8> {
    Seq::new(8, |i: int| ((x >> ((8 * i) as u64)) & 0xffu64) as u8)
}

/// The `u64` whose little-endian bytes are `b[start..start + 8]`.
pub open spec fn le_value(b: Seq<u8>, start: int) -> u64 {
    ((b[start] as u64) | ((b[start + 1] as u64) << 8u64) | ((b[start + 2] as u64) << 16u64) | ((
    b[start + 3] as u64) << 24u64) | ((b[start + 4] as u64) << 32u64) | ((b[start + 5] as u64)
        << 40u64) | ((b[start + 6] as u64) << 48u64) | ((b[start + 7] as u64) << 56u64)) as u64
}

/// Reading back the little-endian bytes of `x` gives `x`.
pub proof fn lemma_le_roundtrip(x: u64)
    ensures
        le_value(le_bytes(x), 0) == x,
{
    let b = le_bytes(x);
    let b0 = b[0];
    let b1 = b[1];
    let b2 = b[2];
    let b3 = b[3];
    let b4 = b[4];
    let b5 = b[5];
    let b6 = b[6];
    let b7 = b[7];
    assert(((b0 as u64) | ((b1 as u64) << 8u64) | ((b2 as u64) << 16u64) | ((b3 as u64) << 24u64)
        | ((b4 as u64) << 32u64) | ((b5 as u64) << 40u64) | ((b6 as u64) << 48u64) | ((b7 as u64)
        << 56u64)) == x) by (bit_vector)
        requires
            b0 == ((x >> 0u64) & 0xffu64) as u8,
            b1 == ((x >> 8u64) & 0xffu64) as u8,
            b2 == ((x >> 16u64) & 0xffu64) as u8,
            b3 == ((x >> 24u64) & 0xffu64) as u8,
            b4 == ((x >> 32u64) & 0xffu64) as u8,
            b5 == ((x >> 40u64) & 0xffu64) as u8,
            b6 == ((x >> 48u64) & 0xffu64) as u8,
            b7 == ((x >> 56u64) & 0xffu64) as u8,
    ;
}

/// Appends the little-endian bytes of `x` to `buf`.
pub fn push_le_u64(buf: &mut Vec<u8>, x: u64)
    ensures
        final(buf)@ == old(buf)@ + le_bytes(x),
{
    let ghost start = buf@;
    let mut i: u64 = 0;
    while i < 8
        invariant
            0 <= i <= 8,
            buf@.len() == start.len() + i,
            buf@.subrange(0, start.len() as int) == start,
            forall|j: int| 0 <= j < i ==> #[trigger] buf@[start.len() + j] == le_bytes(x)[j],
        decreases 8 - i,
    {
        buf.push(#[verifier::truncate] (((x >> (8 * i)) & 0xff) as u8));
        i = i + 1;
    }
    assert forall|j: int| 0 <= j < buf@.len() implies #[trigger] buf@[j] == (start + le_bytes(x))[j] by {
        if j < start.len() {
            assert(buf@.subrange(0, start.len() as int)[j] == start[j]);
        } else {
            assert(buf@[start.len() + (j - start.len())] == le_bytes(x)[j - start.len()]);
        }
    }
    assert(buf@ =~= start + le_bytes(x));
}

/// Reads the little-endian `u64` at `b[start..start + 8]`.
pub fn read_le_u64(b: &[u8], start: usize) -> (x: u64)
    requires
        start + 8 <= b@.len(),
    ensures
        x == le_value(b@, start as int),
{
    (b[start] as u64) | ((b[start + 1] as u64) << 8) | ((b[start + 2] as u64) << 16) | ((b[start
        + 3] as u64) << 24) | ((b[start + 4] as u64) << 32) | ((b[start + 5] as u64) << 40) | ((b[start
        + 6] as u64) << 48) | ((b[start + 7] as u64) << 56)
}

/// The FNV-1a offset basis.
pub const FNV_OFFSET: u64 = 0xcbf29ce484222325;

/// The FNV-1a prime.
pub const FNV_PRIME: u64 = 0x100000001b3;

/// `x · y` modulo `2^64`.
pub open spec fn mul_wrap(x: u64, y: u64) -> u64 {
    ((x as nat * y as nat) % 0x1_0000_0000_0000_0000nat) as u64
}

/// One FNV-1a step: xor in `v`, then multiply by the FNV prime (wrapping).
pub open spec fn fnv_step(h: u64, v: u64) -> u64 {
    mul_wrap(h ^ v, FNV_PRIME)
}

/// FNV-1a over the bytes of `data`, starting from `h`.
pub open spec fn fnv_bytes(h: u64, data: Seq<u8>) -> u64
    decreases data.len(),
{
    if data.len() == 0 {
        h
    } else {
        fnv_step(fnv_bytes(h, data.drop_last()), data.last() as u64)
    }
}

/// Simple hash of data for token binding (FNV-1a).
pub fn simple_hash(data: &[u8]) -> (h: u64)
    ensures
        h == fnv_bytes(FNV_OFFSET, data@),
{
    let mut h: u64 = FNV_OFFSET;
    let mut i: usize = 0;
    while i < data.len()
        invariant
            0 <= i <= data@.len(),
            h == fnv_bytes(FNV_OFFSET, data@.subrange(0, i as int)),
        decreases data@.len() - i,
    {
        proof {
            assert(data@.subrange(0, i + 1).drop_last() =~= data@.subrange(0, i as int));
        }
        h = h ^ (data[i] as u64);
        h = h.wrapping_mul(FNV_PRIME);
        i = i + 1;
    }
    proof {
        assert(data@.subrange(0, data@.len() as int) =~= data@);
    }
    h
}


/// The little-endian bytes of each word of `s`, in order.
pub open spec fn le_words(s: Seq<i64>) -> Seq<u8>
    decreases s.len(),
{
    if s.len() == 0 {
        Seq::empty()
    } else {
        le_words(s.drop_last()) + le_bytes(s.last() as u64)
    }
}

/// FNV-1a over the words of `s` (each taken as a `u64`), starting from `h`.
pub open spec fn fnv_words(h: u64, s: Seq<i64>) -> u64
    decreases s.len(),
{
    if s.len() == 0 {
        h
    } else {
        fnv_step(fnv_words(h, s.drop_last()), s.last() as u64)
    }
}

/// Appends the little-endian bytes of every word of `s` to `buf`.
pub fn push_le_words(buf: &mut Vec<u8>, s: &Vec<i64>)
    ensures
        final(buf)@ == old(buf)@ + le_words(s@),
{
    let ghost start = buf@;
    let mut i: usize = 0;
    while i < s.len()
        invariant
            0 <= i <= s@.len(),
            buf@ == start + le_words(s@.subrange(0, i as int)),
        decreases s@.len() - i,
    {
        proof {
            assert(s@.subrange(0, i + 1).drop_last() =~= s@.subrange(0, i as int));
        }
        push_le_u64(buf, s[i] as u64);
        proof {
            assert(start + le_words(s@.subrange(0, i as int)) + le_bytes(s@[i as int] as u64) =~= start
                + le_words(s@.subrange(0, i + 1)));
        }
        i = i + 1;
    }
    proof {
        assert(s@.subrange(0, s@.len() as int) =~= s@);
    }
}

/// Appends the bytes of `b` to `buf`.
pub fn push_bytes(buf: &mut Vec<u8>, b: &[u8])
    ensures
        final(buf)@ == old(buf)@ + b@,
{
    let ghost start = buf@;
    let mut i: usize = 0;
    while i < b.len()
        invariant
            0 <= i <= b@.len(),
            buf@ == start + b@.subrange(0, i as int),
        decreases b@.len() - i,
    {
        buf.push(b[i]);
        proof {
            assert(start + b@.subrange(0, i + 1) =~= buf@);
        }
        i = i + 1;
    }
    proof {
        assert(b@.subrange(0, b@.len() as int) =~= b@);
    }
}

/// An agent's lattice-based key pair.
#[derive(Debug, Clone)]
pub struct AgentKeyPair {
    /// Agent identifier.
    pub agent_id: String,
    /// Random polynomial `a` (part of the public key).
    pub a_poly: Vec<i64>,
    /// Public key polynomial `b = a*s + e mod q`.
    pub public_key: Vec<i64>,
    /// Secret key polynomial coefficients.
    pub secret_key: Vec<i64>,
    /// LWE modulus q.
    pub modulus: i64,
    /// Ring dimension n.
    pub dimension: usize,
}

impl AgentKeyPair {
    /// Export the full public key bytes: (a_poly || public_key) in little-endian i64.
    pub fn public_key_bytes(&self) -> (bytes: Vec<u8>)
        ensures
            bytes@ == le_words(self.a_poly@) + le_words(self.public_key@),
    {
        let mut buf: Vec<u8> = Vec::new();
        push_le_words(&mut buf, &self.a_poly);
        push_le_words(&mut buf, &self.public_key);
        proof {
            assert(Seq::<u8>::empty() + le_words(self.a_poly@) =~= le_words(self.a_poly@));
        }
        buf
    }
}

/// A signed identity token.
#[derive(Debug, Clone, PartialEq)]
pub struct IdentityToken {
    /// The agent that produced this token.
    pub agent_id: String,
    /// Hash of the data that was signed (truncated to u64 for portability).
    pub data_hash: u64,
    /// Signature polynomial `b_sig = a*s + e_sig + encode(hash)`.
    pub signature_b: Vec<i64>,
    /// Token creation timestamp (unix seconds).
    pub timestamp: i64,
    /// Modulus used for signing.
    pub modulus: i64,
    /// Ring dimension.
    pub dimension: usize,
}

impl IdentityToken {
    /// Serialize the token to bytes for transmission.
    pub fn to_bytes(&self) -> (bytes: Vec<u8>)
        ensures
            bytes@ == le_bytes(encode_utf8(self.agent_id@).len() as u64) + encode_utf8(self.agent_id@)
                + le_bytes(self.data_hash) + le_bytes(self.timestamp as u64) + le_bytes(
                self.modulus as u64,
            ) + le_bytes(self.dimension as u64) + le_bytes(self.signature_b@.len() as u64)
                + le_words(self.signature_b@),
    {
        let mut buf: Vec<u8> = Vec::new();
        let id_bytes = self.agent_id.as_str().as_bytes();
        push_le_u64(&mut buf, id_bytes.len() as u64);
        push_bytes(&mut buf, id_bytes);
        push_le_u64(&mut buf, self.data_hash);
        push_le_u64(&mut buf, self.timestamp as u64);
        push_le_u64(&mut buf, self.modulus as u64);
        push_le_u64(&mut buf, self.dimension as u64);
        push_le_u64(&mut buf, self.signature_b.len() as u64);
        push_le_words(&mut buf, &self.signature_b);
        proof {
            assert(Seq::<u8>::empty() + le_bytes(id_bytes@.len() as u64) =~= le_bytes(
                id_bytes@.len() as u64,
            ));
        }
        buf
    }
}

/// Derive a shared authentication digest from two agent key pairs: FNV-1a over
/// the public-key words of both, in order.
pub fn derive_shared_digest(kp1: &AgentKeyPair, kp2: &AgentKeyPair) -> (h: u64)
    ensures
        h == fnv_words(fnv_words(FNV_OFFSET, kp1.public_key@), kp2.public_key@),
{
    let h1 = fnv_words_exec(FNV_OFFSET, &kp1.public_key);
    fnv_words_exec(h1, &kp2.public_key)
}

/// FNV-1a over the words of `s`, starting from `h`.
fn fnv_words_exec(h0: u64, s: &Vec<i64>) -> (h: u64)
    ensures
        h == fnv_words(h0, s@),
{
    let mut h = h0;
    let mut i: usize = 0;
    while i < s.len()
        invariant
            0 <= i <= s@.len(),
            h == fnv_words(h0, s@.subrange(0, i as int)),
        decreases s@.len() - i,
    {
        proof {
            assert(s@.subrange(0, i + 1).drop_last() =~= s@.subrange(0, i as int));
        }
        h = h ^ (s[i] as u64);
        h = h.wrapping_mul(FNV_PRIME);
        i = i + 1;
    }
    proof {
        assert(s@.subrange(0, s@.len() as int) =~= s@);
    }
    h
}


/// The seed state reached by absorbing `data` byte by byte: each step draws
/// from the generator, xors in the byte, and restarts the generator there.
pub open spec fn absorb_bytes(s: u64, data: Seq<u8>) -> u64
    decreases data.len(),
{
    if data.len() == 0 {
        s
    } else {
        seed_state(xorshift_next(absorb_bytes(s, data.drop_last())) ^ (data.last() as u64))
    }
}

/// The seed state reached by absorbing the words of `data` (each as a `u64`).
pub open spec fn absorb_words(s: u64, data: Seq<i64>) -> u64
    decreases data.len(),
{
    if data.len() == 0 {
        s
    } else {
        seed_state(xorshift_next(absorb_words(s, data.drop_last())) ^ (data.last() as u64))
    }
}

/// The generator state that key generation for an agent with identifier bytes
/// `id` draws its coefficients from.
pub open spec fn agent_rng_start(id: Seq<u8>) -> u64 {
    seed_state(xorshift_next(absorb_bytes(0x1234567890ABCDEFu64, id)))
}

/// Ring dimension of agent keys.
pub const AGENT_DIMENSION: usize = 64;

/// Modulus of agent keys.
pub const AGENT_MODULUS: i64 = 7681;

/// Absorbs the bytes of `data` into a generator started at `s`.
fn absorb_bytes_exec(s: u64, data: &[u8]) -> (r: XorShift64)
    ensures
        r@ == absorb_bytes(seed_state(s), data@),
{
    let mut seeder = XorShift64::new(s);
    let mut i: usize = 0;
    while i < data.len()
        invariant
            0 <= i <= data@.len(),
            seeder@ == absorb_bytes(seed_state(s), data@.subrange(0, i as int)),
        decreases data@.len() - i,
    {
        proof {
            assert(data@.subrange(0, i + 1).drop_last() =~= data@.subrange(0, i as int));
        }
        seeder = XorShift64::new(seeder.next_u64() ^ data[i] as u64);
        i = i + 1;
    }
    proof {
        assert(data@.subrange(0, data@.len() as int) =~= data@);
    }
    seeder
}

/// Absorbs the words of `data` into a generator started at `s`.
fn absorb_words_exec(s: u64, data: &Vec<i64>) -> (r: XorShift64)
    ensures
        r@ == absorb_words(seed_state(s), data@),
{
    let mut seeder = XorShift64::new(s);
    let mut i: usize = 0;
    while i < data.len()
        invariant
            0 <= i <= data@.len(),
            seeder@ == absorb_words(seed_state(s), data@.subrange(0, i as int)),
        decreases data@.len() - i,
    {
        proof {
            assert(data@.subrange(0, i + 1).drop_last() =~= data@.subrange(0, i as int));
        }
        seeder = XorShift64::new(seeder.next_u64() ^ data[i] as u64);
        i = i + 1;
    }
    proof {
        assert(data@.subrange(0, data@.len() as int) =~= data@);
    }
    seeder
}

/// `kp` is the key pair that `generate_agent_keypair` derives for an agent
/// whose identifier has the characters `id`: a secret in `{-1, 0, 1}^64`, a
/// uniform `a` modulo 7681 and an error in `{-2, ..., 2}^64`, all drawn from
/// the generator seeded by the identifier, and `public_key = a·s + e mod q`.
pub open spec fn is_agent_keypair(kp: AgentKeyPair, id: Seq<char>) -> bool {
    let n: nat = 64;
    let q: int = 7681;
    let s0 = agent_rng_start(encode_utf8(id));
    let err = mod_draws(xorshift_iter(s0, 2 * n), n, 5, 2);
    &&& kp.agent_id@ == id
    &&& kp.modulus == q
    &&& kp.dimension == n
    &&& kp.secret_key@ == mod_draws(s0, n, 3, 1)
    &&& kp.a_poly@ == mod_draws(xorshift_iter(s0, n), n, q, 0)
    &&& kp.public_key@.len() == n
    &&& forall|k: int|
        0 <= k < n ==> #[trigger] kp.public_key@[k] == (nega_coeff(kp.a_poly@, kp.secret_key@, n as int, k)
            + err[k]) % q
}

/// Generate a new lattice-based key pair for an agent.
///
/// Uses Ring-LWE key generation: public key is `(a, b = a*s + e)`, with every
/// coefficient drawn deterministically from a generator seeded by `agent_id`.
pub fn generate_agent_keypair(agent_id: &str) -> (kp: AgentKeyPair)
    ensures
        is_agent_keypair(kp, agent_id@),
{
    let n = AGENT_DIMENSION;
    let q = AGENT_MODULUS;
    let mut seeder = absorb_bytes_exec(0x1234567890ABCDEF, agent_id.as_bytes());
    let seed = seeder.next_u64();
    let mut rng = XorShift64::new(seed);
    let ghost s0 = rng@;
    let secret_key = draw_mod(&mut rng, n, 3, 1);
    let a_coeffs = draw_mod(&mut rng, n, q, 0);
    let error = draw_mod(&mut rng, n, 5, 2);
    proof {
        lemma_xorshift_iter_add(s0, 64, 64);
    }
    let a_poly = Poly::new(copy_vec(&a_coeffs));
    let s_poly = Poly::new(copy_vec(&secret_key));
    let e_poly = Poly::new(error);
    proof {
        assert forall|i: int| 0 <= i < 64 implies abs(#[trigger] coeff(a_poly.coeffs@, i)) <= 7680 by {
            assert(a_poly.coeffs@[i] == mod_draws(xorshift_iter(s0, 64), 64, 7681, 0)[i]);
        }
        assert forall|i: int| 0 <= i < 64 implies abs(#[trigger] coeff(s_poly.coeffs@, i)) <= 1 by {
            assert(s_poly.coeffs@[i] == mod_draws(s0, 64, 3, 1)[i]);
        }
        lemma_mul_fits_bounded(a_poly.coeffs@, s_poly.coeffs@, 7681, 64, 7680, 1);
    }
    let as_poly = a_poly.mul_ring(&s_poly, q, n);
    proof {
        assert forall|i: int| 0 <= i < 64 implies {
            &&& i64::MIN <= coeff(as_poly.coeffs@, i) + coeff(e_poly.coeffs@, i) <= i64::MAX
            &&& mod_pos_ok(#[trigger] (coeff(as_poly.coeffs@, i) + coeff(e_poly.coeffs@, i)), 7681)
        } by {
            lemma_mod_bound(nega_coeff(a_poly.coeffs@, s_poly.coeffs@, 64, i), 7681);
            assert(e_poly.coeffs@[i] == mod_draws(xorshift_iter(s0, 128), 64, 5, 2)[i]);
            lemma_mod_pos_ok_small_modulus(coeff(as_poly.coeffs@, i) + coeff(e_poly.coeffs@, i), 7681);
        }
    }
    let b_poly = as_poly.add_mod(&e_poly, q, n);
    proof {
        assert forall|k: int| 0 <= k < 64 implies #[trigger] b_poly.coeffs@[k] == (nega_coeff(
            a_coeffs@,
            secret_key@,
            64,
            k,
        ) + mod_draws(xorshift_iter(s0, 128), 64, 5, 2)[k]) % 7681 by {
            lemma_mod_add_left(
                nega_coeff(a_coeffs@, secret_key@, 64, k),
                mod_draws(xorshift_iter(s0, 128), 64, 5, 2)[k] as int,
                7681,
            );
        }
    }
    AgentKeyPair {
        agent_id: agent_id.to_owned(),
        a_poly: a_coeffs,
        public_key: b_poly.coeffs,
        secret_key,
        modulus: q,
        dimension: n,
    }
}


/// Bit `i mod 64` of the hash `h`.
pub open spec fn hash_bit(h: u64, i: int) -> int {
    ((h >> ((i % 64) as u64)) & 1u64) as int
}

/// A hash bit is 0 or 1.
pub proof fn lemma_hash_bit_range(h: u64, i: int)
    ensures
        0 <= hash_bit(h, i) <= 1,
{
    let s = (i % 64) as u64;
    assert((h >> s) & 1u64 <= 1u64) by (bit_vector);
}

/// Coefficient `i` of the encoding of hash `h`: its bit `i mod 64` times `q/4`.
pub open spec fn encode_coeff(h: u64, q: int, i: int) -> int {
    hash_bit(h, i) * (q / 4)
}

/// The generator state that signing with secret key `sk` draws its error from,
/// for data with hash `h`.
pub open spec fn sign_rng_start(sk: Seq<i64>, h: u64) -> u64 {
    seed_state(xorshift_next(seed_state(xorshift_next(absorb_words(0xDEADBEEFCAFEBABEu64, sk)) ^ h)))
}

/// The arithmetic of signing with `kp` stays within `i64`.
pub open spec fn sign_fits(kp: &AgentKeyPair) -> bool {
    &&& 0 < kp.modulus
    &&& 2 * kp.modulus <= i64::MAX + 1
    &&& 2 * kp.dimension <= usize::MAX
    &&& mul_fits(kp.a_poly@, kp.secret_key@, kp.modulus as int, kp.dimension as int)
}

/// `token` is the signature of `data` by `kp` made at `timestamp`:
/// `signature_b = a·s + e_sig + encode(hash) mod q`, with `e_sig` in
/// `{-1, 0, 1}^n` drawn from the generator seeded by the secret key and the hash.
pub open spec fn is_signed_token(token: IdentityToken, kp: AgentKeyPair, data: Seq<u8>, timestamp: i64) -> bool {
    let n = kp.dimension as int;
    let q = kp.modulus as int;
    let h = fnv_bytes(FNV_OFFSET, data);
    let err = mod_draws(sign_rng_start(kp.secret_key@, h), n as nat, 3, 1);
    &&& token.agent_id@ == kp.agent_id@
    &&& token.data_hash == h
    &&& token.timestamp == timestamp
    &&& token.modulus == kp.modulus
    &&& token.dimension == kp.dimension
    &&& token.signature_b@.len() == n
    &&& forall|k: int|
        0 <= k < n ==> #[trigger] token.signature_b@[k] == (nega_coeff(kp.a_poly@, kp.secret_key@, n, k)
            + err[k] + encode_coeff(h, q, k)) % q
}

/// Sign data using the agent's key pair, stamping the token with `timestamp`.
///
/// Produces signature `b_sig = a*s + e_sig + encode(hash)` using the same `a`
/// from the key pair, so that `b_sig - b_public ≈ encode(hash)`.
pub fn sign_token_at(keypair: &AgentKeyPair, data: &[u8], timestamp: i64) -> (token: IdentityToken)
    requires
        sign_fits(keypair),
    ensures
        is_signed_token(token, *keypair, data@, timestamp),
{
    let n = keypair.dimension;
    let q = keypair.modulus;
    let ghost qi = q as int;
    let data_hash = simple_hash(data);
    let mut seeder = absorb_words_exec(0xDEADBEEFCAFEBABE, &keypair.secret_key);
    seeder = XorShift64::new(seeder.next_u64() ^ data_hash);
    let mut rng = XorShift64::new(seeder.next_u64());
    let error = draw_mod(&mut rng, n, 3, 1);
    let mut encoded: Vec<i64> = Vec::new();
    let mut i: usize = 0;
    while i < n
        invariant
            0 < q,
            qi == q,
            0 <= i <= n,
            encoded@.len() == i,
            forall|k: int| 0 <= k < i ==> #[trigger] encoded@[k] == encode_coeff(data_hash, qi, k),
        decreases n - i,
    {
        let bit = (data_hash >> ((i % 64) as u64)) & 0x1;
        proof {
            lemma_hash_bit_range(data_hash, i as int);
            assert(bit as int == hash_bit(data_hash, i as int));
            assert(0 <= (bit as int) * (q as int / 4) <= q as int / 4) by (nonlinear_arith)
                requires
                    bit <= 1,
                    q > 0,
            ;
        }
        encoded.push((bit as i64) * (q / 4));
        i = i + 1;
    }
    let a_poly = Poly::new(copy_vec(&keypair.a_poly));
    let s_poly = Poly::new(copy_vec(&keypair.secret_key));
    let e_poly = Poly::new(error);
    let enc_poly = Poly::new(encoded);
    let as_poly = a_poly.mul_ring(&s_poly, q, n);
    proof {
        assert forall|i: int| 0 <= i < n implies {
            &&& i64::MIN <= coeff(as_poly.coeffs@, i) + coeff(e_poly.coeffs@, i) <= i64::MAX
            &&& mod_pos_ok(#[trigger] (coeff(as_poly.coeffs@, i) + coeff(e_poly.coeffs@, i)), qi)
        } by {
            lemma_mod_bound(nega_coeff(a_poly.coeffs@, s_poly.coeffs@, n as int, i), qi);
            lemma_mod_pos_ok_small_modulus(coeff(as_poly.coeffs@, i) + coeff(e_poly.coeffs@, i), qi);
        }
    }
    let b_sig = as_poly.add_mod(&e_poly, q, n);
    proof {
        assert forall|i: int| 0 <= i < n implies {
            &&& i64::MIN <= coeff(b_sig.coeffs@, i) + coeff(enc_poly.coeffs@, i) <= i64::MAX
            &&& mod_pos_ok(#[trigger] (coeff(b_sig.coeffs@, i) + coeff(enc_poly.coeffs@, i)), qi)
        } by {
            lemma_mod_bound(coeff(as_poly.coeffs@, i) + coeff(e_poly.coeffs@, i), qi);
            lemma_hash_bit_range(data_hash, i);
            assert(0 <= encode_coeff(data_hash, qi, i) <= qi / 4) by (nonlinear_arith)
                requires
                    0 <= hash_bit(data_hash, i) <= 1,
                    qi > 0,
                    encode_coeff(data_hash, qi, i) == hash_bit(data_hash, i) * (qi / 4),
            ;
            lemma_mod_pos_ok_small_modulus(coeff(b_sig.coeffs@, i) + coeff(enc_poly.coeffs@, i), qi);
        }
    }
    let sig = b_sig.add_mod(&enc_poly, q, n);
    proof {
        let err = mod_draws(sign_rng_start(keypair.secret_key@, data_hash), n as nat, 3, 1);
        assert forall|k: int| 0 <= k < n implies #[trigger] sig.coeffs@[k] == (nega_coeff(
            keypair.a_poly@,
            keypair.secret_key@,
            n as int,
            k,
        ) + err[k] + encode_coeff(data_hash, qi, k)) % qi by {
            let x = nega_coeff(keypair.a_poly@, keypair.secret_key@, n as int, k);
            lemma_mod_add_left(x, err[k] as int, qi);
            lemma_mod_add_left(x + err[k], encode_coeff(data_hash, qi, k), qi);
        }
    }
    IdentityToken {
        agent_id: keypair.agent_id.clone(),
        data_hash,
        signature_b: sig.coeffs,
        timestamp,
        modulus: q,
        dimension: n,
    }
}

/// A point in time of the system clock.
#[verifier::external_type_specification]
#[verifier::external_body]
pub struct ExSystemTime(std::time::SystemTime);

/// The error that a point in time lies before the one it is measured from.
#[verifier::external_type_specification]
#[verifier::external_body]
pub struct ExSystemTimeError(std::time::SystemTimeError);

/// Reads the system clock (`SystemTime::now`); nothing is known of the time
/// it returns.
#[verifier::external_body]
fn system_now() -> std::time::SystemTime {
    std::time::SystemTime::now()
}

/// The time elapsed from the Unix epoch to `t` (`SystemTime::duration_since`),
/// or an error when `t` lies before the epoch; nothing is known of either.
#[verifier::external_body]
fn since_unix_epoch(t: std::time::SystemTime) -> Result<core::time::Duration, std::time::SystemTimeError> {
    t.duration_since(std::time::UNIX_EPOCH)
}

/// The whole seconds of a duration (`Duration::as_secs`); nothing is known of
/// the value.
#[verifier::external_body]
fn whole_secs(d: &core::time::Duration) -> u64 {
    d.as_secs()
}

/// The token timestamp for a reading of the clock: its whole seconds since the
/// Unix epoch, taken as an `i64` (two's complement), or 0 when the clock is
/// set before the epoch (`None`).
pub open spec fn timestamp_of(secs: Option<u64>) -> i64 {
    match secs {
        Some(s) => s as i64,
        None => 0,
    }
}

/// The token timestamp for the clock reading `secs` (see [`timestamp_of`]).
pub fn unix_timestamp(secs: Option<u64>) -> (t: i64)
    ensures
        t == timestamp_of(secs),
{
    match secs {
        Some(s) => #[verifier::truncate] (s as i64),
        None => 0,
    }
}

/// Sign data using the agent's key pair, stamping the token with the current
/// Unix time (seconds).
pub fn sign_token(keypair: &AgentKeyPair, data: &[u8]) -> (token: IdentityToken)
    requires
        sign_fits(keypair),
    ensures
        exists|secs: Option<u64>| #[trigger] timestamp_of(secs) == token.timestamp,
        is_signed_token(token, *keypair, data@, token.timestamp),
{
    let secs = match since_unix_epoch(system_now()) {
        Ok(d) => Some(whole_secs(&d)),
        Err(_) => None,
    };
    let timestamp = unix_timestamp(secs);
    sign_token_at(keypair, data, timestamp)
}


/// The distance between `x` and `y` around `Z_q`: `|x - y|`, or `q - |x - y|`
/// when that is smaller.
pub open spec fn wrap_dist(x: int, y: int, q: int) -> int {
    let e = if x > y { x - y } else { y - x };
    if e <= q - e {
        e
    } else {
        q - e
    }
}

/// Word `i` of a little-endian byte string, as an `i64`.
pub open spec fn le_word(b: Seq<u8>, i: int) -> i64 {
    le_value(b, 8 * i) as i64
}

/// `verify_token` runs without overflow or out-of-bounds access: the dimension
/// can be doubled, and, when the key has the right length, the modulus is
/// positive and at most `2^52`, the signature has at least `dimension`
/// coefficients, and each differs from the public key's without overflow.
pub open spec fn verify_token_defined(token: &IdentityToken, key: Seq<u8>) -> bool {
    let n = token.dimension as int;
    key.len() % 8 == 0 ==> {
        &&& 2 * n <= usize::MAX
        &&& key.len() / 8 == 2 * n ==> {
            &&& 0 < token.modulus
            &&& token.signature_b@.len() >= n
            &&& forall|i: int|
                0 <= i < n ==> {
                    &&& i64::MIN <= (token.signature_b@[i] as int) - (#[trigger] le_word(key, n + i) as int)
                        <= i64::MAX
                    &&& mod_pos_ok(
                        (token.signature_b@[i] as int) - (le_word(key, n + i) as int),
                        token.modulus as int,
                    )
                    &&& mod_pos_ok(encode_coeff(token.data_hash, token.modulus as int, i), token.modulus as int)
                }
        }
    }
}

/// `token` passes verification against the public key bytes `key` with
/// tolerance `threshold`: the key holds `2·dimension` words `(a || b)`, and
/// every coefficient of `signature_b - b` lies within `threshold` of the
/// encoding of the token's hash, around `Z_q`.
pub open spec fn token_accepted(token: &IdentityToken, key: Seq<u8>, threshold: int) -> bool {
    let n = token.dimension as int;
    let q = token.modulus as int;
    &&& key.len() % 8 == 0
    &&& key.len() / 8 == 2 * n
    &&& forall|i: int|
        0 <= i < n ==> #[trigger] wrap_dist(
            ((token.signature_b@[i] as int) - (le_word(key, n + i) as int)) % q,
            encode_coeff(token.data_hash, q, i) % q,
            q,
        ) <= threshold
}

/// Reads `count` little-endian words starting at word `start`.
fn read_words(b: &[u8], start: usize, count: usize) -> (v: Vec<i64>)
    requires
        8 * (start + count) <= b@.len(),
    ensures
        v@.len() == count,
        forall|i: int| 0 <= i < count ==> #[trigger] v@[i] == le_word(b@, start + i),
{
    let blen = b.len();
    let mut v: Vec<i64> = Vec::new();
    let mut i: usize = 0;
    while i < count
        invariant
            blen == b@.len(),
            8 * (start + count) <= b@.len(),
            0 <= i <= count,
            v@.len() == i,
            forall|k: int| 0 <= k < i ==> #[trigger] v@[k] == le_word(b@, start + k),
        decreases count - i,
    {
        assert(8 * (start + i) + 8 <= 8 * (start + count) <= b@.len() <= usize::MAX);
        let x = read_le_u64(b, 8 * (start + i));
        v.push(#[verifier::truncate] (x as i64));
        i = i + 1;
    }
    v
}

/// Verify an identity token against a public key.
///
/// Checks that `b_sig - b_public ≈ encode(hash)` within the tolerance
/// `threshold` (the truncated floating-point value of `q / 6`, which the caller
/// computes), where `b_public = a*s + e` from key generation and
/// `b_sig = a*s + e' + encode(hash)`.
pub fn verify_token(token: &IdentityToken, public_key_bytes: &[u8], threshold: i64) -> (ok: bool)
    requires
        verify_token_defined(token, public_key_bytes@),
    ensures
        ok == token_accepted(token, public_key_bytes@, threshold as int),
{
    if public_key_bytes.len() % 8 != 0 {
        return false;
    }
    let total_coeffs = public_key_bytes.len() / 8;
    if total_coeffs != token.dimension * 2 {
        return false;
    }
    let n = token.dimension;
    let _a_poly = read_words(public_key_bytes, 0, n);
    let b_public = read_words(public_key_bytes, n, n);
    let q = token.modulus;
    let ghost qi = q as int;
    let mut encoded: Vec<i64> = Vec::new();
    let mut i: usize = 0;
    while i < n
        invariant
            0 < q,
            qi == q,
            0 <= i <= n,
            encoded@.len() == i,
            forall|k: int| 0 <= k < i ==> #[trigger] encoded@[k] == encode_coeff(token.data_hash, qi, k),
        decreases n - i,
    {
        let bit = (token.data_hash >> ((i % 64) as u64)) & 0x1;
        proof {
            lemma_hash_bit_range(token.data_hash, i as int);
            assert(bit as int == hash_bit(token.data_hash, i as int));
            assert(0 <= (bit as int) * (q as int / 4) <= q as int / 4) by (nonlinear_arith)
                requires
                    bit <= 1,
                    q > 0,
            ;
        }
        encoded.push((bit as i64) * (q / 4));
        i = i + 1;
    }
    let mut i: usize = 0;
    while i < n
        invariant
            verify_token_defined(token, public_key_bytes@),
            public_key_bytes@.len() % 8 == 0,
            public_key_bytes@.len() / 8 == 2 * n,
            n == token.dimension,
            0 < q,
            qi == q,
            q == token.modulus,
            b_public@.len() == n,
            forall|k: int| 0 <= k < n ==> #[trigger] b_public@[k] == le_word(public_key_bytes@, n + k),
            encoded@.len() == n,
            forall|k: int| 0 <= k < n ==> #[trigger] encoded@[k] == encode_coeff(token.data_hash, qi, k),
            0 <= i <= n,
            forall|k: int|
                0 <= k < i ==> #[trigger] wrap_dist(
                    ((token.signature_b@[k] as int) - (le_word(public_key_bytes@, n + k) as int)) % qi,
                    encode_coeff(token.data_hash, qi, k) % qi,
                    qi,
                ) <= threshold,
        decreases n - i,
    {
        assert(i64::MIN <= (token.signature_b@[i as int] as int) - (le_word(
            public_key_bytes@,
            n + i,
        ) as int) <= i64::MAX);

        let diff = mod_pos(token.signature_b[i] - b_public[i], q);
        let expected = mod_pos(encoded[i], q);
        let err = if diff > expected { diff - expected } else { expected - diff };
        let err = if err <= q - err { err } else { q - err };
        proof {
            assert(err == wrap_dist(
                ((token.signature_b@[i as int] as int) - (le_word(public_key_bytes@, n + i) as int)) % qi,
                encode_coeff(token.data_hash, qi, i as int) % qi,
                qi,
            ));
        }
        if err > threshold {
            return false;
        }
        i = i + 1;
    }
    true
}


/// Eight bytes per word.
proof fn lemma_le_words_len(s: Seq<i64>)
    ensures
        le_words(s).len() == 8 * s.len(),
    decreases s.len(),
{
    if s.len() > 0 {
        lemma_le_words_len(s.drop_last());
    }
}

/// Byte `j` of word `i` in `le_words(s)` is byte `j` of `s[i]`.
proof fn lemma_le_words_index(s: Seq<i64>, i: int, j: int)
    requires
        0 <= i < s.len(),
        0 <= j < 8,
    ensures
        le_words(s)[8 * i + j] == le_bytes(s[i] as u64)[j],
    decreases s.len(),
{
    lemma_le_words_len(s.drop_last());
    if i < s.len() - 1 {
        lemma_le_words_index(s.drop_last(), i, j);
    }
}

/// Reading word `i` of `pre + le_words(s)` (with `pre` a whole number of words)
/// gives back `s[i]`.
pub proof fn lemma_le_word_read(pre: Seq<u8>, s: Seq<i64>, i: int)
    requires
        0 <= i < s.len(),
        pre.len() % 8 == 0,
    ensures
        le_word(pre + le_words(s), pre.len() / 8 + i) == s[i],
{
    let b = pre + le_words(s);
    let start = pre.len() as int + 8 * i;
    assert(8 * (pre.len() / 8 + i) == start);
    lemma_le_words_len(s);
    assert forall|j: int| 0 <= j < 8 implies #[trigger] b[start + j] == le_bytes(s[i] as u64)[j] by {
        lemma_le_words_index(s, i, j);
    }
    let lb = le_bytes(s[i] as u64);
    assert(b[start + 0] == lb[0]);
    assert(b[start] == lb[0]);
    assert(b[start + 1] == lb[1]);
    assert(b[start + 2] == lb[2]);
    assert(b[start + 3] == lb[3]);
    assert(b[start + 4] == lb[4]);
    assert(b[start + 5] == lb[5]);
    assert(b[start + 6] == lb[6]);
    assert(b[start + 7] == lb[7]);
    assert(le_value(b, start) == le_value(lb, 0));
    lemma_le_roundtrip(s[i] as u64);
    let x = s[i];
    assert(((x as u64) as i64) == x) by (bit_vector);
}

/// Key generation is deterministic in the agent identifier: two key pairs
/// generated for the same identifier agree in every field.
pub proof fn lemma_agent_keypair_deterministic(kp1: AgentKeyPair, kp2: AgentKeyPair, id: Seq<char>)
    requires
        is_agent_keypair(kp1, id),
        is_agent_keypair(kp2, id),
    ensures
        kp1.agent_id@ == kp2.agent_id@,
        kp1.a_poly@ == kp2.a_poly@,
        kp1.public_key@ == kp2.public_key@,
        kp1.secret_key@ == kp2.secret_key@,
        kp1.modulus == kp2.modulus,
        kp1.dimension == kp2.dimension,
{
    assert(kp1.public_key@ =~= kp2.public_key@);
}

/// A token that an agent signs verifies against that agent's published public
/// key bytes, with any tolerance of at least `q/6` (the tolerance that
/// verification uses for the agents' modulus).
pub proof fn lemma_sign_then_verify(
    kp: AgentKeyPair,
    id: Seq<char>,
    data: Seq<u8>,
    token: IdentityToken,
    timestamp: i64,
    threshold: int,
)
    requires
        is_agent_keypair(kp, id),
        is_signed_token(token, kp, data, timestamp),
        threshold >= kp.modulus / 6,
    ensures
        verify_token_defined(&token, le_words(kp.a_poly@) + le_words(kp.public_key@)),
        token_accepted(&token, le_words(kp.a_poly@) + le_words(kp.public_key@), threshold),
{
    let key = le_words(kp.a_poly@) + le_words(kp.public_key@);
    let n = 64int;
    let q = 7681int;
    lemma_le_words_len(kp.a_poly@);
    lemma_le_words_len(kp.public_key@);
    assert(key.len() == 8 * 128);
    let s0 = agent_rng_start(encode_utf8(id));
    let ekey = mod_draws(xorshift_iter(s0, 128), 64, 5, 2);
    let h = fnv_bytes(FNV_OFFSET, data);
    let esig = mod_draws(sign_rng_start(kp.secret_key@, h), 64, 3, 1);
    assert forall|i: int| 0 <= i < n implies #[trigger] le_word(key, n + i) == kp.public_key@[i] by {
        lemma_le_word_read(le_words(kp.a_poly@), kp.public_key@, i);
    }
    assert forall|i: int| 0 <= i < n implies {
        &&& i64::MIN <= (token.signature_b@[i] as int) - (#[trigger] le_word(key, n + i) as int)
            <= i64::MAX
        &&& wrap_dist(
            ((token.signature_b@[i] as int) - (le_word(key, n + i) as int)) % q,
            encode_coeff(token.data_hash, q, i) % q,
            q,
        ) <= q / 6
    } by {
        let x = nega_coeff(kp.a_poly@, kp.secret_key@, n, i);
        let ek = ekey[i] as int;
        let es = esig[i] as int;
        let enc = encode_coeff(h, q, i);
        lemma_hash_bit_range(h, i);
        lemma_mod_bound(xorshift_iter(xorshift_iter(s0, 128), (i + 1) as nat) as int, 5);
        lemma_mod_bound(xorshift_iter(sign_rng_start(kp.secret_key@, h), (i + 1) as nat) as int, 3);
        assert(-2 <= ek <= 2);
        assert(-1 <= es <= 1);
        assert(enc == 0 || enc == 1920) by {
            assert(q / 4 == 1920);
        }
        let sig = token.signature_b@[i] as int;
        let pk = kp.public_key@[i] as int;
        assert(sig == (x + es + enc) % q);
        assert(pk == (x + ek) % q);
        lemma_mod_bound(x + es + enc, q);
        lemma_mod_bound(x + ek, q);
        // (sig - pk) ≡ (es - ek + enc)  (mod q)
        lemma_sub_mod_noop(x + es + enc, x + ek, q);
        assert((x + es + enc) - (x + ek) == es - ek + enc);
        let nu = es - ek;
        assert((sig - pk) % q == (enc + nu) % q);
        lemma_small_mod(enc as nat, q as nat);
        if enc + nu >= 0 {
            lemma_small_mod((enc + nu) as nat, q as nat);
        } else {
            lemma_mod_add_multiple(enc + nu, 1, q);
            lemma_small_mod((enc + nu + q) as nat, q as nat);
        }
    }
}

/// Absorbing one more byte takes one generator step from the state absorbed
/// so far, xors in the byte and restarts the generator there (a zero state
/// becomes 1): every byte of the data, at any position, reaches the state.
pub proof fn lemma_absorb_bytes_push(s: u64, data: Seq<u8>, b: u8)
    ensures
        absorb_bytes(s, data.push(b)) == seed_state(xorshift_next(absorb_bytes(s, data)) ^ (b as u64)),
{
    assert(data.push(b).drop_last() =~= data);
}

/// Identifiers that share all but their last byte, and differ there, lead key
/// generation to different generator states, unless one of the two xors of
/// the last step is zero (which the generator replaces by 1).
pub proof fn lemma_absorb_bytes_last_byte_matters(s: u64, data: Seq<u8>, b1: u8, b2: u8)
    requires
        b1 != b2,
        xorshift_next(absorb_bytes(s, data)) ^ (b1 as u64) != 0,
        xorshift_next(absorb_bytes(s, data)) ^ (b2 as u64) != 0,
    ensures
        absorb_bytes(s, data.push(b1)) != absorb_bytes(s, data.push(b2)),
{
    lemma_absorb_bytes_push(s, data, b1);
    lemma_absorb_bytes_push(s, data, b2);
    let x = xorshift_next(absorb_bytes(s, data));
    let c1 = b1 as u64;
    let c2 = b2 as u64;
    assert(x ^ c1 != x ^ c2) by (bit_vector)
        requires
            c1 != c2,
    ;
}

/// Verification compares every coefficient: a token with any coefficient
/// `i < dimension` of `signature_b - b` farther than `threshold` (around
/// `Z_q`) from the encoding `bit_i(hash)·⌊q/4⌋` is rejected.
pub proof fn lemma_token_rejects_far_coefficient(token: &IdentityToken, key: Seq<u8>, threshold: int, i: int)
    requires
        0 <= i < token.dimension,
        ({
            let q = token.modulus as int;
            let n = token.dimension as int;
            let x = ((token.signature_b@[i] as int) - (le_word(key, n + i) as int)) % q;
            let y = ((((token.data_hash >> ((i % 64) as u64)) & 1u64) as int) * (q / 4)) % q;
            let e = if x > y { x - y } else { y - x };
            e > threshold && q - e > threshold
        }),
    ensures
        !token_accepted(token, key, threshold),
{
    let q = token.modulus as int;
    let n = token.dimension as int;
    assert(encode_coeff(token.data_hash, q, i) == (((token.data_hash >> ((i % 64) as u64)) & 1u64) as int) * (q
        / 4));
    assert(wrap_dist(
        ((token.signature_b@[i] as int) - (le_word(key, n + i) as int)) % q,
        encode_coeff(token.data_hash, q, i) % q,
        q,
    ) > threshold);
}

} // verus!
