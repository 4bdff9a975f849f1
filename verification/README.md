# lattice_crypto_rs

Lattice-based cryptography primitives for research and education, with the
integer logic specified and proved in Verus.

## Layout

- `src/` — the verified library.
  - `util.rs`: modular arithmetic (`mod_pos`, `extended_gcd`, `mod_inverse`,
    `mod_pow`), dot products, polynomials in `Z_q[x]/(x^n + 1)` and the
    xorshift64 generator.
  - `sums.rs`, `ring_algebra.rs`: finite sums and the ring laws of the
    negacyclic product that the correctness proofs rest on.
  - `ntru.rs`: NTRU with polynomial inversion by Gauss-Jordan elimination.
  - `lwe.rs`, `ring_lwe.rs`, `rlwe_kex.rs`: LWE, Ring-LWE and the Ring-LWE key
    exchange; the small errors are taken as arguments.
  - `identity.rs`: agent key pairs, identity tokens, signing and verification.
  - `lattice.rs`: integer gcd and lcm.
- `app/` — the floating-point part: discrete Gaussian samplers, real lattice
  bases (Gram-Schmidt, LLL, CVP), and front ends of LWE, Ring-LWE and the key
  exchange that draw their errors from the Gaussian sampler.
- `tests/` — tests of the library.

## What is proved

Besides the contract of every function (exact results in terms of spec
functions, including the generator draws), the library proves:

- decryption undoes encryption for LWE, Ring-LWE and NTRU whenever the noise
  is below the decoding bound;
- in the key exchange the noise terms cancel, and both parties reconcile the
  same key whenever Alice's coefficients lie farther from the rounding
  boundaries than the noise;
- a token signed by an agent verifies against that agent's public key bytes;
- `invert_negacyclic` returns an inverse, and, modulo a prime or a power of
  two, returns `None` only for polynomials that have none; when `p` and `q`
  are each a prime or a power of two, NTRU key generation fails only when
  none of its candidates is invertible both modulo `q` and modulo `p`;
- NTRU decryption succeeds for every message with coefficients at most
  `(p-1)/2` in size whenever `2·(2dp + d(p-1)) < q`;
- ring multiplication is commutative and associative, polynomial addition is
  commutative, gcd is symmetric and lcm is a common multiple.
