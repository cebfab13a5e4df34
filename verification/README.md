# ml-kem

ML-KEM (FIPS 203) key encapsulation for the three parameter sets ML-KEM-512,
ML-KEM-768 and ML-KEM-1024, with a tag-based variant in which a caller-chosen
tag enters both the derivation of the shared key and the implicit-rejection
key.

The library in `src/` is deterministic and verified with Verus: key
generation takes its two 32-byte seeds and encapsulation its 32-byte message
as arguments. `app/` draws those seeds from a `rand_core` generator and offers
the randomized `generate`, `encapsulate` and `encapsulate_with_tag`.

## What is trusted

Everything in `src/` is verified except six small wrappers around outside
crates, marked `#[verifier::external_body]`, whose contracts Verus takes on
trust:

- `crypto.rs`: `sha3_256_digest`, `sha3_512_digest`, `shake128_xof` and
  `shake256_xof` call the `sha3` crate. Their contracts say only that the
  output has the right length and equals `sha3_256`, `sha3_512`, `shake128`
  or `shake256` of the input; these four are uninterpreted spec functions
  that stand for the FIPS 202 functions.
- `kem.rs`: `zeroize_bytes`, and `pke.rs`: `zeroize_poly_at`, call the
  `zeroize` crate and claim that the bytes or coefficients become 0.

## Layout of `src/`

- `kem.rs`: encapsulation and decapsulation keys, key generation,
  encapsulation, decapsulation with implicit rejection, the tag-based variant,
  and key encodings.
- `pke.rs`: K-PKE, the public-key encryption beneath ML-KEM.
- `ntt.rs`: the number-theoretic transform, its inverse and NTT-domain
  multiplication, and how the transform carries multiplication by X.
- `algebra.rs`: linearity of the transforms, the ring laws of NTT-domain
  multiplication, and multiplication in `Z_q[X]/(X^256 + 1)`, which the NTT
  turns into NTT-domain multiplication.
- `correctness.rs`: K-PKE decryption gives the message back whenever the
  decryption noise is small.
- `sample.rs`: SampleNTT and SamplePolyCBD.
- `encode.rs`: ByteEncode/ByteDecode and Compress/Decompress.
- `field.rs`: arithmetic modulo q = 3329.
- `crypto.rs`: H, G, J, PRF and XOF over SHA-3 (`sha3` crate).
- `param.rs`: the parameter sets.
- `laws.rs`: properties relating several operations: decapsulation of what was
  encapsulated (for generated key pairs, whenever the decryption noise is
  small), the empty tag, and the round trips of the key encodings in both
  directions.
