//! The hash functions of FIPS 203 §4.1: H, G, J, PRF and XOF, built on SHA-3
//! from the `sha3` crate.
use vstd::prelude::*;
use sha3::digest::ExtendableOutput;
use sha3::{Digest, Sha3_256, Sha3_512, Shake128, Shake256};

verus! {

/// SHA3-256 of a byte string (FIPS 202).
pub uninterp spec fn sha3_256(input: Seq<u8>) -> Seq<u8>;

/// SHA3-512 of a byte string (FIPS 202).
pub uninterp spec fn sha3_512(input: Seq<u8>) -> Seq<u8>;

/// The first `len` bytes of SHAKE128 of a byte string (FIPS 202).
pub uninterp spec fn shake128(input: Seq<u8>, len: nat) -> Seq<u8>;

/// The first `len` bytes of SHAKE256 of a byte string (FIPS 202).
pub uninterp spec fn shake256(input: Seq<u8>, len: nat) -> Seq<u8>;

/// Calls `sha3::Sha3_256::digest`. Claims only that the 32-byte digest is
/// `sha3_256` of the input, a function of the input alone.
#[verifier::external_body]
fn sha3_256_digest(input: &[u8]) -> (out: [u8; 32])
    ensures
        out@ == sha3_256(input@),
{
    let d = Sha3_256::digest(input);
    let mut out = [0u8; 32];
    out.copy_from_slice(&d);
    out
}

/// Calls `sha3::Sha3_512::digest`. Claims only that the 64-byte digest is
/// `sha3_512` of the input, a function of the input alone.
#[verifier::external_body]
fn sha3_512_digest(input: &[u8]) -> (out: [u8; 64])
    ensures
        out@ == sha3_512(input@),
{
    let d = Sha3_512::digest(input);
    let mut out = [0u8; 64];
    out.copy_from_slice(&d);
    out
}

/// Calls `sha3::Shake128::digest_xof` into a buffer of `len` bytes. Claims
/// that the output fills the buffer and is `shake128(input, len)`.
#[verifier::external_body]
fn shake128_xof(input: &[u8], len: usize) -> (out: Vec<u8>)
    requires
        len <= isize::MAX,
    ensures
        out@ == shake128(input@, len as nat),
        out@.len() == len,
{
    let mut out = vec![0u8; len];
    Shake128::digest_xof(input, &mut out);
    out
}

/// Calls `sha3::Shake256::digest_xof` into a buffer of `len` bytes. Claims
/// that the output fills the buffer and is `shake256(input, len)`.
#[verifier::external_body]
fn shake256_xof(input: &[u8], len: usize) -> (out: Vec<u8>)
    ensures
        out@ == shake256(input@, len as nat),
        out@.len() == len,
{
    let mut out = vec![0u8; len];
    Shake256::digest_xof(input, &mut out);
    out
}

/// `a || b`.
pub fn concat(a: &[u8], b: &[u8]) -> (r: Vec<u8>)
    ensures
        r@ == a@ + b@,
{
    let mut r: Vec<u8> = Vec::new();
    for i in 0..a.len()
        invariant
            r@ == a@.take(i as int),
    {
        r.push(a[i]);
        assert(r@ =~= a@.take(i + 1));
    }
    assert(r@ =~= a@);
    for i in 0..b.len()
        invariant
            r@ == a@ + b@.take(i as int),
    {
        r.push(b[i]);
        assert(r@ =~= a@ + b@.take(i + 1));
    }
    assert(r@ =~= a@ + b@);
    r
}

/// Splits a 64-byte string into its two halves.
fn split64(g: &[u8; 64]) -> (r: ([u8; 32], [u8; 32]))
    ensures
        r.0@ == g@.subrange(0, 32),
        r.1@ == g@.subrange(32, 64),
{
    let mut a = [0u8; 32];
    let mut b = [0u8; 32];
    for i in 0..32usize
        invariant
            forall|j: int| 0 <= j < i ==> a@[j] == g@[j] && b@[j] == g@[j + 32],
    {
        a[i] = g[i];
        b[i] = g[i + 32];
    }
    assert(a@ =~= g@.subrange(0, 32));
    assert(b@ =~= g@.subrange(32, 64));
    (a, b)
}

/// H(s) = SHA3-256(s).
pub fn hash_h(input: &[u8]) -> (r: [u8; 32])
    ensures
        r@ == sha3_256(input@),
{
    sha3_256_digest(input)
}

/// G(c) = SHA3-512(c), split into its two 32-byte halves.
pub fn hash_g(input: &[u8]) -> (r: ([u8; 32], [u8; 32]))
    ensures
        r.0@ == sha3_512(input@).subrange(0, 32),
        r.1@ == sha3_512(input@).subrange(32, 64),
{
    let g = sha3_512_digest(input);
    split64(&g)
}

/// The tag-bound variant of G: SHA3-512 over the input followed by the tag,
/// split into its two 32-byte halves.
pub fn hash_g_with_tag(input: &[u8], tag: &[u8]) -> (r: ([u8; 32], [u8; 32]))
    ensures
        r.0@ == sha3_512(input@ + tag@).subrange(0, 32),
        r.1@ == sha3_512(input@ + tag@).subrange(32, 64),
{
    let full = concat(input, tag);
    hash_g(&full)
}

/// J(s) = SHAKE256(s, 32 bytes).
pub fn hash_j(input: &[u8]) -> (r: [u8; 32])
    ensures
        r@ == shake256(input@, 32),
{
    let v = shake256_xof(input, 32);
    let mut r = [0u8; 32];
    for i in 0..32usize
        invariant
            v@.len() == 32,
            forall|j: int| 0 <= j < i ==> r@[j] == v@[j],
    {
        r[i] = v[i];
    }
    assert(r@ =~= v@);
    r
}

/// PRF_eta(s, b) = SHAKE256(s || b, 64 eta bytes).
pub fn prf(seed: &[u8; 32], b: u8, eta: usize) -> (r: Vec<u8>)
    requires
        eta == 2 || eta == 3,
    ensures
        r@ == shake256(seed@.push(b), 64 * eta as nat),
        r@.len() == 64 * eta,
{
    let tail = [b];
    let input = concat(seed, &tail);
    assert(input@ =~= seed@.push(b));
    shake256_xof(&input, 64 * eta)
}

/// XOF(rho, j, i) = the first `len` bytes of SHAKE128(rho || j || i).
pub fn xof(rho: &[u8; 32], j: u8, i: u8, len: usize) -> (r: Vec<u8>)
    requires
        len <= isize::MAX,
    ensures
        r@ == shake128(rho@.push(j).push(i), len as nat),
        r@.len() == len,
{
    let tail = [j, i];
    let input = concat(rho, &tail);
    assert(input@ =~= rho@.push(j).push(i));
    shake128_xof(&input, len)
}

} // verus!
