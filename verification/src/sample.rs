//! SampleNTT (FIPS 203 Algorithm 7) and SamplePolyCBD (Algorithm 8).
use vstd::prelude::*;
use vstd::arithmetic::power2::{pow2, lemma2_to64};
use crate::crypto::{shake128, xof};
use crate::encode::{byte_bit, pow2_exec};
use crate::field::poly_wf;

verus! {

/// The `n`-th 12-bit candidate read from the byte stream `b` (three bytes give two).
pub open spec fn candidate(b: Seq<u8>, n: int) -> u16 {
    let t = n / 2;
    if n % 2 == 0 {
        (b[3 * t] + 256 * (b[3 * t + 1] % 16)) as u16
    } else {
        (b[3 * t + 1] / 16 + 16 * b[3 * t + 2]) as u16
    }
}

/// The candidates below q among the first `n` candidates, in order.
pub open spec fn accepted(b: Seq<u8>, n: nat) -> Seq<u16>
    decreases n,
{
    if n == 0 {
        Seq::empty()
    } else {
        let prev = accepted(b, (n - 1) as nat);
        if candidate(b, n - 1) < 3329 {
            prev.push(candidate(b, n - 1))
        } else {
            prev
        }
    }
}

/// At most 256 elements of `s`, from the front.
pub open spec fn first256(s: Seq<u16>) -> Seq<u16> {
    if s.len() <= 256 {
        s
    } else {
        s.take(256)
    }
}

/// SampleNTT on the stream `b`: the first 256 accepted candidates; a
/// coefficient the stream is too short to provide is 0.
pub open spec fn sample_ntt(b: Seq<u8>) -> Seq<u16> {
    let a = accepted(b, 2 * (b.len() / 3));
    Seq::new(256, |i: int| if i < a.len() { a[i] } else { 0 })
}

/// The stream `b` holds at least 256 accepted candidates.
pub open spec fn complete(b: Seq<u8>) -> bool {
    accepted(b, 2 * (b.len() / 3)).len() >= 256
}

/// The largest number of three-byte groups that SampleNTT reads: three
/// times it is at most `isize::MAX`, the most bytes a buffer can hold.
pub open spec fn max_groups() -> nat {
    (isize::MAX as nat) / 3
}

/// SampleNTT on the SHAKE128 stream of `input`, reading its first `3 g`
/// bytes and doubling `g` until the prefix holds 256 accepted candidates.
/// Since a shorter SHAKE128 output is a prefix of a longer one, this is
/// SampleNTT over the unbounded stream, whenever some prefix that a buffer
/// can hold holds 256 accepted candidates.
pub open spec fn sample_ntt_from(input: Seq<u8>, g: nat) -> Seq<u16>
    decreases max_groups() - g,
{
    let b = shake128(input, 3 * g);
    if complete(b) || g == 0 || 2 * g > max_groups() {
        sample_ntt(b)
    } else {
        sample_ntt_from(input, 2 * g)
    }
}

/// `sum_{t < n} bit(start + t)` of the byte string `b`.
pub open spec fn bit_count(b: Seq<u8>, start: int, n: nat) -> nat
    decreases n,
{
    if n == 0 {
        0
    } else {
        bit_count(b, start, (n - 1) as nat) + byte_bit(b, start + n - 1)
    }
}

/// SamplePolyCBD_eta on the `64 eta` bytes `b`.
pub open spec fn cbd(b: Seq<u8>, eta: nat) -> Seq<u16> {
    Seq::new(
        256,
        |i: int|
            ((bit_count(b, 2 * i * eta, eta) - bit_count(b, 2 * i * eta + eta, eta)) % 3329) as u16,
    )
}

proof fn lemma_accepted_values(b: Seq<u8>, n: nat)
    ensures
        forall|i: int| 0 <= i < accepted(b, n).len() ==> #[trigger] accepted(b, n)[i] < 3329,
        accepted(b, n).len() <= n,
    decreases n,
{
    if n > 0 {
        lemma_accepted_values(b, (n - 1) as nat);
    }
}

proof fn lemma_first256_step(b: Seq<u8>, n: nat)
    ensures
        first256(accepted(b, n + 1)) == (if first256(accepted(b, n)).len() < 256 && candidate(b, n as int)
            < 3329 {
            first256(accepted(b, n)).push(candidate(b, n as int))
        } else {
            first256(accepted(b, n))
        }),
{
    let a = accepted(b, n);
    let a1 = accepted(b, n + 1);
    assert(a1 == (if candidate(b, n as int) < 3329 {
        a.push(candidate(b, n as int))
    } else {
        a
    }));
    if a.len() >= 256 {
        if candidate(b, n as int) < 3329 {
            assert(a1.take(256) =~= a.take(256));
        }
    }
}

/// The first 256 accepted candidates of a stream of whole triples, or all of
/// them if there are fewer.
fn accept_first256(b: &Vec<u8>) -> (out: Vec<u16>)
    requires
        b@.len() % 3 == 0,
    ensures
        out@ == first256(accepted(b@, 2 * (b@.len() / 3) as nat)),
{
    let blen = b.len();
    let ntriples = blen / 3;
    let mut out: Vec<u16> = Vec::new();
    for t in 0..ntriples
        invariant
            blen == b@.len(),
            ntriples == b@.len() / 3,
            b@.len() % 3 == 0,
            out@ == first256(accepted(b@, 2 * t as nat)),
    {
        assert(3 * t + 2 < blen);
        let b0 = b[3 * t] as u16;
        let b1 = b[3 * t + 1] as u16;
        let b2 = b[3 * t + 2] as u16;
        let d1 = b0 + 256 * (b1 % 16);
        let d2 = b1 / 16 + 16 * b2;
        proof {
            assert(candidate(b@, 2 * t as int) == d1) by {
                assert((2 * t as int) / 2 == t);
            }
            assert(candidate(b@, 2 * t + 1) == d2) by {
                assert((2 * t + 1) / 2 == t);
            }
            lemma_first256_step(b@, 2 * t as nat);
            lemma_first256_step(b@, (2 * t + 1) as nat);
        }
        if d1 < 3329 && out.len() < 256 {
            out.push(d1);
        }
        if d2 < 3329 && out.len() < 256 {
            out.push(d2);
        }
    }
    out
}

/// The sampled polynomial from the accepted candidates: missing coefficients are 0.
fn pad256(b: &Vec<u8>, out: Vec<u16>) -> (f: Vec<u16>)
    requires
        out@ == first256(accepted(b@, 2 * (b@.len() / 3) as nat)),
    ensures
        f@ == sample_ntt(b@),
        poly_wf(f@),
{
    let ghost a = accepted(b@, 2 * (b@.len() / 3) as nat);
    proof {
        lemma_accepted_values(b@, 2 * (b@.len() / 3) as nat);
    }
    let mut f: Vec<u16> = Vec::new();
    let n = out.len();
    for i in 0..256usize
        invariant
            out@ == first256(a),
            n == out@.len(),
            forall|j: int| 0 <= j < a.len() ==> #[trigger] a[j] < 3329,
            f@.len() == i,
            forall|j: int| 0 <= j < i ==> #[trigger] f@[j] == (if j < a.len() { a[j] } else { 0 }),
    {
        if i < n {
            f.push(out[i]);
        } else {
            f.push(0);
        }
    }
    assert(f@ =~= sample_ntt(b@));
    f
}

/// SampleNTT on a stream of whole triples.
pub fn sample_ntt_exec(b: &Vec<u8>) -> (f: Vec<u16>)
    requires
        b@.len() % 3 == 0,
    ensures
        f@ == sample_ntt(b@),
        poly_wf(f@),
{
    let out = accept_first256(b);
    pad256(b, out)
}

/// SampleNTT(XOF(rho, j, i)): reads a prefix of the SHAKE128 stream of
/// `rho || j || i`, first 840 bytes (5 SHAKE128 blocks, 560 candidates), and
/// doubles its length until it holds 256 accepted candidates.
pub fn sample_ntt_xof(rho: &[u8; 32], j: u8, i: u8) -> (f: Vec<u16>)
    ensures
        f@ == sample_ntt_from(rho@.push(j).push(i), 280),
        poly_wf(f@),
{
    let ghost input = rho@.push(j).push(i);
    let maxg: usize = (isize::MAX as usize) / 3;
    let mut g: usize = 280;
    loop
        invariant
            input == rho@.push(j).push(i),
            maxg == max_groups(),
            280 <= g <= maxg,
            sample_ntt_from(input, 280) == sample_ntt_from(input, g as nat),
        decreases maxg - g,
    {
        let stream = xof(rho, j, i, 3 * g);
        let out = accept_first256(&stream);
        proof {
            lemma_accepted_values(stream@, 2 * (stream@.len() / 3) as nat);
            assert(out.len() == 256 <==> complete(stream@));
        }
        if out.len() == 256 || g > maxg / 2 {
            return pad256(&stream, out);
        }
        g = 2 * g;
    }
}

/// Sum of `n` consecutive bits of `b`, starting at bit `start`.
fn bit_count_exec(b: &Vec<u8>, start: usize, n: usize) -> (r: u32)
    requires
        n <= 3,
        start + n <= 8 * b@.len(),
        b@.len() <= 1024,
    ensures
        r == bit_count(b@, start as int, n as nat),
        r <= 3,
{
    let mut r: u32 = 0;
    for t in 0..n
        invariant
            n <= 3,
            start + n <= 8 * b@.len(),
            b@.len() <= 1024,
            r == bit_count(b@, start as int, t as nat),
            r <= t,
    {
        proof {
            lemma2_to64();
        }
        let k = start + t;
        let byte = b[k / 8] as u32;
        let bit = (byte / pow2_exec((k % 8) as u32)) % 2;
        r = r + bit;
    }
    r
}

/// SamplePolyCBD_eta.
pub fn cbd_exec(b: &Vec<u8>, eta: usize) -> (f: Vec<u16>)
    requires
        eta == 2 || eta == 3,
        b@.len() == 64 * eta,
    ensures
        f@ == cbd(b@, eta as nat),
        poly_wf(f@),
{
    let mut f: Vec<u16> = Vec::new();
    for i in 0..256usize
        invariant
            eta == 2 || eta == 3,
            b@.len() == 64 * eta,
            f@.len() == i,
            forall|j: int| 0 <= j < i ==> #[trigger] f@[j] == cbd(b@, eta as nat)[j] && f@[j] < 3329,
    {
        assert(2 * i * eta + 2 * eta <= 512 * eta) by (nonlinear_arith)
            requires
                i < 256,
        ;
        let x = bit_count_exec(b, 2 * i * eta, eta);
        let y = bit_count_exec(b, 2 * i * eta + eta, eta);
        let r = ((x + 3329 - y) % 3329) as u16;
        proof {
            vstd::arithmetic::div_mod::lemma_mod_add_multiples_vanish(x - y, 3329);
        }
        f.push(r);
    }
    assert(f@ =~= cbd(b@, eta as nat));
    f
}

} // verus!
