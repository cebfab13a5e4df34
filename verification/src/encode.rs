//! ByteEncode / ByteDecode (FIPS 203 Algorithms 5, 6) and Compress / Decompress (§4.2.1).
use vstd::prelude::*;
use vstd::arithmetic::power2::{pow2, lemma2_to64, lemma_pow2_unfold};
use crate::field::{fadd, poly_wf};

verus! {

/// Bit `k` of a byte string, least significant bit of each byte first (BytesToBits).
pub open spec fn byte_bit(b: Seq<u8>, k: int) -> nat {
    ((b[k / 8] as nat) / pow2((k % 8) as nat)) % 2
}

/// Bit `k` of the bit string formed by writing each coefficient of `f` in `d` bits.
pub open spec fn coeff_bit(f: Seq<u16>, d: nat, k: int) -> nat {
    ((f[k / (d as int)] as nat) / pow2((k % (d as int)) as nat)) % 2
}

/// `sum_{t < n} bits(start + t) * 2^t`.
pub open spec fn bits_value(bits: spec_fn(int) -> nat, start: int, n: nat) -> nat
    decreases n,
{
    if n == 0 {
        0
    } else {
        bits_value(bits, start, (n - 1) as nat) + bits(start + n - 1) * pow2((n - 1) as nat)
    }
}

/// ByteEncode_d: 256 coefficients of `d` bits each, packed into `32 d` bytes.
pub open spec fn byte_encode(f: Seq<u16>, d: nat) -> Seq<u8> {
    Seq::new(32 * d, |j: int| bits_value(|k: int| coeff_bit(f, d, k), 8 * j, 8) as u8)
}

/// The modulus `m` of ByteDecode_d: `2^d` for `d < 12`, and `q` for `d = 12`.
pub open spec fn decode_modulus(d: nat) -> nat {
    if d == 12 {
        3329
    } else {
        pow2(d)
    }
}

/// ByteDecode_d: `32 d` bytes unpacked into 256 coefficients modulo `decode_modulus(d)`.
pub open spec fn byte_decode(b: Seq<u8>, d: nat) -> Seq<u16> {
    Seq::new(
        256,
        |i: int| (bits_value(|k: int| byte_bit(b, k), i * d, d) % decode_modulus(d)) as u16,
    )
}

/// The widths used by ML-KEM.
pub open spec fn valid_width(d: nat) -> bool {
    d == 1 || d == 4 || d == 5 || d == 10 || d == 11 || d == 12
}

/// Compress_d(x) = round(2^d x / q) mod 2^d.
pub open spec fn compress(x: u16, d: nat) -> u16 {
    (((x * pow2(d) + 1664) / 3329) % (pow2(d) as int)) as u16
}

/// Decompress_d(y) = round(q y / 2^d).
pub open spec fn decompress(y: u16, d: nat) -> u16 {
    ((y * 3329 + pow2((d - 1) as nat)) / (pow2(d) as int)) as u16
}

pub open spec fn poly_compress(f: Seq<u16>, d: nat) -> Seq<u16> {
    Seq::new(256, |i: int| compress(f[i], d))
}

pub open spec fn poly_decompress(f: Seq<u16>, d: nat) -> Seq<u16> {
    Seq::new(256, |i: int| decompress(f[i], d))
}

/// Every coefficient is below `2^d` (and below `q` when `d = 12`).
pub open spec fn fits(f: Seq<u16>, d: nat) -> bool {
    &&& f.len() == 256
    &&& forall|i: int| 0 <= i < 256 ==> (#[trigger] f[i] as nat) < decode_modulus(d)
}

/// `2^e` for small `e`.
pub fn pow2_exec(e: u32) -> (r: u32)
    requires
        e <= 12,
    ensures
        r == pow2(e as nat),
        r <= 4096,
{
    proof {
        lemma2_to64();
    }
    let mut r: u32 = 1;
    let mut i: u32 = 0;
    while i < e
        invariant
            i <= e <= 12,
            r == pow2(i as nat),
            r <= 4096,
            pow2(12) == 4096,
            pow2(0) == 1,
        decreases e - i,
    {
        proof {
            lemma_pow2_unfold((i + 1) as nat);
            if i + 1 < 12 {
                vstd::arithmetic::power2::lemma_pow2_strictly_increases((i + 1) as nat, 12);
            }
        }
        r = r * 2;
        i = i + 1;
    }
    r
}

proof fn lemma_bits_value_bound(bits: spec_fn(int) -> nat, start: int, n: nat)
    requires
        forall|k: int| #[trigger] bits(k) <= 1,
    ensures
        bits_value(bits, start, n) < pow2(n),
    decreases n,
{
    if n == 0 {
        lemma2_to64();
    } else {
        lemma_bits_value_bound(bits, start, (n - 1) as nat);
        lemma_pow2_unfold(n);
        assert(bits(start + n - 1) * pow2((n - 1) as nat) <= pow2((n - 1) as nat)) by (nonlinear_arith)
            requires
                bits(start + n - 1) <= 1,
        ;
    }
}

/// ByteEncode_d.
pub fn byte_encode_exec(f: &Vec<u16>, d: u32) -> (b: Vec<u8>)
    requires
        f@.len() == 256,
        valid_width(d as nat),
    ensures
        b@ == byte_encode(f@, d as nat),
{
    let ghost bits = |k: int| coeff_bit(f@, d as nat, k);
    let mut b: Vec<u8> = Vec::new();
    let nbytes = 32 * d as usize;
    for j in 0..nbytes
        invariant
            f@.len() == 256,
            valid_width(d as nat),
            nbytes == 32 * d,
            bits == (|k: int| coeff_bit(f@, d as nat, k)),
            b@.len() == j,
            forall|jj: int| 0 <= jj < j ==> #[trigger] b@[jj] == byte_encode(f@, d as nat)[jj],
    {
        let mut acc: u32 = 0;
        let mut p: u32 = 1;
        proof {
            lemma2_to64();
        }
        for t in 0..8usize
            invariant
                f@.len() == 256,
                valid_width(d as nat),
                j < nbytes,
                nbytes == 32 * d,
                bits == (|k: int| coeff_bit(f@, d as nat, k)),
                acc == bits_value(bits, 8 * j, t as nat),
                p == pow2(t as nat),
                p <= 256,
        {
            proof {
                lemma_bits_value_bound(bits, 8 * j, t as nat);
                lemma_pow2_unfold((t + 1) as nat);
                lemma2_to64();
                vstd::arithmetic::power2::lemma_pow2_strictly_increases(t as nat, 8);
                assert(8 * j + t < 256 * d) by (nonlinear_arith)
                    requires
                        j < 32 * d,
                        t < 8,
                ;
                assert((8 * j + t) / (d as int) < 256) by {
                    vstd::arithmetic::div_mod::lemma_div_by_multiple_is_strongly_ordered(
                        (8 * j + t) as int, 256 * d as int, 256, d as int);
                }
            }
            let k = 8 * j + t;
            let c = f[k / (d as usize)] as u32;
            let e = (k % (d as usize)) as u32;
            let bit = (c / pow2_exec(e)) % 2;
            proof {
                assert(bit == bits(k as int));
                assert(bit * p <= p) by (nonlinear_arith)
                    requires
                        bit <= 1,
                ;
            }
            acc = acc + bit * p;
            p = p * 2;
        }
        proof {
            lemma_bits_value_bound(bits, 8 * j, 8);
            lemma2_to64();
        }
        b.push(acc as u8);
    }
    assert(b@ =~= byte_encode(f@, d as nat));
    b
}

/// ByteDecode_d of the `32 d` bytes of `b` starting at `off`.
pub fn byte_decode_exec(b: &Vec<u8>, off: usize, d: u32) -> (f: Vec<u16>)
    requires
        valid_width(d as nat),
        off + 32 * d <= b@.len(),
    ensures
        f@ == byte_decode(b@.subrange(off as int, off + 32 * d), d as nat),
        fits(f@, d as nat),
{
    let blen = b.len();
    let ghost bs = b@.subrange(off as int, off + 32 * d);
    let ghost bits = |k: int| byte_bit(bs, k);
    let m: u32 = if d == 12 {
        3329
    } else {
        pow2_exec(d)
    };
    let mut f: Vec<u16> = Vec::new();
    for i in 0..256usize
        invariant
            valid_width(d as nat),
            off + 32 * d <= b@.len(),
            blen == b@.len(),
            bs == b@.subrange(off as int, off + 32 * d),
            bits == (|k: int| byte_bit(bs, k)),
            m as nat == decode_modulus(d as nat),
            f@.len() == i,
            forall|ii: int| 0 <= ii < i ==> #[trigger] f@[ii] == byte_decode(bs, d as nat)[ii] && (
            f@[ii] as nat) < decode_modulus(d as nat),
    {
        let mut acc: u32 = 0;
        let mut p: u32 = 1;
        proof {
            lemma2_to64();
        }
        for t in 0..(d as usize)
            invariant
                valid_width(d as nat),
                i < 256,
                off + 32 * d <= b@.len(),
                blen == b@.len(),
                bs == b@.subrange(off as int, off + 32 * d),
                bits == (|k: int| byte_bit(bs, k)),
                acc == bits_value(bits, i * d, t as nat),
                p == pow2(t as nat),
                p <= 4096,
        {
            proof {
                lemma_bits_value_bound(bits, i * d, t as nat);
                lemma_pow2_unfold((t + 1) as nat);
                lemma2_to64();
                if t + 1 < 12 {
                    vstd::arithmetic::power2::lemma_pow2_strictly_increases((t + 1) as nat, 12);
                }
                vstd::arithmetic::power2::lemma_pow2_strictly_increases(t as nat, 12);
                assert(i * d + t < 256 * d) by (nonlinear_arith)
                    requires
                        i < 256,
                        t < d,
                ;
                vstd::arithmetic::div_mod::lemma_div_by_multiple_is_strongly_ordered(
                    (i * d + t) as int, 256 * d as int, (32 * d) as int, 8);
            }
            let k = i * (d as usize) + t;
            assert(k / 8 < 32 * d);
            assert(off + k / 8 < b@.len());
            let byte = b[off + k / 8] as u32;
            let e = (k % 8) as u32;
            let bit = (byte / pow2_exec(e)) % 2;
            proof {
                assert(bs[(k / 8) as int] == b@[off + k / 8]);
                assert(bit == bits(k as int));
                assert(bit * p <= p) by (nonlinear_arith)
                    requires
                        bit <= 1,
                ;
            }
            acc = acc + bit * p;
            p = p * 2;
        }
        proof {
            lemma_bits_value_bound(bits, i * d, d as nat);
        }
        f.push((acc % m) as u16);
    }
    assert(f@ =~= byte_decode(bs, d as nat));
    f
}

/// Compress_d applied to every coefficient.
pub fn poly_compress_exec(f: &Vec<u16>, d: u32) -> (g: Vec<u16>)
    requires
        poly_wf(f@),
        valid_width(d as nat),
        d < 12,
    ensures
        g@ == poly_compress(f@, d as nat),
        fits(g@, d as nat),
{
    let p = pow2_exec(d);
    proof {
        vstd::arithmetic::power2::lemma_pow2_pos(d as nat);
    }
    let mut g: Vec<u16> = Vec::new();
    for i in 0..256usize
        invariant
            poly_wf(f@),
            valid_width(d as nat),
            d < 12,
            p == pow2(d as nat),
            p <= 4096,
            p > 0,
            g@.len() == i,
            forall|ii: int| 0 <= ii < i ==> #[trigger] g@[ii] == compress(f@[ii], d as nat) && (
            g@[ii] as nat) < pow2(d as nat),
    {
        let x = f[i] as u32;
        assert(x * p <= 3329 * 4096) by (nonlinear_arith)
            requires
                x < 3329,
                p <= 4096,
        ;
        let y = ((x * p + 1664) / 3329) % p;
        g.push(y as u16);
    }
    assert(g@ =~= poly_compress(f@, d as nat));
    g
}

/// Decompress_d applied to every coefficient.
pub fn poly_decompress_exec(f: &Vec<u16>, d: u32) -> (g: Vec<u16>)
    requires
        fits(f@, d as nat),
        valid_width(d as nat),
        d < 12,
    ensures
        g@ == poly_decompress(f@, d as nat),
        poly_wf(g@),
{
    let p = pow2_exec(d);
    let h = pow2_exec(d - 1);
    proof {
        lemma_pow2_unfold(d as nat);
        lemma2_to64();
        vstd::arithmetic::power2::lemma_pow2_strictly_increases((d - 1) as nat, 11);
    }
    let mut g: Vec<u16> = Vec::new();
    for i in 0..256usize
        invariant
            fits(f@, d as nat),
            valid_width(d as nat),
            d < 12,
            p == pow2(d as nat),
            h == pow2((d - 1) as nat),
            p == 2 * h,
            h <= 1024,
            g@.len() == i,
            forall|ii: int| 0 <= ii < i ==> #[trigger] g@[ii] == decompress(f@[ii], d as nat) && g@[ii]
                < 3329,
    {
        let y = f[i] as u32;
        assert(y * 3329 + h < 3329 * p && y * 3329 <= 3329 * 4096) by (nonlinear_arith)
            requires
                y < p,
                p == 2 * h,
                h <= 1024,
        ;
        let r = (y * 3329 + h) / p;
        assert(r < 3329) by (nonlinear_arith)
            requires
                r == (y * 3329 + h) as int / (p as int),
                y * 3329 + h < 3329 * p,
                p > 0,
        ;
        g.push(r as u16);
    }
    assert(g@ =~= poly_decompress(f@, d as nat));
    g
}

/// Bit `t` of a `bits_value` sum of single bits is the `t`-th bit summed.
proof fn lemma_bits_value_bit(bits: spec_fn(int) -> nat, s: int, n: nat, t: nat)
    requires
        forall|k: int| #[trigger] bits(k) <= 1,
        t < n,
    ensures
        (bits_value(bits, s, n) / pow2(t)) % 2 == bits(s + t),
    decreases n,
{
    let prev = bits_value(bits, s, (n - 1) as nat);
    let b = bits(s + n - 1);
    lemma_bits_value_bound(bits, s, (n - 1) as nat);
    vstd::arithmetic::power2::lemma_pow2_pos(t);
    vstd::arithmetic::power2::lemma_pow2_pos((n - 1) as nat);
    if t == n - 1 {
        vstd::arithmetic::div_mod::lemma_fundamental_div_mod_converse(
            (prev + b * pow2((n - 1) as nat)) as int,
            pow2((n - 1) as nat) as int,
            b as int,
            prev as int,
        );
    } else {
        lemma_bits_value_bit(bits, s, (n - 1) as nat, t);
        let e = (n - 1 - t) as nat;
        vstd::arithmetic::power2::lemma_pow2_adds(t, e);
        assert(pow2((n - 1) as nat) == pow2(t) * pow2(e));
        let j = b * pow2(e);
        assert(b * pow2((n - 1) as nat) == j * pow2(t)) by (nonlinear_arith)
            requires
                pow2((n - 1) as nat) == pow2(t) * pow2(e),
                j == b * pow2(e),
        ;
        vstd::arithmetic::div_mod::lemma_hoist_over_denominator(prev as int, j as int, pow2(t));
        lemma_pow2_unfold(e);
        let w = b * pow2((e - 1) as nat);
        assert(j == 2 * w) by (nonlinear_arith)
            requires
                j == b * pow2(e),
                pow2(e) == 2 * pow2((e - 1) as nat),
                w == b * pow2((e - 1) as nat),
        ;
        vstd::arithmetic::div_mod::lemma_mod_multiples_vanish(w as int, prev as int / pow2(t) as int, 2);
    }
}

/// Summing the low `n` bits of `x` with their weights gives `x mod 2^n`.
proof fn lemma_bits_value_binary(bits: spec_fn(int) -> nat, s: int, n: nat, x: nat)
    requires
        forall|t: nat| t < n ==> #[trigger] bits(s + t) == (x / pow2(t)) % 2,
    ensures
        bits_value(bits, s, n) == x % pow2(n),
    decreases n,
{
    if n == 0 {
        lemma2_to64();
    } else {
        lemma_bits_value_binary(bits, s, (n - 1) as nat, x);
        let p = pow2((n - 1) as nat);
        vstd::arithmetic::power2::lemma_pow2_pos((n - 1) as nat);
        lemma_pow2_unfold(n);
        assert(bits(s + (n - 1) as nat) == (x / p) % 2);
        assert(s + (n - 1) as nat == s + n - 1);
        let bitv = (x / p) % 2;
        vstd::arithmetic::div_mod::lemma_breakdown(x as int, p as int, 2);
        assert(p * 2 == pow2(n));
        assert(bitv * p == p * bitv) by (nonlinear_arith);
        assert(bits_value(bits, s, n) == x % p + bitv * p);
    }
}

/// Every bit of `ByteEncode_d(f)` is the corresponding coefficient bit.
proof fn lemma_encode_bit(f: Seq<u16>, d: nat, k: int)
    requires
        valid_width(d),
        0 <= k < 256 * d,
    ensures
        byte_bit(byte_encode(f, d), k) == coeff_bit(f, d, k),
{
    let bits = |kk: int| coeff_bit(f, d, kk);
    let j = k / 8;
    let t = k % 8;
    assert(0 <= j < 32 * d);
    lemma_bits_value_bound(bits, 8 * j, 8);
    lemma2_to64();
    assert(byte_encode(f, d)[j] as nat == bits_value(bits, 8 * j, 8));
    lemma_bits_value_bit(bits, 8 * j, 8, t as nat);
    assert(8 * j + t == k);
}

/// ByteDecode_d inverts ByteEncode_d on coefficients that fit in `d` bits
/// (below `q` for `d = 12`).
pub proof fn lemma_decode_encode(f: Seq<u16>, d: nat)
    requires
        valid_width(d),
        fits(f, d),
    ensures
        byte_decode(byte_encode(f, d), d) == f,
{
    let e = byte_encode(f, d);
    let bb = |k: int| byte_bit(e, k);
    lemma2_to64();
    assert forall|i: int| 0 <= i < 256 implies #[trigger] byte_decode(e, d)[i] == f[i] by {
        assert forall|t: nat| t < d implies #[trigger] bb(i * d + t) == (f[i] as nat / pow2(t)) % 2 by {
            assert(0 <= i * d + t < 256 * d) by (nonlinear_arith)
                requires
                    0 <= i < 256,
                    t < d,
            ;
            lemma_encode_bit(f, d, i * d + t);
            vstd::arithmetic::div_mod::lemma_fundamental_div_mod_converse(
                i * d + t,
                d as int,
                i,
                t as int,
            );
        }
        lemma_bits_value_binary(bb, i * d, d, f[i] as nat);
        assert((f[i] as nat) < pow2(d)) by {
            if d == 12 {
                assert(pow2(12) == 4096);
            }
        }
        vstd::arithmetic::div_mod::lemma_small_mod(f[i] as nat, pow2(d));
        vstd::arithmetic::div_mod::lemma_small_mod(f[i] as nat, decode_modulus(d));
    }
    assert(byte_decode(e, d) =~= f);
}

/// The value of the `i`-th group of `d` bits of `b`, before reduction.
pub open spec fn group_value(b: Seq<u8>, d: nat, i: int) -> nat {
    bits_value(|k: int| byte_bit(b, k), i * d, d)
}

/// Every `d`-bit group of `b` is below the decoding modulus, so that decoding
/// reduces nothing. Only `d = 12` can fail this: a group may hold 3329..4095.
pub open spec fn canonical(b: Seq<u8>, d: nat) -> bool {
    forall|i: int| 0 <= i < 256 ==> #[trigger] group_value(b, d, i) < decode_modulus(d)
}

/// ByteEncode_d inverts ByteDecode_d on `32 d` bytes whose groups are all
/// below the decoding modulus.
pub proof fn lemma_encode_decode(b: Seq<u8>, d: nat)
    requires
        valid_width(d),
        b.len() == 32 * d,
        canonical(b, d),
    ensures
        byte_encode(byte_decode(b, d), d) == b,
{
    let f = byte_decode(b, d);
    let bb = |k: int| byte_bit(b, k);
    let cb = |k: int| coeff_bit(f, d, k);
    lemma2_to64();
    assert forall|k: int| #[trigger] bb(k) <= 1 by {}
    assert forall|k: int| 0 <= k < 256 * d implies #[trigger] cb(k) == bb(k) by {
        let i = k / (d as int);
        let t = k % (d as int);
        vstd::arithmetic::div_mod::lemma_fundamental_div_mod(k, d as int);
        assert(0 <= i < 256) by {
            vstd::arithmetic::div_mod::lemma_div_by_multiple_is_strongly_ordered(k, 256 * d as int, 256, d as int);
        }
        assert(group_value(b, d, i) < decode_modulus(d));
        vstd::arithmetic::div_mod::lemma_small_mod(group_value(b, d, i), decode_modulus(d));
        assert(f[i] as nat == group_value(b, d, i));
        lemma_bits_value_bit(bb, i * d, d, t as nat);
        assert(i * d + t == k) by (nonlinear_arith)
            requires
                k == d * i + t,
        ;
    }
    assert forall|j: int| 0 <= j < 32 * d implies #[trigger] byte_encode(f, d)[j] == b[j] by {
        assert forall|t: nat| t < 8 implies #[trigger] cb(8 * j + t) == (b[j] as nat / pow2(t)) % 2 by {
            assert(0 <= 8 * j + t < 256 * d);
            vstd::arithmetic::div_mod::lemma_fundamental_div_mod_converse(8 * j + t, 8, j, t as int);
        }
        lemma_bits_value_binary(cb, 8 * j, 8, b[j] as nat);
        vstd::arithmetic::div_mod::lemma_small_mod(b[j] as nat, 256);
    }
    assert(byte_encode(f, d) =~= b);
}

/// Compress_d undoes Decompress_d.
pub proof fn lemma_compress_decompress(y: u16, d: nat)
    requires
        1 <= d <= 11,
        (y as nat) < pow2(d),
    ensures
        compress(decompress(y, d), d) == y,
{
    let dd = pow2(d) as int;
    let h = pow2((d - 1) as nat) as int;
    lemma_pow2_unfold(d);
    lemma2_to64();
    vstd::arithmetic::power2::lemma_pow2_strictly_increases((d - 1) as nat, 11);
    if d < 11 {
        vstd::arithmetic::power2::lemma_pow2_strictly_increases(d, 11);
    }
    assert(dd == 2 * h && 1 <= h <= 1024 && dd <= 2048);
    let num = y * 3329 + h;
    vstd::arithmetic::div_mod::lemma_fundamental_div_mod(num, dd);
    vstd::arithmetic::div_mod::lemma_mod_bound(num, dd);
    let x = num / dd;
    let r = num % dd;
    assert(x < 3329) by (nonlinear_arith)
        requires
            num == dd * x + r,
            0 <= r,
            num == y * 3329 + h,
            y < dd,
            dd == 2 * h,
            h <= 1024,
            dd > 0,
    ;
    assert(0 <= x) by (nonlinear_arith)
        requires
            num == dd * x + r,
            r < dd,
            num >= 0,
            dd > 0,
    ;
    assert(decompress(y, d) as int == x);
    assert(x * dd + 1664 == y * 3329 + (h - r + 1664)) by (nonlinear_arith)
        requires
            num == dd * x + r,
            num == y * 3329 + h,
    ;
    vstd::arithmetic::div_mod::lemma_fundamental_div_mod_converse(x * dd + 1664, 3329, y as int, h - r + 1664);
    vstd::arithmetic::div_mod::lemma_small_mod(y as nat, dd as nat);
}

/// Compressed coefficients fit in `d` bits.
pub proof fn lemma_compress_fits(f: Seq<u16>, d: nat)
    requires
        1 <= d <= 11,
    ensures
        fits(poly_compress(f, d), d),
{
    lemma2_to64();
    vstd::arithmetic::power2::lemma_pow2_pos(d);
    if d < 11 {
        vstd::arithmetic::power2::lemma_pow2_strictly_increases(d, 11);
    }
    assert forall|i: int| 0 <= i < 256 implies (#[trigger] poly_compress(f, d)[i] as nat) < decode_modulus(
        d,
    ) by {
        let x = (f[i] * pow2(d) + 1664) / 3329;
        vstd::arithmetic::div_mod::lemma_mod_bound(x, pow2(d) as int);
    }
}

/// Below twelve bits, every group is below the decoding modulus.
pub proof fn lemma_canonical_narrow(b: Seq<u8>, d: nat)
    requires
        d < 12,
    ensures
        canonical(b, d),
{
    assert forall|i: int| 0 <= i < 256 implies #[trigger] group_value(b, d, i) < decode_modulus(d) by {
        let bits = |k: int| byte_bit(b, k);
        assert forall|k: int| #[trigger] bits(k) <= 1 by {}
        lemma_bits_value_bound(bits, i * d, d);
    }
}

/// A decompressed bit plus noise whose centred value lies in `[-832, 831]`
/// compresses back to the bit.
pub proof fn lemma_decompress_bit(b: u16, n: u16)
    requires
        b < 2,
        n < 832 || 2497 <= n < 3329,
    ensures
        compress(fadd(decompress(b, 1), n), 1) == b,
{
    lemma2_to64();
    assert(pow2(1) == 2 && pow2(0) == 1);
    let w = fadd(decompress(b, 1), n) as int;
    if b == 0 {
        assert(decompress(b, 1) == 0);
    } else {
        assert(decompress(b, 1) == 1665);
    }
    assert(w == (decompress(b, 1) + n) % 3329);
    let t = (w * 2 + 1664) / 3329;
    vstd::arithmetic::div_mod::lemma_fundamental_div_mod(w * 2 + 1664, 3329);
    vstd::arithmetic::div_mod::lemma_fundamental_div_mod(decompress(b, 1) + n, 3329);
    if b == 0 {
        assert(t == 0 || t == 2);
    } else {
        assert(t == 1);
    }
}

/// Decompressing coefficients that fit in `d` bits gives reduced coefficients.
pub proof fn lemma_decompress_wf(f: Seq<u16>, d: nat)
    requires
        1 <= d <= 11,
        fits(f, d),
    ensures
        poly_wf(poly_decompress(f, d)),
{
    lemma2_to64();
    lemma_pow2_unfold(d);
    vstd::arithmetic::power2::lemma_pow2_strictly_increases((d - 1) as nat, 11);
    if d < 11 {
        vstd::arithmetic::power2::lemma_pow2_strictly_increases(d, 11);
    }
    let dd = pow2(d) as int;
    let h = pow2((d - 1) as nat) as int;
    assert(dd == 2 * h && 1 <= h <= 1024);
    assert forall|i: int| 0 <= i < 256 implies #[trigger] poly_decompress(f, d)[i] < 3329 by {
        let y = f[i] as int;
        assert(y < dd);
        let num = y * 3329 + h;
        assert(num < 3329 * dd) by (nonlinear_arith)
            requires
                y < dd,
                y >= 0,
                num == y * 3329 + h,
                h < 3329,
        ;
        vstd::arithmetic::div_mod::lemma_fundamental_div_mod(num, dd);
        vstd::arithmetic::div_mod::lemma_mod_bound(num, dd);
        let x = num / dd;
        assert(x < 3329) by (nonlinear_arith)
            requires
                num == dd * x + num % dd,
                num % dd >= 0,
                num < 3329 * dd,
                dd > 0,
        ;
        assert(x >= 0) by (nonlinear_arith)
            requires
                num == dd * x + num % dd,
                num % dd < dd,
                num >= 0,
                dd > 0,
        ;
    }
}

} // verus!
