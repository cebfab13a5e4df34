//! The number-theoretic transform of FIPS 203 (Algorithms 9, 10, 11, 12).
use vstd::prelude::*;
use crate::field::{fadd, field_add, field_mul, field_sub, fmul, fsub, lemma_cong, poly_add, poly_wf};

verus! {

/// `17^e mod q`.
pub open spec fn zeta_pow(e: nat) -> u16
    decreases e,
{
    if e == 0 {
        1
    } else {
        ((zeta_pow((e - 1) as nat) * 17) % 3329) as u16
    }
}

/// Reverses the `n` low bits of `i`, accumulating into `acc`.
pub open spec fn rev_bits(i: nat, n: nat, acc: nat) -> nat
    decreases n,
{
    if n == 0 {
        acc
    } else {
        rev_bits(i / 2, (n - 1) as nat, 2 * acc + i % 2)
    }
}

/// BitRev_7 of FIPS 203.
pub open spec fn bitrev7(i: nat) -> nat {
    rev_bits(i, 7, 0)
}

/// `zeta^BitRev7(i)`, the twiddle factor of butterfly block `i`.
pub open spec fn zeta(i: nat) -> u16 {
    zeta_pow(bitrev7(i))
}

/// `zeta^(2 BitRev7(i) + 1)`, the modulus of the `i`-th quadratic factor.
pub open spec fn gamma(i: nat) -> u16 {
    zeta_pow(2 * bitrev7(i) + 1)
}

/// Half-width of the butterflies in forward layer `l` (0..7).
pub open spec fn layer_len(l: int) -> int {
    if l == 0 {
        128
    } else if l == 1 {
        64
    } else if l == 2 {
        32
    } else if l == 3 {
        16
    } else if l == 4 {
        8
    } else if l == 5 {
        4
    } else {
        2
    }
}

/// Number of butterfly blocks in forward layer `l`, which is also the first
/// twiddle index used by that layer.
pub open spec fn layer_blocks(l: int) -> int {
    128int / layer_len(l)
}

/// One layer of the forward transform (the `len = layer_len(l)` iteration of Algorithm 9).
pub open spec fn ntt_layer(f: Seq<u16>, l: int) -> Seq<u16> {
    let len = layer_len(l);
    Seq::new(
        256,
        |i: int|
            {
                let z = zeta((layer_blocks(l) + i / (2 * len)) as nat);
                if i % (2 * len) < len {
                    fadd(f[i], fmul(z, f[i + len]))
                } else {
                    fsub(f[i - len], fmul(z, f[i]))
                }
            },
    )
}

/// The first `n` layers of the forward transform.
pub open spec fn ntt_layers(f: Seq<u16>, n: nat) -> Seq<u16>
    decreases n,
{
    if n == 0 {
        f
    } else {
        ntt_layer(ntt_layers(f, (n - 1) as nat), n - 1)
    }
}

/// NTT (Algorithm 9).
pub open spec fn ntt(f: Seq<u16>) -> Seq<u16> {
    ntt_layers(f, 7)
}

/// One layer of the inverse transform: layer `m` uses `len = layer_len(6 - m)`.
pub open spec fn inv_layer(f: Seq<u16>, m: int) -> Seq<u16> {
    let len = layer_len(6 - m);
    Seq::new(
        256,
        |i: int|
            {
                let z = zeta((2 * layer_blocks(6 - m) - 1 - i / (2 * len)) as nat);
                if i % (2 * len) < len {
                    fadd(f[i], f[i + len])
                } else {
                    fmul(z, fsub(f[i], f[i - len]))
                }
            },
    )
}

pub open spec fn inv_layers(f: Seq<u16>, n: nat) -> Seq<u16>
    decreases n,
{
    if n == 0 {
        f
    } else {
        inv_layer(inv_layers(f, (n - 1) as nat), n - 1)
    }
}

/// NTT^-1 (Algorithm 10): the seven inverse layers, then scaling by 128^-1 = 3303.
pub open spec fn inv_ntt(f: Seq<u16>) -> Seq<u16> {
    Seq::new(256, |i: int| fmul(inv_layers(f, 7)[i], 3303))
}

/// MultiplyNTTs (Algorithm 11) with BaseCaseMultiply (Algorithm 12) inlined.
pub open spec fn basemul(f: Seq<u16>, g: Seq<u16>) -> Seq<u16> {
    Seq::new(
        256,
        |i: int|
            {
                let j = i / 2;
                let a0 = f[2 * j];
                let a1 = f[2 * j + 1];
                let b0 = g[2 * j];
                let b1 = g[2 * j + 1];
                if i % 2 == 0 {
                    fadd(fmul(a0, b0), fmul(fmul(a1, b1), gamma(j as nat)))
                } else {
                    fadd(fmul(a0, b1), fmul(a1, b0))
                }
            },
    )
}

/// Computes `17^e mod q`.
fn zeta_pow_exec(e: u32) -> (r: u16)
    ensures
        r == zeta_pow(e as nat),
        r < 3329,
{
    let mut acc: u16 = 1;
    let mut i: u32 = 0;
    while i < e
        invariant
            i <= e,
            acc == zeta_pow(i as nat),
            acc < 3329,
        decreases e - i,
    {
        acc = ((acc as u32 * 17) % 3329) as u16;
        i = i + 1;
    }
    acc
}

/// `2^e` for `0 <= e <= 7`.
spec fn small_pow2(e: int) -> int {
    if e <= 0 {
        1
    } else if e == 1 {
        2
    } else if e == 2 {
        4
    } else if e == 3 {
        8
    } else if e == 4 {
        16
    } else if e == 5 {
        32
    } else if e == 6 {
        64
    } else {
        128
    }
}

/// Computes BitRev_7(i).
fn bitrev7_exec(i: u32) -> (r: u32)
    requires
        i < 128,
    ensures
        r == bitrev7(i as nat),
        r < 128,
{
    let mut x: u32 = i;
    let mut acc: u32 = 0;
    let mut n: u32 = 7;
    let mut p: u32 = 1;
    while n > 0
        invariant
            n <= 7,
            rev_bits(x as nat, n as nat, acc as nat) == bitrev7(i as nat),
            acc < p,
            p as int == small_pow2(7 - n),
        decreases n,
    {
        acc = 2 * acc + x % 2;
        x = x / 2;
        n = n - 1;
        p = 2 * p;
    }
    acc
}

/// Table of `zeta(i)` for `i < 128`.
pub fn zeta_table() -> (t: Vec<u16>)
    ensures
        t@.len() == 128,
        forall|i: int| 0 <= i < 128 ==> #[trigger] t@[i] == zeta(i as nat) && t@[i] < 3329,
{
    let mut t: Vec<u16> = Vec::new();
    for i in 0..128u32
        invariant
            t@.len() == i,
            forall|j: int| 0 <= j < i ==> #[trigger] t@[j] == zeta(j as nat) && t@[j] < 3329,
    {
        let e = bitrev7_exec(i);
        t.push(zeta_pow_exec(e));
    }
    t
}

/// Table of `gamma(i)` for `i < 128`.
pub fn gamma_table() -> (t: Vec<u16>)
    ensures
        t@.len() == 128,
        forall|i: int| 0 <= i < 128 ==> #[trigger] t@[i] == gamma(i as nat) && t@[i] < 3329,
{
    let mut t: Vec<u16> = Vec::new();
    for i in 0..128u32
        invariant
            t@.len() == i,
            forall|j: int| 0 <= j < i ==> #[trigger] t@[j] == gamma(j as nat) && t@[j] < 3329,
    {
        let e = bitrev7_exec(i);
        t.push(zeta_pow_exec(2 * e + 1));
    }
    t
}

/// Index facts for forward layer `l` (used with `l = 6 - m` for inverse layer `m`).
proof fn lemma_layer_index(l: int, i: int)
    requires
        0 <= l < 7,
        0 <= i < 256,
    ensures
        i % (2 * layer_len(l)) < layer_len(l) ==> i + layer_len(l) < 256,
        i % (2 * layer_len(l)) >= layer_len(l) ==> i - layer_len(l) >= 0,
        0 <= i / (2 * layer_len(l)) < layer_blocks(l),
        2 * layer_blocks(l) <= 128,
        layer_blocks(l) >= 1,
{
    let len = layer_len(l);
    let blocks = layer_blocks(l);
    assert(len > 0 && len * blocks == 128) by {
        if l == 0 {
            assert(layer_len(l) == 128 && layer_blocks(l) == 1);
        } else if l == 1 {
            assert(layer_len(l) == 64 && layer_blocks(l) == 2);
        } else if l == 2 {
            assert(layer_len(l) == 32 && layer_blocks(l) == 4);
        } else if l == 3 {
            assert(layer_len(l) == 16 && layer_blocks(l) == 8);
        } else if l == 4 {
            assert(layer_len(l) == 8 && layer_blocks(l) == 16);
        } else if l == 5 {
            assert(layer_len(l) == 4 && layer_blocks(l) == 32);
        } else {
            assert(layer_len(l) == 2 && layer_blocks(l) == 64);
        }
    }
    vstd::arithmetic::div_mod::lemma_fundamental_div_mod(i, 2 * len);
    vstd::arithmetic::div_mod::lemma_mod_bound(i, 2 * len);
    vstd::arithmetic::div_mod::lemma_div_pos_is_pos(i, 2 * len);
    let b = i / (2 * len);
    let r = i % (2 * len);
    assert(b < blocks && 2 * len * b + 2 * len <= 256 && blocks >= 1 && 2 * blocks <= 128) by (nonlinear_arith)
        requires
            i == 2 * len * b + r,
            0 <= r,
            0 <= b,
            i < 256,
            len * blocks == 128,
            len >= 2,
    ;
}

fn layer_len_exec(l: usize) -> (r: usize)
    requires
        l < 7,
    ensures
        r as int == layer_len(l as int),
        r as int * layer_blocks(l as int) == 128,
{
    if l == 0 {
        128
    } else if l == 1 {
        64
    } else if l == 2 {
        32
    } else if l == 3 {
        16
    } else if l == 4 {
        8
    } else if l == 5 {
        4
    } else {
        2
    }
}

pub open spec fn zeta_table_wf(zt: Seq<u16>) -> bool {
    &&& zt.len() == 128
    &&& forall|i: int| 0 <= i < 128 ==> #[trigger] zt[i] == zeta(i as nat) && zt[i] < 3329
}

pub open spec fn gamma_table_wf(gt: Seq<u16>) -> bool {
    &&& gt.len() == 128
    &&& forall|i: int| 0 <= i < 128 ==> #[trigger] gt[i] == gamma(i as nat) && gt[i] < 3329
}

fn ntt_layer_exec(f: &Vec<u16>, l: usize, zt: &Vec<u16>) -> (g: Vec<u16>)
    requires
        poly_wf(f@),
        l < 7,
        zeta_table_wf(zt@),
    ensures
        g@ == ntt_layer(f@, l as int),
        poly_wf(g@),
{
    let len = layer_len_exec(l);
    let blocks = 128 / len;
    let mut g: Vec<u16> = Vec::new();
    for i in 0..256usize
        invariant
            poly_wf(f@),
            l < 7,
            zeta_table_wf(zt@),
            len as int == layer_len(l as int),
            blocks as int == layer_blocks(l as int),
            g@.len() == i,
            forall|j: int| 0 <= j < i ==> #[trigger] g@[j] == ntt_layer(f@, l as int)[j] && g@[j] < 3329,
    {
        proof {
            lemma_layer_index(l as int, i as int);
        }
        let z = zt[blocks + i / (2 * len)];
        if i % (2 * len) < len {
            let t = field_mul(z, f[i + len]);
            g.push(field_add(f[i], t));
        } else {
            let t = field_mul(z, f[i]);
            g.push(field_sub(f[i - len], t));
        }
    }
    assert(g@ =~= ntt_layer(f@, l as int));
    g
}

fn inv_layer_exec(f: &Vec<u16>, m: usize, zt: &Vec<u16>) -> (g: Vec<u16>)
    requires
        poly_wf(f@),
        m < 7,
        zeta_table_wf(zt@),
    ensures
        g@ == inv_layer(f@, m as int),
        poly_wf(g@),
{
    let len = layer_len_exec(6 - m);
    let blocks = 128 / len;
    let mut g: Vec<u16> = Vec::new();
    for i in 0..256usize
        invariant
            poly_wf(f@),
            m < 7,
            zeta_table_wf(zt@),
            len as int == layer_len(6 - m),
            blocks as int == layer_blocks(6 - m),
            g@.len() == i,
            forall|j: int| 0 <= j < i ==> #[trigger] g@[j] == inv_layer(f@, m as int)[j] && g@[j] < 3329,
    {
        proof {
            lemma_layer_index(6 - m, i as int);
        }
        let z = zt[2 * blocks - 1 - i / (2 * len)];
        if i % (2 * len) < len {
            g.push(field_add(f[i], f[i + len]));
        } else {
            let d = field_sub(f[i], f[i - len]);
            g.push(field_mul(z, d));
        }
    }
    assert(g@ =~= inv_layer(f@, m as int));
    g
}

/// Copies a polynomial.
pub fn poly_copy(f: &Vec<u16>) -> (g: Vec<u16>)
    ensures
        g@ == f@,
{
    let mut g: Vec<u16> = Vec::new();
    for i in 0..f.len()
        invariant
            g@ == f@.take(i as int),
    {
        g.push(f[i]);
        assert(g@ =~= f@.take(i + 1));
    }
    assert(g@ =~= f@);
    g
}

/// NTT (Algorithm 9).
pub fn ntt_exec(f: &Vec<u16>, zt: &Vec<u16>) -> (g: Vec<u16>)
    requires
        poly_wf(f@),
        zeta_table_wf(zt@),
    ensures
        g@ == ntt(f@),
        poly_wf(g@),
{
    let mut g = poly_copy(f);
    for l in 0..7usize
        invariant
            zeta_table_wf(zt@),
            g@ == ntt_layers(f@, l as nat),
            poly_wf(g@),
    {
        g = ntt_layer_exec(&g, l, zt);
    }
    g
}

/// NTT^-1 (Algorithm 10).
pub fn inv_ntt_exec(f: &Vec<u16>, zt: &Vec<u16>) -> (g: Vec<u16>)
    requires
        poly_wf(f@),
        zeta_table_wf(zt@),
    ensures
        g@ == inv_ntt(f@),
        poly_wf(g@),
{
    let mut g = poly_copy(f);
    for m in 0..7usize
        invariant
            zeta_table_wf(zt@),
            g@ == inv_layers(f@, m as nat),
            poly_wf(g@),
    {
        g = inv_layer_exec(&g, m, zt);
    }
    let mut h: Vec<u16> = Vec::new();
    for i in 0..256usize
        invariant
            g@ == inv_layers(f@, 7),
            poly_wf(g@),
            h@.len() == i,
            forall|j: int| 0 <= j < i ==> #[trigger] h@[j] == fmul(g@[j], 3303) && h@[j] < 3329,
    {
        h.push(field_mul(g[i], 3303));
    }
    assert(h@ =~= inv_ntt(f@));
    h
}

/// MultiplyNTTs (Algorithm 11).
pub fn basemul_exec(f: &Vec<u16>, g: &Vec<u16>, gt: &Vec<u16>) -> (h: Vec<u16>)
    requires
        poly_wf(f@),
        poly_wf(g@),
        gamma_table_wf(gt@),
    ensures
        h@ == basemul(f@, g@),
        poly_wf(h@),
{
    let mut h: Vec<u16> = Vec::new();
    for i in 0..256usize
        invariant
            poly_wf(f@),
            poly_wf(g@),
            gamma_table_wf(gt@),
            h@.len() == i,
            forall|j: int| 0 <= j < i ==> #[trigger] h@[j] == basemul(f@, g@)[j] && h@[j] < 3329,
    {
        let j = i / 2;
        let a0 = f[2 * j];
        let a1 = f[2 * j + 1];
        let b0 = g[2 * j];
        let b1 = g[2 * j + 1];
        if i % 2 == 0 {
            let x = field_mul(a0, b0);
            let y = field_mul(a1, b1);
            let y = field_mul(y, gt[j]);
            h.push(field_add(x, y));
        } else {
            let x = field_mul(a0, b1);
            let y = field_mul(a1, b0);
            h.push(field_add(x, y));
        }
    }
    assert(h@ =~= basemul(f@, g@));
    h
}

/// `17^(a + b) = 17^a * 17^b mod q`.
proof fn lemma_zeta_pow_add(a: nat, b: nat)
    ensures
        zeta_pow(a + b) == (zeta_pow(a) * zeta_pow(b)) % 3329,
    decreases b,
{
    if b == 0 {
        assert(zeta_pow(0) == 1);
        assert(zeta_pow(a) < 3329) by {
            lemma_zeta_pow_lt(a);
        }
        vstd::arithmetic::div_mod::lemma_small_mod(zeta_pow(a) as nat, 3329);
    } else {
        lemma_zeta_pow_add(a, (b - 1) as nat);
        let x = zeta_pow(a) as int;
        let y = zeta_pow((b - 1) as nat) as int;
        assert(zeta_pow(a + b) == ((zeta_pow((a + b - 1) as nat) * 17) % 3329) as u16);
        assert(a + b - 1 == a + (b - 1) as nat);
        // ((x * y % q) * 17) % q == (x * (y * 17 % q)) % q
        vstd::arithmetic::div_mod::lemma_mul_mod_noop_left(x * y, 17, 3329);
        vstd::arithmetic::div_mod::lemma_mul_mod_noop_right(x, y * 17, 3329);
        assert(x * y * 17 == x * (y * 17)) by (nonlinear_arith);
    }
}

proof fn lemma_zeta_pow_lt(e: nat)
    ensures
        zeta_pow(e) < 3329,
    decreases e,
{
    if e > 0 {
        lemma_zeta_pow_lt((e - 1) as nat);
    }
}

/// `17^128 = -1 mod q`: 17 is a primitive 256-th root of unity.
proof fn lemma_zeta_pow_128()
    ensures
        zeta_pow(128) == 3328,
{
    assert(zeta_pow(1) == 17) by {
        assert(zeta_pow(0) == 1);
    }
    lemma_zeta_pow_add(1, 1);
    assert(zeta_pow(2) == 289);
    lemma_zeta_pow_add(2, 2);
    assert(zeta_pow(4) == 296);
    lemma_zeta_pow_add(4, 4);
    assert(zeta_pow(8) == 1062);
    lemma_zeta_pow_add(8, 8);
    assert(zeta_pow(16) == 2642);
    lemma_zeta_pow_add(16, 16);
    assert(zeta_pow(32) == 2580);
    lemma_zeta_pow_add(32, 32);
    assert(zeta_pow(64) == 1729);
    lemma_zeta_pow_add(64, 64);
}

spec fn rev(i: nat, n: nat) -> nat {
    rev_bits(i, n, 0)
}

/// Reversal with an accumulator shifts the accumulator past the reversed bits.
proof fn lemma_rev_bits_acc(i: nat, n: nat, acc: nat)
    ensures
        rev_bits(i, n, acc) == acc * vstd::arithmetic::power2::pow2(n) + rev(i, n),
    decreases n,
{
    vstd::arithmetic::power2::lemma2_to64();
    if n == 0 {
        let p0 = vstd::arithmetic::power2::pow2(0);
        assert(acc * p0 == acc) by (nonlinear_arith)
            requires
                p0 == 1,
        ;
    } else {
        lemma_rev_bits_acc(i / 2, (n - 1) as nat, 2 * acc + i % 2);
        lemma_rev_bits_acc(i / 2, (n - 1) as nat, i % 2);
        vstd::arithmetic::power2::lemma_pow2_unfold(n);
        let p = vstd::arithmetic::power2::pow2((n - 1) as nat);
        assert(rev_bits(i, n, acc) == rev_bits(i / 2, (n - 1) as nat, 2 * acc + i % 2));
        assert(rev(i, n) == rev_bits(i / 2, (n - 1) as nat, i % 2)) by {
            assert(rev_bits(i, n, 0) == rev_bits(i / 2, (n - 1) as nat, 2 * 0 + i % 2));
            assert(2 * 0 + i % 2 == i % 2);
        }
        let pn = vstd::arithmetic::power2::pow2(n);
        assert((2 * acc + i % 2) * p == acc * pn + (i % 2) * p) by (nonlinear_arith)
            requires
                pn == 2 * p,
        ;
        assert(rev_bits(i / 2, (n - 1) as nat, 2 * acc + i % 2) == (2 * acc + i % 2) * p + rev(
            i / 2,
            (n - 1) as nat,
        ));
        assert(rev_bits(i / 2, (n - 1) as nat, i % 2) == (i % 2) * p + rev(i / 2, (n - 1) as nat));
    }
}

/// Reversing `n` bits puts the lowest bit at position `n - 1`.
proof fn lemma_rev_step(i: nat, n: nat)
    requires
        n > 0,
    ensures
        rev(i, n) == (i % 2) * vstd::arithmetic::power2::pow2((n - 1) as nat) + rev(i / 2, (n - 1) as nat),
{
    assert(rev(i, n) == rev_bits(i / 2, (n - 1) as nat, 2 * 0 + i % 2));
    assert(2 * 0 + i % 2 == i % 2);
    lemma_rev_bits_acc(i / 2, (n - 1) as nat, i % 2);
}

/// `rev(B + b) + rev(2B - 1 - b) = 2^n` for `B = 2^l`, `b < B`, `l < n`.
proof fn lemma_rev_pair(l: nat, b: nat, n: nat)
    requires
        l < n,
        b < vstd::arithmetic::power2::pow2(l),
    ensures
        rev(vstd::arithmetic::power2::pow2(l) + b, n) + rev(
            (2 * vstd::arithmetic::power2::pow2(l) - 1 - b) as nat,
            n,
        ) == vstd::arithmetic::power2::pow2(n),
    decreases l,
{
    let bb = vstd::arithmetic::power2::pow2(l);
    let i = bb + b;
    let j = (2 * bb - 1 - b) as nat;
    let p = vstd::arithmetic::power2::pow2((n - 1) as nat);
    vstd::arithmetic::power2::lemma2_to64();
    vstd::arithmetic::power2::lemma_pow2_unfold(n);
    assert(vstd::arithmetic::power2::pow2(n) == 2 * p);
    lemma_rev_step(i, n);
    lemma_rev_step(j, n);
    if l == 0 {
        assert(bb == 1);
        assert(i == 1 && j == 1);
        lemma_rev_zero((n - 1) as nat);
        assert(i % 2 == 1 && i / 2 == 0);
        assert((i % 2) * p == p) by (nonlinear_arith)
            requires
                i % 2 == 1,
        ;
    } else {
        vstd::arithmetic::power2::lemma_pow2_unfold(l);
        let half = vstd::arithmetic::power2::pow2((l - 1) as nat);
        assert(bb == 2 * half);
        assert(i / 2 == half + b / 2);
        assert(j / 2 == (2 * half - 1 - b / 2) as nat);
        assert(i % 2 + j % 2 == 1);
        lemma_rev_pair((l - 1) as nat, b / 2, (n - 1) as nat);
        assert(rev(i / 2, (n - 1) as nat) + rev(j / 2, (n - 1) as nat) == p);
        assert((i % 2) * p + (j % 2) * p == p) by (nonlinear_arith)
            requires
                i % 2 + j % 2 == 1,
        ;
    }
}

proof fn lemma_rev_zero(n: nat)
    ensures
        rev(0, n) == 0,
    decreases n,
{
    if n > 0 {
        lemma_rev_bits_acc(0, (n - 1) as nat, 0);
        lemma_rev_zero((n - 1) as nat);
    }
}

/// Multiplies every coefficient by `c` modulo q.
pub open spec fn poly_scale(f: Seq<u16>, c: u16) -> Seq<u16> {
    Seq::new(256, |i: int| fmul(f[i], c))
}

proof fn lemma_layer_blocks_pow2(l: int)
    requires
        0 <= l < 7,
    ensures
        layer_blocks(l) == vstd::arithmetic::power2::pow2(l as nat),
        layer_len(l) * layer_blocks(l) == 128,
{
    vstd::arithmetic::power2::lemma2_to64();
}

/// The twiddles of a forward block and of the inverse block that undoes it
/// multiply to -1 modulo q.
proof fn lemma_zeta_pair(l: int, b: int)
    requires
        0 <= l < 7,
        0 <= b < layer_blocks(l),
    ensures
        (zeta((layer_blocks(l) + b) as nat) * zeta((2 * layer_blocks(l) - 1 - b) as nat)) % 3329 == 3328,
{
    lemma_layer_blocks_pow2(l);
    vstd::arithmetic::power2::lemma2_to64();
    lemma_rev_pair(l as nat, b as nat, 7);
    let i = (layer_blocks(l) + b) as nat;
    let j = (2 * layer_blocks(l) - 1 - b) as nat;
    assert(bitrev7(i) + bitrev7(j) == 128);
    lemma_zeta_pow_add(bitrev7(i), bitrev7(j));
    lemma_zeta_pow_128();
}

/// Index facts for the butterfly partner of `i` in forward layer `l`.
proof fn lemma_partner(l: int, i: int)
    requires
        0 <= l < 7,
        0 <= i < 256,
    ensures
        ({
            let len = layer_len(l);
            let b = i / (2 * len);
            let pos = i % (2 * len);
            &&& pos < len ==> (i + len) / (2 * len) == b && (i + len) % (2 * len) == pos + len
            &&& pos >= len ==> (i - len) / (2 * len) == b && (i - len) % (2 * len) == pos - len
        }),
{
    let len = layer_len(l);
    lemma_layer_index(l, i);
    vstd::arithmetic::div_mod::lemma_fundamental_div_mod(i, 2 * len);
    vstd::arithmetic::div_mod::lemma_mod_bound(i, 2 * len);
    let b = i / (2 * len);
    let pos = i % (2 * len);
    assert(b * (2 * len) == (2 * len) * b) by (nonlinear_arith);
    if pos < len {
        vstd::arithmetic::div_mod::lemma_fundamental_div_mod_converse(i + len, 2 * len, b, pos + len);
    } else {
        vstd::arithmetic::div_mod::lemma_fundamental_div_mod_converse(i - len, 2 * len, b, pos - len);
    }
}

/// `((x mod q) + (y mod q)) mod q`, `((x mod q) - (y mod q)) mod q` and
/// `(x * (y mod q)) mod q` reduce as in the integers.
proof fn lemma_mod_ops(x: int, y: int)
    ensures
        ((x % 3329) + (y % 3329)) % 3329 == (x + y) % 3329,
        ((x % 3329) - (y % 3329)) % 3329 == (x - y) % 3329,
        (x * (y % 3329)) % 3329 == (x * y) % 3329,
        ((x % 3329) * y) % 3329 == (x * y) % 3329,
{
    vstd::arithmetic::div_mod::lemma_add_mod_noop(x, y, 3329);
    vstd::arithmetic::div_mod::lemma_sub_mod_noop(x, y, 3329);
    vstd::arithmetic::div_mod::lemma_mul_mod_noop_right(x, y, 3329);
    vstd::arithmetic::div_mod::lemma_mul_mod_noop_left(x, y, 3329);
}

/// Inverse layer `6 - l` undoes forward layer `l`, up to a factor of 2.
proof fn lemma_inv_layer_undoes(x: Seq<u16>, l: int)
    requires
        poly_wf(x),
        0 <= l < 7,
    ensures
        inv_layer(ntt_layer(x, l), 6 - l) == poly_scale(x, 2),
{
    let g = ntt_layer(x, l);
    let len = layer_len(l);
    let blocks = layer_blocks(l);
    assert(layer_len(6 - (6 - l)) == len);
    assert forall|i: int| 0 <= i < 256 implies #[trigger] inv_layer(g, 6 - l)[i] == poly_scale(x, 2)[i] by {
        lemma_layer_index(l, i);
        lemma_partner(l, i);
        let b = i / (2 * len);
        let pos = i % (2 * len);
        lemma_zeta_pair(l, b);
        let z = zeta((blocks + b) as nat) as int;
        let zi = zeta((2 * blocks - 1 - b) as nat) as int;
        if pos < len {
            let a = x[i] as int;
            let t = fmul(zeta((blocks + b) as nat), x[i + len]) as int;
            assert(g[i] as int == (a + t) % 3329);
            assert(g[i + len] as int == (a - t) % 3329);
            lemma_mod_ops(a + t, a - t);
            assert(inv_layer(g, 6 - l)[i] as int == (g[i] + g[i + len]) % 3329);
        } else {
            let a = x[i - len] as int;
            let bb = x[i] as int;
            let t = (z * bb) % 3329;
            assert(fmul(zeta((blocks + b) as nat), x[i]) as int == t);
            assert(g[i] as int == (a - t) % 3329);
            assert(g[i - len] as int == (a + t) % 3329);
            lemma_mod_ops(a - t, a + t);
            let d = (-2 * t) % 3329;
            assert(fsub(g[i], g[i - len]) as int == d);
            // zi * ((-2 t) mod q) = -2 zi z bb = 2 bb (mod q)
            lemma_mod_ops(zi, -2 * t);
            lemma_mod_ops(-2 * zi, z * bb);
            assert(zi * (-2 * t) == (-2 * zi) * t) by (nonlinear_arith);
            assert((-2 * zi) * (z * bb) == (z * zi) * (-2 * bb)) by (nonlinear_arith);
            lemma_mod_ops(z * zi, -2 * bb);
            assert(((z * zi) % 3329) * (-2 * bb) == 3328 * (-2 * bb));
            assert(3328 * (-2 * bb) == 3329 * (-2 * bb) + 2 * bb);
            vstd::arithmetic::div_mod::lemma_mod_multiples_vanish(-2 * bb, 2 * bb, 3329);
            assert(inv_layer(g, 6 - l)[i] as int == (zi * d) % 3329);
            assert(bb * 2 == 2 * bb);
        }
    }
    assert(inv_layer(g, 6 - l) =~= poly_scale(x, 2));
}

/// Inverse layers commute with scaling.
proof fn lemma_inv_layer_scale(x: Seq<u16>, m: int, c: u16)
    requires
        x.len() == 256,
        0 <= m < 7,
        c < 3329,
    ensures
        inv_layer(poly_scale(x, c), m) == poly_scale(inv_layer(x, m), c),
{
    let l = 6 - m;
    let len = layer_len(l);
    let y = poly_scale(x, c);
    assert forall|i: int| 0 <= i < 256 implies #[trigger] inv_layer(y, m)[i] == poly_scale(
        inv_layer(x, m),
        c,
    )[i] by {
        lemma_layer_index(l, i);
        let b = i / (2 * len);
        let pos = i % (2 * len);
        let cc = c as int;
        if pos < len {
            let xi = x[i] as int;
            let xj = x[i + len] as int;
            lemma_mod_ops(xi * cc, xj * cc);
            lemma_mod_ops(xi + xj, cc);
            assert(xi * cc + xj * cc == (xi + xj) * cc) by (nonlinear_arith);
        } else {
            let xi = x[i] as int;
            let xj = x[i - len] as int;
            let z = zeta((2 * layer_blocks(l) - 1 - b) as nat) as int;
            lemma_mod_ops(xi * cc, xj * cc);
            lemma_mod_ops(z, xi * cc - xj * cc);
            lemma_mod_ops(z, xi - xj);
            lemma_mod_ops(z * (xi - xj), cc);
            assert(z * (xi * cc - xj * cc) == (z * (xi - xj)) * cc) by (nonlinear_arith);
        }
    }
    assert(inv_layer(y, m) =~= poly_scale(inv_layer(x, m), c));
}

proof fn lemma_scale_scale(x: Seq<u16>, a: u16, b: u16)
    requires
        x.len() == 256,
        a < 3329,
        b < 3329,
        a * b < 3329,
    ensures
        poly_scale(poly_scale(x, a), b) == poly_scale(x, (a * b) as u16),
{
    assert forall|i: int| 0 <= i < 256 implies #[trigger] poly_scale(poly_scale(x, a), b)[i]
        == poly_scale(x, (a * b) as u16)[i] by {
        let xi = x[i] as int;
        lemma_mod_ops(xi * a, b as int);
        assert(xi * a * b == xi * (a * b)) by (nonlinear_arith);
    }
    assert(poly_scale(poly_scale(x, a), b) =~= poly_scale(x, (a * b) as u16));
}

proof fn lemma_ntt_layers_wf(f: Seq<u16>, n: nat)
    requires
        poly_wf(f),
    ensures
        poly_wf(ntt_layers(f, n)),
    decreases n,
{
    if n > 0 {
        lemma_ntt_layers_wf(f, (n - 1) as nat);
    }
}

/// After `n` inverse layers, the forward transform is undone down to layer
/// `7 - n`, scaled by `2^n`.
proof fn lemma_inv_layers_ntt(f: Seq<u16>, n: nat)
    requires
        poly_wf(f),
        n <= 7,
    ensures
        inv_layers(ntt(f), n) == poly_scale(
            ntt_layers(f, (7 - n) as nat),
            vstd::arithmetic::power2::pow2(n) as u16,
        ),
    decreases n,
{
    vstd::arithmetic::power2::lemma2_to64();
    if n == 0 {
        lemma_ntt_layers_wf(f, 7);
        let g = ntt_layers(f, 7);
        assert forall|i: int| 0 <= i < 256 implies #[trigger] poly_scale(g, 1)[i] == g[i] by {
            vstd::arithmetic::div_mod::lemma_small_mod(g[i] as nat, 3329);
        }
        assert(poly_scale(g, 1) =~= g);
    } else {
        lemma_inv_layers_ntt(f, (n - 1) as nat);
        let c = vstd::arithmetic::power2::pow2((n - 1) as nat) as u16;
        vstd::arithmetic::power2::lemma_pow2_unfold(n);
        let w = ntt_layers(f, (7 - n) as nat);
        let y = ntt_layers(f, (8 - n) as nat);
        lemma_ntt_layers_wf(f, (7 - n) as nat);
        lemma_ntt_layers_wf(f, (8 - n) as nat);
        assert(y == ntt_layer(w, 7 - n));
        lemma_inv_layer_scale(y, n - 1, c);
        lemma_inv_layer_undoes(w, 7 - n);
        assert(6 - (7 - n) == n - 1);
        lemma_scale_scale(w, 2, c);
        assert((2 * c) as u16 == vstd::arithmetic::power2::pow2(n) as u16);
    }
}

/// NTT^-1 inverts NTT on polynomials with reduced coefficients.
pub proof fn lemma_inv_ntt_ntt(f: Seq<u16>)
    requires
        poly_wf(f),
    ensures
        inv_ntt(ntt(f)) == f,
{
    lemma_inv_layers_ntt(f, 7);
    vstd::arithmetic::power2::lemma2_to64();
    let g = inv_layers(ntt(f), 7);
    assert forall|i: int| 0 <= i < 256 implies #[trigger] inv_ntt(ntt(f))[i] == f[i] by {
        let fi = f[i] as int;
        assert(g[i] as int == (fi * 128) % 3329);
        lemma_mod_ops(fi * 128, 3303);
        assert(fi * 128 * 3303 == 3329 * (127 * fi) + fi) by (nonlinear_arith);
        vstd::arithmetic::div_mod::lemma_mod_multiples_vanish(127 * fi, fi, 3329);
        vstd::arithmetic::div_mod::lemma_small_mod(fi as nat, 3329);
    }
    assert(inv_ntt(ntt(f)) =~= f);
}

/// Forward layer `l` undoes inverse layer `6 - l`, up to a factor of 2.
proof fn lemma_ntt_layer_undoes(x: Seq<u16>, l: int)
    requires
        poly_wf(x),
        0 <= l < 7,
    ensures
        ntt_layer(inv_layer(x, 6 - l), l) == poly_scale(x, 2),
{
    let g = inv_layer(x, 6 - l);
    let len = layer_len(l);
    let blocks = layer_blocks(l);
    assert(layer_len(6 - (6 - l)) == len);
    assert forall|i: int| 0 <= i < 256 implies #[trigger] ntt_layer(g, l)[i] == poly_scale(x, 2)[i] by {
        lemma_layer_index(l, i);
        lemma_partner(l, i);
        let b = i / (2 * len);
        let pos = i % (2 * len);
        lemma_zeta_pair(l, b);
        let z = zeta((blocks + b) as nat) as int;
        let zi = zeta((2 * blocks - 1 - b) as nat) as int;
        let xi = x[i] as int;
        lemma_mod_ops(z * zi, 1);
        if pos < len {
            let xj = x[i + len] as int;
            let s = (xi + xj) % 3329;
            let e = (zi * ((xj - xi) % 3329)) % 3329;
            assert(g[i] as int == s);
            assert(g[i + len] as int == e);
            lemma_mod_ops(zi, xj - xi);
            // z * e = z * zi * (xj - xi) = -(xj - xi) (mod q)
            lemma_mod_ops(z, zi * (xj - xi));
            assert(z * (zi * (xj - xi)) == (z * zi) * (xj - xi)) by (nonlinear_arith);
            lemma_mod_ops(z * zi, xj - xi);
            assert(3328 * (xj - xi) == 3329 * (xj - xi) + (xi - xj));
            vstd::arithmetic::div_mod::lemma_mod_multiples_vanish(xj - xi, xi - xj, 3329);
            let t = (z * e) % 3329;
            assert(t == (xi - xj) % 3329);
            assert(fmul(zeta((blocks + b) as nat), g[i + len]) as int == t);
            lemma_mod_ops(xi + xj, xi - xj);
            assert(ntt_layer(g, l)[i] as int == (s + t) % 3329);
            assert(xi + xj + (xi - xj) == xi * 2);
        } else {
            let xj = x[i - len] as int;
            let s = (xj + xi) % 3329;
            let e = (zi * ((xi - xj) % 3329)) % 3329;
            assert(g[i - len] as int == s);
            assert(g[i] as int == e);
            lemma_mod_ops(zi, xi - xj);
            lemma_mod_ops(z, zi * (xi - xj));
            assert(z * (zi * (xi - xj)) == (z * zi) * (xi - xj)) by (nonlinear_arith);
            lemma_mod_ops(z * zi, xi - xj);
            assert(3328 * (xi - xj) == 3329 * (xi - xj) + (xj - xi));
            vstd::arithmetic::div_mod::lemma_mod_multiples_vanish(xi - xj, xj - xi, 3329);
            let t = (z * e) % 3329;
            assert(t == (xj - xi) % 3329);
            assert(fmul(zeta((blocks + b) as nat), g[i]) as int == t);
            lemma_mod_ops(xj + xi, xj - xi);
            assert(ntt_layer(g, l)[i] as int == (s - t) % 3329);
            assert(xj + xi - (xj - xi) == xi * 2);
        }
    }
    assert(ntt_layer(g, l) =~= poly_scale(x, 2));
}

/// `(a c) + z (b c) = (a + z b) c (mod q)`, with the reductions of the butterfly.
proof fn lemma_butterfly_scale(a: int, bv: int, z: int, c: int, sign: int)
    requires
        sign == 1 || sign == -1,
    ensures
        (((a * c) % 3329) + sign * ((z * ((bv * c) % 3329)) % 3329)) % 3329 == (((a + sign * ((z
            * bv) % 3329)) % 3329) * c) % 3329,
{
    let w = (z * bv) % 3329;
    // left side
    vstd::arithmetic::div_mod::lemma_mul_mod_noop_right(z, bv * c, 3329);
    assert(z * (bv * c) == (z * bv) * c) by (nonlinear_arith);
    vstd::arithmetic::div_mod::lemma_mul_mod_noop_left(z * bv, c, 3329);
    // (z * ((bv c) % q)) % q == (w * c) % q
    if sign == 1 {
        vstd::arithmetic::div_mod::lemma_add_mod_noop(a * c, w * c, 3329);
    } else {
        vstd::arithmetic::div_mod::lemma_sub_mod_noop(a * c, w * c, 3329);
    }
    // right side
    vstd::arithmetic::div_mod::lemma_mul_mod_noop_left(a + sign * w, c, 3329);
    assert((a + sign * w) * c == a * c + sign * (w * c)) by (nonlinear_arith)
        requires
            sign == 1 || sign == -1,
    ;
}

/// Forward layers commute with scaling.
#[verifier::rlimit(30)]
proof fn lemma_ntt_layer_scale(x: Seq<u16>, l: int, c: u16)
    requires
        x.len() == 256,
        0 <= l < 7,
        c < 3329,
    ensures
        ntt_layer(poly_scale(x, c), l) == poly_scale(ntt_layer(x, l), c),
{
    let len = layer_len(l);
    let y = poly_scale(x, c);
    assert forall|i: int| 0 <= i < 256 implies #[trigger] ntt_layer(y, l)[i] == poly_scale(
        ntt_layer(x, l),
        c,
    )[i] by {
        lemma_layer_index(l, i);
        let b = i / (2 * len);
        let pos = i % (2 * len);
        let z = zeta((layer_blocks(l) + b) as nat) as int;
        if pos < len {
            lemma_butterfly_scale(x[i] as int, x[i + len] as int, z, c as int, 1);
        } else {
            lemma_butterfly_scale(x[i - len] as int, x[i] as int, z, c as int, -1);
        }
    }
    assert(ntt_layer(y, l) =~= poly_scale(ntt_layer(x, l), c));
}

proof fn lemma_ntt_layers_scale(x: Seq<u16>, n: nat, c: u16)
    requires
        x.len() == 256,
        n <= 7,
        c < 3329,
    ensures
        ntt_layers(poly_scale(x, c), n) == poly_scale(ntt_layers(x, n), c),
    decreases n,
{
    if n > 0 {
        lemma_ntt_layers_scale(x, (n - 1) as nat, c);
        lemma_ntt_layer_scale(ntt_layers(x, (n - 1) as nat), n - 1, c);
    }
}

proof fn lemma_inv_layers_wf(f: Seq<u16>, n: nat)
    requires
        poly_wf(f),
    ensures
        poly_wf(inv_layers(f, n)),
    decreases n,
{
    if n > 0 {
        lemma_inv_layers_wf(f, (n - 1) as nat);
    }
}

/// After `n` forward layers, the inverse layers are undone down to layer
/// `7 - n`, scaled by `2^n`.
proof fn lemma_ntt_layers_inv(g: Seq<u16>, n: nat)
    requires
        poly_wf(g),
        n <= 7,
    ensures
        ntt_layers(inv_layers(g, 7), n) == poly_scale(
            inv_layers(g, (7 - n) as nat),
            vstd::arithmetic::power2::pow2(n) as u16,
        ),
    decreases n,
{
    vstd::arithmetic::power2::lemma2_to64();
    if n == 0 {
        lemma_inv_layers_wf(g, 7);
        let h = inv_layers(g, 7);
        assert forall|i: int| 0 <= i < 256 implies #[trigger] poly_scale(h, 1)[i] == h[i] by {
            vstd::arithmetic::div_mod::lemma_small_mod(h[i] as nat, 3329);
        }
        assert(poly_scale(h, 1) =~= h);
    } else {
        lemma_ntt_layers_inv(g, (n - 1) as nat);
        let c = vstd::arithmetic::power2::pow2((n - 1) as nat) as u16;
        vstd::arithmetic::power2::lemma_pow2_unfold(n);
        let w = inv_layers(g, (7 - n) as nat);
        let y = inv_layers(g, (8 - n) as nat);
        lemma_inv_layers_wf(g, (7 - n) as nat);
        lemma_inv_layers_wf(g, (8 - n) as nat);
        assert(y == inv_layer(w, 7 - n));
        lemma_ntt_layer_scale(y, n - 1, c);
        lemma_ntt_layer_undoes(w, n - 1);
        assert(6 - (n - 1) == 7 - n);
        lemma_scale_scale(w, 2, c);
        assert((2 * c) as u16 == vstd::arithmetic::power2::pow2(n) as u16);
    }
}

/// NTT inverts NTT^-1 on polynomials with reduced coefficients.
pub proof fn lemma_ntt_inv_ntt(g: Seq<u16>)
    requires
        poly_wf(g),
    ensures
        ntt(inv_ntt(g)) == g,
{
    vstd::arithmetic::power2::lemma2_to64();
    let h = inv_layers(g, 7);
    lemma_inv_layers_wf(g, 7);
    assert(inv_ntt(g) =~= poly_scale(h, 3303));
    lemma_ntt_layers_scale(h, 7, 3303);
    lemma_ntt_layers_inv(g, 7);
    assert(inv_layers(g, 0) == g);
    assert forall|i: int| 0 <= i < 256 implies #[trigger] ntt(inv_ntt(g))[i] == g[i] by {
        let gi = g[i] as int;
        assert(ntt(inv_ntt(g))[i] == fmul(fmul(g[i], 128), 3303));
        lemma_mod_ops(gi * 128, 3303);
        assert(gi * 128 * 3303 == 3329 * (127 * gi) + gi) by (nonlinear_arith);
        vstd::arithmetic::div_mod::lemma_mod_multiples_vanish(127 * gi, gi, 3329);
        vstd::arithmetic::div_mod::lemma_small_mod(gi as nat, 3329);
    }
    assert(ntt(inv_ntt(g)) =~= g);
}

/// `(a + b) + s z (c + d) = (a + s z c) + (b + s z d) (mod q)`, with the
/// reductions of the butterfly, for `s = 1` and `s = -1`.
proof fn lemma_butterfly_add(a: int, b: int, c: int, d: int, z: int)
    ensures
        (((a + b) % 3329) + ((z * ((c + d) % 3329)) % 3329)) % 3329 == (((a + ((z * c) % 3329)) % 3329)
            + ((b + ((z * d) % 3329)) % 3329)) % 3329,
        (((a + b) % 3329) - ((z * ((c + d) % 3329)) % 3329)) % 3329 == (((a - ((z * c) % 3329)) % 3329)
            + ((b - ((z * d) % 3329)) % 3329)) % 3329,
{
    lemma_cong(z, c + d);
    lemma_cong(a + b, z * (c + d));
    lemma_cong(a, z * c);
    lemma_cong(b, z * d);
    lemma_cong(a + z * c, b + z * d);
    lemma_cong(a - z * c, b - z * d);
    assert(z * (c + d) == z * c + z * d) by (nonlinear_arith);
}

/// Each forward layer is additive.
#[verifier::rlimit(30)]
proof fn lemma_ntt_layer_add(x: Seq<u16>, y: Seq<u16>, l: int)
    requires
        x.len() == 256,
        y.len() == 256,
        0 <= l < 7,
    ensures
        ntt_layer(poly_add(x, y), l) == poly_add(ntt_layer(x, l), ntt_layer(y, l)),
{
    let len = layer_len(l);
    let s = poly_add(x, y);
    assert forall|i: int| 0 <= i < 256 implies #[trigger] ntt_layer(s, l)[i] == poly_add(
        ntt_layer(x, l),
        ntt_layer(y, l),
    )[i] by {
        lemma_layer_index(l, i);
        let z = zeta((layer_blocks(l) + i / (2 * len)) as nat) as int;
        if i % (2 * len) < len {
            lemma_butterfly_add(x[i] as int, y[i] as int, x[i + len] as int, y[i + len] as int, z);
        } else {
            lemma_butterfly_add(x[i - len] as int, y[i - len] as int, x[i] as int, y[i] as int, z);
        }
    }
    assert(ntt_layer(s, l) =~= poly_add(ntt_layer(x, l), ntt_layer(y, l)));
}

proof fn lemma_ntt_layers_add(x: Seq<u16>, y: Seq<u16>, n: nat)
    requires
        x.len() == 256,
        y.len() == 256,
        n <= 7,
    ensures
        ntt_layers(poly_add(x, y), n) == poly_add(ntt_layers(x, n), ntt_layers(y, n)),
    decreases n,
{
    if n > 0 {
        lemma_ntt_layers_add(x, y, (n - 1) as nat);
        lemma_ntt_layer_add(ntt_layers(x, (n - 1) as nat), ntt_layers(y, (n - 1) as nat), n - 1);
    }
}

/// The NTT is additive.
pub proof fn lemma_ntt_add(f: Seq<u16>, g: Seq<u16>)
    requires
        f.len() == 256,
        g.len() == 256,
    ensures
        ntt(poly_add(f, g)) == poly_add(ntt(f), ntt(g)),
{
    lemma_ntt_layers_add(f, g, 7);
}

/// The NTT of a reduced polynomial is reduced.
pub proof fn lemma_ntt_wf(f: Seq<u16>)
    requires
        poly_wf(f),
    ensures
        poly_wf(ntt(f)),
{
    lemma_ntt_layers_wf(f, 7);
}

/// Reversing `n + 1` bits of a number below `2^n` doubles its `n`-bit reversal.
proof fn lemma_rev_double(i: nat, n: nat)
    requires
        i < vstd::arithmetic::power2::pow2(n),
    ensures
        rev(i, n + 1) == 2 * rev(i, n),
    decreases n,
{
    vstd::arithmetic::power2::lemma2_to64();
    lemma_rev_step(i, n + 1);
    if n == 0 {
        assert(i == 0);
        lemma_rev_zero(0);
        lemma_rev_zero(1);
    } else {
        vstd::arithmetic::power2::lemma_pow2_unfold(n);
        let p = vstd::arithmetic::power2::pow2((n - 1) as nat);
        lemma_rev_double(i / 2, (n - 1) as nat);
        lemma_rev_step(i, n);
        assert((i % 2) * vstd::arithmetic::power2::pow2(n) == 2 * ((i % 2) * p)) by (nonlinear_arith)
            requires
                vstd::arithmetic::power2::pow2(n) == 2 * p,
        ;
    }
}

/// Reversing `n + 1` bits of `2^n + b` puts the top bit at the bottom.
proof fn lemma_rev_top(b: nat, n: nat)
    requires
        b < vstd::arithmetic::power2::pow2(n),
    ensures
        rev(vstd::arithmetic::power2::pow2(n) + b, n + 1) == 1 + 2 * rev(b, n),
    decreases n,
{
    vstd::arithmetic::power2::lemma2_to64();
    let i = vstd::arithmetic::power2::pow2(n) + b;
    lemma_rev_step(i, n + 1);
    if n == 0 {
        assert(b == 0 && i == 1);
        lemma_rev_zero(0);
        assert((i % 2) * vstd::arithmetic::power2::pow2(0) == 1) by (nonlinear_arith)
            requires
                i == 1,
                vstd::arithmetic::power2::pow2(0) == 1,
        ;
    } else {
        vstd::arithmetic::power2::lemma_pow2_unfold(n);
        let p = vstd::arithmetic::power2::pow2((n - 1) as nat);
        assert(i == 2 * p + b);
        assert(i / 2 == p + b / 2 && i % 2 == b % 2);
        lemma_rev_top(b / 2, (n - 1) as nat);
        lemma_rev_step(b, n);
        assert((b % 2) * vstd::arithmetic::power2::pow2(n) == 2 * ((b % 2) * p)) by (nonlinear_arith)
            requires
                vstd::arithmetic::power2::pow2(n) == 2 * p,
        ;
    }
}

/// `zeta(2 i + e)^2 = (-1)^e zeta(i)` for `i < 64`.
proof fn lemma_zeta_square(i: nat, e: nat)
    requires
        i < 64,
        e < 2,
    ensures
        (zeta(2 * i + e) * zeta(2 * i + e)) % 3329 == (if e == 0 { zeta(i) as int } else { (3328 * zeta(i)) % 3329 }),
{
    vstd::arithmetic::power2::lemma2_to64();
    let j = 2 * i + e;
    lemma_rev_step(j, 7);
    assert(j % 2 == e && j / 2 == i);
    lemma_rev_double(i, 6);
    assert(bitrev7(i) == rev(i, 7));
    assert((j % 2) * vstd::arithmetic::power2::pow2(6) == 64 * e) by (nonlinear_arith)
        requires
            j % 2 == e,
            vstd::arithmetic::power2::pow2(6) == 64,
    ;
    assert(2 * bitrev7(j) == 128 * e + bitrev7(i));
    lemma_zeta_pow_add(bitrev7(j), bitrev7(j));
    lemma_zeta_pow_lt(bitrev7(i));
    if e == 1 {
        lemma_zeta_pow_add(128, bitrev7(i));
        lemma_zeta_pow_128();
    } else {
        vstd::arithmetic::div_mod::lemma_small_mod(zeta(i) as nat, 3329);
    }
}

/// `gamma(2 b + e) = (-1)^e zeta(64 + b)`.
proof fn lemma_gamma_zeta(b: nat, e: nat)
    requires
        b < 64,
        e < 2,
    ensures
        gamma(2 * b + e) as int == (if e == 0 { zeta(64 + b) as int } else { (3328 * zeta(64 + b)) % 3329 }),
{
    vstd::arithmetic::power2::lemma2_to64();
    let j = 2 * b + e;
    lemma_rev_step(j, 7);
    assert(j % 2 == e && j / 2 == b);
    lemma_rev_top(b, 6);
    assert(bitrev7(64 + b) == 1 + 2 * rev(b, 6));
    assert((j % 2) * vstd::arithmetic::power2::pow2(6) == 64 * e) by (nonlinear_arith)
        requires
            j % 2 == e,
            vstd::arithmetic::power2::pow2(6) == 64,
    ;
    assert(2 * bitrev7(j) + 1 == 128 * e + bitrev7(64 + b));
    lemma_zeta_pow_lt(bitrev7(64 + b));
    if e == 1 {
        lemma_zeta_pow_add(128, bitrev7(64 + b));
        lemma_zeta_pow_128();
    }
}

/// Size of the blocks after `n` forward layers: `256 / 2^n`.
pub open spec fn block_size(n: int) -> int {
    if n >= 7 {
        2
    } else {
        2 * layer_len(n)
    }
}

/// The constant `w` of block `c` after `n` forward layers: the block is
/// multiplied by X modulo `X^block_size(n) - w`. It is -1 for the whole
/// polynomial, and each layer splits a block into two whose constants are
/// the block's twiddle and its negation.
pub open spec fn block_mod(n: int, c: int) -> u16 {
    if n == 0 {
        3328
    } else {
        let z = zeta((layer_blocks(n - 1) + c / 2) as nat);
        if c % 2 == 0 {
            z
        } else {
            fmul(3328, z)
        }
    }
}

/// Multiplication by X in each block after `n` forward layers.
pub open spec fn block_mulx(a: Seq<u16>, n: int) -> Seq<u16> {
    let s = block_size(n);
    Seq::new(256, |p: int| if p % s == 0 { fmul(block_mod(n, p / s), a[p + s - 1]) } else { a[p - 1] })
}

/// Multiplication by X in `Z_q[X]/(X^256 + 1)`.
pub open spec fn poly_mulx(h: Seq<u16>) -> Seq<u16> {
    Seq::new(256, |p: int| if p == 0 { fmul(3328, h[255]) } else { h[p - 1] })
}

/// Multiplication by X in the NTT domain: by X modulo `X^2 - gamma(j)` in
/// each pair `j`.
pub open spec fn ntt_mulx(a: Seq<u16>) -> Seq<u16> {
    Seq::new(256, |p: int| if p % 2 == 0 { fmul(gamma((p / 2) as nat), a[p + 1]) } else { a[p - 1] })
}

/// The twiddle of block `b` of layer `n` squares to the constant of that block.
proof fn lemma_twiddle_square(n: int, b: int)
    requires
        0 <= n < 7,
        0 <= b < layer_blocks(n),
    ensures
        (zeta((layer_blocks(n) + b) as nat) * zeta((layer_blocks(n) + b) as nat)) % 3329 == block_mod(n, b)
            as int,
{
    lemma_layer_blocks_pow2(n);
    vstd::arithmetic::power2::lemma2_to64();
    if n == 0 {
        lemma_zeta_square(0, 1);
        lemma_rev_zero(7);
        assert(zeta(0) == 1);
    } else {
        lemma_layer_blocks_pow2(n - 1);
        let i = (layer_blocks(n - 1) + b / 2) as nat;
        assert(layer_blocks(n) == 2 * layer_blocks(n - 1));
        assert(layer_blocks(n) + b == 2 * i + b % 2);
        lemma_zeta_square(i, (b % 2) as nat);
    }
}

/// `w x + z y = z (y + z x)` when `z^2 = w`, with the reductions.
proof fn lemma_mulx_top(w: u16, z: u16, x: u16, y: u16)
    requires
        (z * z) % 3329 == w as int,
    ensures
        fadd(fmul(w, x), fmul(z, y)) == fmul(z, fadd(y, fmul(z, x))),
{
    let zz = z * z;
    lemma_cong(zz, x as int);
    lemma_cong(w * x, z * y);
    lemma_cong(z as int, y + z * x);
    lemma_cong(y as int, z * x);
    lemma_cong(z as int, y + (z * x) % 3329);
    assert(z * (y + z * x) == z * y + zz * x) by (nonlinear_arith)
        requires
            zz == z * z,
    ;
    lemma_cong(zz * x, z * y);
    lemma_cong((zz % 3329) * x, z * y);
}

/// `w y - z x = (-z) (x - z y)` when `z^2 = w`, with the reductions.
proof fn lemma_mulx_bottom(w: u16, z: u16, x: u16, y: u16)
    requires
        (z * z) % 3329 == w as int,
    ensures
        fsub(fmul(w, y), fmul(z, x)) == fmul(fmul(3328, z), fsub(x, fmul(z, y))),
{
    let zz = z * z;
    let nz = (3328 * z) % 3329;
    lemma_cong(3328 * z, x - (z * y) % 3329);
    lemma_cong(3328 * z, x - z * y);
    lemma_cong(x as int, z * y);
    lemma_cong(w * y, z * x);
    lemma_cong(3328 * z, (x - z * y) % 3329);
    assert(3328 * z * (x - z * y) == 3329 * (z * (x - z * y)) - z * x + zz * y) by (nonlinear_arith)
        requires
            zz == z * z,
    ;
    vstd::arithmetic::div_mod::lemma_mod_multiples_vanish(z * (x - z * y), zz * y - z * x, 3329);
    lemma_cong(zz * y, z * x);
    lemma_cong(zz, y as int);
    lemma_cong((zz % 3329) * y, z * x);
    assert(nz * ((x - (z * y) % 3329) % 3329) % 3329 == (3328 * z * (x - z * y)) % 3329);
}

/// Each forward layer carries multiplication by X in the blocks before it to
/// multiplication by X in the blocks after it.
#[verifier::rlimit(60)]
proof fn lemma_ntt_layer_mulx(a: Seq<u16>, n: int)
    requires
        a.len() == 256,
        0 <= n < 7,
    ensures
        ntt_layer(block_mulx(a, n), n) == block_mulx(ntt_layer(a, n), n + 1),
{
    let len = layer_len(n);
    let big = 2 * len;
    let x = block_mulx(a, n);
    let y = ntt_layer(a, n);
    lemma_layer_blocks_pow2(n);
    assert(block_size(n) == big);
    assert(block_size(n + 1) == len);
    assert forall|p: int| 0 <= p < 256 implies #[trigger] ntt_layer(x, n)[p] == block_mulx(y, n + 1)[p] by {
        lemma_layer_index(n, p);
        vstd::arithmetic::div_mod::lemma_fundamental_div_mod(p, big);
        let b = p / big;
        let r = p % big;
        let m = big * b;
        assert(b * big == m && len * (2 * b) == m && len * (2 * b + 1) == m + len) by (nonlinear_arith)
            requires
                m == big * b,
                big == 2 * len,
        ;
        assert(m + big <= 256) by (nonlinear_arith)
            requires
                m == big * b,
                b < layer_blocks(n),
                len * layer_blocks(n) == 128,
                big == 2 * len,
        ;
        let z = zeta((layer_blocks(n) + b) as nat);
        let w = block_mod(n, b);
        lemma_twiddle_square(n, b);
        if r < len {
            vstd::arithmetic::div_mod::lemma_fundamental_div_mod_converse(p, len, 2 * b, r);
            vstd::arithmetic::div_mod::lemma_fundamental_div_mod_converse(p + len, big, b, r + len);
            assert(block_mod(n + 1, 2 * b) == z) by {
                assert((2 * b) / 2 == b && (2 * b) % 2 == 0);
            }
            if r == 0 {
                vstd::arithmetic::div_mod::lemma_fundamental_div_mod_converse(p + big - 1, big, b, big - 1);
                vstd::arithmetic::div_mod::lemma_fundamental_div_mod_converse(p + len - 1, big, b, len - 1);
                assert(x[p] == fmul(w, a[p + big - 1]));
                assert(x[p + len] == a[p + len - 1]);
                assert(y[p + len - 1] == fadd(a[p + len - 1], fmul(z, a[p + big - 1])));
                lemma_mulx_top(w, z, a[p + big - 1], a[p + len - 1]);
            } else {
                vstd::arithmetic::div_mod::lemma_fundamental_div_mod_converse(p - 1, big, b, r - 1);
                vstd::arithmetic::div_mod::lemma_fundamental_div_mod_converse(p + len - 1, big, b, r + len - 1);
                assert(x[p] == a[p - 1]);
                assert(x[p + len] == a[p + len - 1]);
                assert(y[p - 1] == fadd(a[p - 1], fmul(z, a[p + len - 1])));
            }
        } else {
            vstd::arithmetic::div_mod::lemma_fundamental_div_mod_converse(p, len, 2 * b + 1, r - len);
            vstd::arithmetic::div_mod::lemma_fundamental_div_mod_converse(p - len, big, b, r - len);
            assert(block_mod(n + 1, 2 * b + 1) == fmul(3328, z)) by {
                assert((2 * b + 1) / 2 == b && (2 * b + 1) % 2 == 1);
            }
            if r == len {
                vstd::arithmetic::div_mod::lemma_fundamental_div_mod_converse(p + len - 1, big, b, big - 1);
                vstd::arithmetic::div_mod::lemma_fundamental_div_mod_converse(p - 1, big, b, len - 1);
                assert(x[p - len] == fmul(w, a[p + len - 1]));
                assert(x[p] == a[p - 1]);
                assert(y[p + len - 1] == fsub(a[p - 1], fmul(z, a[p + len - 1])));
                lemma_mulx_bottom(w, z, a[p - 1], a[p + len - 1]);
            } else {
                vstd::arithmetic::div_mod::lemma_fundamental_div_mod_converse(p - 1, big, b, r - 1);
                vstd::arithmetic::div_mod::lemma_fundamental_div_mod_converse(p - len - 1, big, b, r - len - 1);
                assert(x[p - len] == a[p - len - 1]);
                assert(x[p] == a[p - 1]);
                assert(y[p - 1] == fsub(a[p - len - 1], fmul(z, a[p - 1])));
            }
        }
    }
    assert(ntt_layer(x, n) =~= block_mulx(y, n + 1));
}

proof fn lemma_ntt_layers_mulx(h: Seq<u16>, n: nat)
    requires
        h.len() == 256,
        n <= 7,
    ensures
        ntt_layers(block_mulx(h, 0), n) == block_mulx(ntt_layers(h, n), n as int),
    decreases n,
{
    if n > 0 {
        lemma_ntt_layers_mulx(h, (n - 1) as nat);
        lemma_ntt_layer_mulx(ntt_layers(h, (n - 1) as nat), n - 1);
    }
}

/// The NTT turns multiplication by X into multiplication by X in each
/// quadratic factor.
pub proof fn lemma_ntt_mulx(h: Seq<u16>)
    requires
        h.len() == 256,
    ensures
        ntt(poly_mulx(h)) == ntt_mulx(ntt(h)),
{
    assert(poly_mulx(h) =~= block_mulx(h, 0));
    lemma_ntt_layers_mulx(h, 7);
    let f = ntt(h);
    assert forall|p: int| 0 <= p < 256 implies #[trigger] block_mulx(f, 7)[p] == ntt_mulx(f)[p] by {
        if p % 2 == 0 {
            let c = p / 2;
            lemma_gamma_zeta((c / 2) as nat, (c % 2) as nat);
            assert(2 * (c / 2) + c % 2 == c);
            assert(layer_blocks(6) == 64);
            assert(block_mod(7, c) == gamma(c as nat));
        }
    }
    assert(block_mulx(f, 7) =~= ntt_mulx(f));
}

/// 1 in each block after `n` forward layers: the first coefficient of each
/// block is 1 and the others are 0.
pub open spec fn block_one(n: int) -> Seq<u16> {
    Seq::new(256, |p: int| if p % block_size(n) == 0 { 1u16 } else { 0u16 })
}

proof fn lemma_ntt_layers_one(n: nat)
    requires
        n <= 7,
    ensures
        ntt_layers(block_one(0), n) == block_one(n as int),
    decreases n,
{
    if n > 0 {
        lemma_ntt_layers_one((n - 1) as nat);
        let l = n - 1;
        let len = layer_len(l);
        let big = 2 * len;
        lemma_layer_blocks_pow2(l);
        assert(block_size(l) == big);
        assert(block_size(n as int) == len);
        let a = block_one(l);
        assert forall|p: int| 0 <= p < 256 implies #[trigger] ntt_layer(a, l)[p] == block_one(n as int)[p] by {
            lemma_layer_index(l, p);
            vstd::arithmetic::div_mod::lemma_fundamental_div_mod(p, big);
            let b = p / big;
            let r = p % big;
            let m = big * b;
            assert(len * (2 * b) == m && len * (2 * b + 1) == m + len) by (nonlinear_arith)
                requires
                    m == big * b,
                    big == 2 * len,
            ;
            let z = zeta((layer_blocks(l) + b) as nat);
            lemma_zeta_pow_lt(bitrev7((layer_blocks(l) + b) as nat));
            if r < len {
                vstd::arithmetic::div_mod::lemma_fundamental_div_mod_converse(p, len, 2 * b, r);
                vstd::arithmetic::div_mod::lemma_fundamental_div_mod_converse(p + len, big, b, r + len);
                assert(a[p + len] == 0);
                assert(fmul(z, 0) == 0);
            } else {
                vstd::arithmetic::div_mod::lemma_fundamental_div_mod_converse(p, len, 2 * b + 1, r - len);
                vstd::arithmetic::div_mod::lemma_fundamental_div_mod_converse(p - len, big, b, r - len);
                assert(a[p] == 0);
                assert(fmul(z, 0) == 0);
            }
        }
        assert(ntt_layer(a, l) =~= block_one(n as int));
    }
}

/// The NTT of the polynomial 1 is 1 in every quadratic factor.
pub proof fn lemma_ntt_one()
    ensures
        ntt(Seq::new(256, |p: int| if p == 0 { 1u16 } else { 0u16 })) == block_one(7),
{
    assert(Seq::new(256, |p: int| if p == 0 { 1u16 } else { 0u16 }) =~= block_one(0));
    lemma_ntt_layers_one(7);
}

/// The NTT commutes with multiplying every coefficient by a reduced constant.
pub proof fn lemma_ntt_scale(f: Seq<u16>, c: u16)
    requires
        f.len() == 256,
        c < 3329,
    ensures
        ntt(poly_scale(f, c)) == poly_scale(ntt(f), c),
{
    lemma_ntt_layers_scale(f, 7, c);
}

} // verus!
