//! K-PKE, the public-key encryption scheme beneath ML-KEM (FIPS 203 §5).
use vstd::prelude::*;
use core::marker::PhantomData;
use zeroize::Zeroize;
use crate::crypto::{concat, hash_g, prf, sha3_512, shake128, shake256, xof};
use crate::encode::{
    canonical, lemma_decode_encode, lemma_encode_decode, byte_decode, byte_decode_exec, byte_encode, byte_encode_exec, poly_compress,
    poly_compress_exec, poly_decompress, poly_decompress_exec,
};
use crate::param::KemParams;
use crate::field::{poly_zero, poly_add, poly_add_exec, poly_sub, poly_sub_exec, poly_wf, polyvec_wf};
use crate::ntt::{
    basemul, basemul_exec, gamma_table, gamma_table_wf, inv_ntt, inv_ntt_exec, ntt, ntt_exec,
    zeta_table, zeta_table_wf,
};
use crate::sample::{cbd, cbd_exec, sample_ntt_from, sample_ntt_xof};

verus! {

/// The parameter sets of FIPS 203 Table 2: ML-KEM-512, ML-KEM-768, ML-KEM-1024.
pub open spec fn params_valid(k: nat, eta1: nat, du: nat, dv: nat) -> bool {
    ||| (k == 2 && eta1 == 3 && du == 10 && dv == 4)
    ||| (k == 3 && eta1 == 2 && du == 10 && dv == 4)
    ||| (k == 4 && eta1 == 2 && du == 11 && dv == 5)
}

/// The polynomials of a vector of `Vec`s.
pub open spec fn pv(v: Seq<Vec<u16>>) -> Seq<Seq<u16>> {
    Seq::new(v.len(), |i: int| v[i]@)
}

/// The concatenation of a sequence of byte strings.
pub open spec fn concat_blocks(s: Seq<Seq<u8>>) -> Seq<u8>
    decreases s.len(),
{
    if s.len() == 0 {
        Seq::empty()
    } else {
        concat_blocks(s.drop_last()) + s.last()
    }
}

/// Entry `(i, j)` of the matrix A-hat: SampleNTT(XOF(rho, j, i)).
pub open spec fn matrix_entry(rho: Seq<u8>, i: nat, j: nat) -> Seq<u16> {
    sample_ntt_from(rho.push(j as u8).push(i as u8), 280)
}

/// SamplePolyCBD_eta(PRF_eta(seed, n)).
pub open spec fn prf_poly(seed: Seq<u8>, eta: nat, n: nat) -> Seq<u16> {
    cbd(shake256(seed.push(n as u8), 64 * eta), eta)
}

/// `sum_{j < n} A-hat[i, j] * v[j]` in the NTT domain.
pub open spec fn row_dot(rho: Seq<u8>, i: nat, v: Seq<Seq<u16>>, n: nat) -> Seq<u16>
    decreases n,
{
    if n == 0 {
        poly_zero()
    } else {
        poly_add(
            row_dot(rho, i, v, (n - 1) as nat),
            basemul(matrix_entry(rho, i, (n - 1) as nat), v[n - 1]),
        )
    }
}

/// `sum_{j < n} A-hat[j, i] * v[j]`: row `i` of the transpose.
pub open spec fn col_dot(rho: Seq<u8>, i: nat, v: Seq<Seq<u16>>, n: nat) -> Seq<u16>
    decreases n,
{
    if n == 0 {
        poly_zero()
    } else {
        poly_add(
            col_dot(rho, i, v, (n - 1) as nat),
            basemul(matrix_entry(rho, (n - 1) as nat, i), v[n - 1]),
        )
    }
}

/// `sum_{j < n} a[j] * b[j]` in the NTT domain.
pub open spec fn vec_dot(a: Seq<Seq<u16>>, b: Seq<Seq<u16>>, n: nat) -> Seq<u16>
    decreases n,
{
    if n == 0 {
        poly_zero()
    } else {
        poly_add(vec_dot(a, b, (n - 1) as nat), basemul(a[n - 1], b[n - 1]))
    }
}

/// ByteEncode_12 of each polynomial of a vector, concatenated.
pub open spec fn encode_polyvec(v: Seq<Seq<u16>>) -> Seq<u8> {
    concat_blocks(Seq::new(v.len(), |i: int| byte_encode(v[i], 12)))
}

/// ByteDecode_12 of `k` consecutive 384-byte blocks of `b`, from offset `off`.
pub open spec fn decode_polyvec(b: Seq<u8>, off: int, k: nat) -> Seq<Seq<u16>> {
    Seq::new(k, |i: int| byte_decode(b.subrange(off + 384 * i, off + 384 * i + 384), 12))
}

pub proof fn lemma_concat_blocks_len(s: Seq<Seq<u8>>, w: nat)
    requires
        forall|i: int| 0 <= i < s.len() ==> (#[trigger] s[i]).len() == w,
    ensures
        concat_blocks(s).len() == s.len() * w,
    decreases s.len(),
{
    if s.len() > 0 {
        lemma_concat_blocks_len(s.drop_last(), w);
        assert((s.len() - 1) * w + w == s.len() * w) by (nonlinear_arith);
    }
}

/// Block `i` of a concatenation of equal-width blocks is at offset `i * w`.
pub proof fn lemma_concat_blocks_index(s: Seq<Seq<u8>>, w: nat, i: int)
    requires
        forall|j: int| 0 <= j < s.len() ==> (#[trigger] s[j]).len() == w,
        0 <= i < s.len(),
    ensures
        concat_blocks(s).subrange(i * w, i * w + w) == s[i],
    decreases s.len(),
{
    lemma_concat_blocks_len(s.drop_last(), w);
    if i == s.len() - 1 {
        assert(concat_blocks(s).subrange(i * w, i * w + w) =~= s[i]);
    } else {
        lemma_concat_blocks_index(s.drop_last(), w, i);
        assert(i * w + w <= (s.len() - 1) * w) by (nonlinear_arith)
            requires
                i < s.len() - 1,
        ;
        assert(concat_blocks(s).subrange(i * w, i * w + w) =~= concat_blocks(
            s.drop_last(),
        ).subrange(i * w, i * w + w));
    }
}

/// Copies a 32-byte array into a vector.
fn array_to_vec(a: &[u8; 32]) -> (v: Vec<u8>)
    ensures
        v@ == a@,
{
    let mut v: Vec<u8> = Vec::new();
    for i in 0..32usize
        invariant
            v@ == a@.take(i as int),
    {
        v.push(a[i]);
        assert(v@ =~= a@.take(i + 1));
    }
    assert(v@ =~= a@);
    v
}

/// Appends `b` to `v`.
fn append(v: &mut Vec<u8>, b: &Vec<u8>)
    ensures
        final(v)@ == old(v)@ + b@,
{
    let ghost v0 = v@;
    for i in 0..b.len()
        invariant
            v@ == v0 + b@.take(i as int),
    {
        v.push(b[i]);
        assert(v@ =~= v0 + b@.take(i + 1));
    }
    assert(v@ =~= v0 + b@);
}

/// ByteEncode_12 of each polynomial of `v`, concatenated.
pub fn encode_polyvec_exec(v: &Vec<Vec<u16>>) -> (b: Vec<u8>)
    requires
        polyvec_wf(pv(v@), v@.len() as nat),
    ensures
        b@ == encode_polyvec(pv(v@)),
{
    let ghost blocks = Seq::new(v@.len(), |i: int| byte_encode(v@[i]@, 12));
    let mut b: Vec<u8> = Vec::new();
    for i in 0..v.len()
        invariant
            polyvec_wf(pv(v@), v@.len() as nat),
            blocks == Seq::new(v@.len(), |i: int| byte_encode(v@[i]@, 12)),
            b@ == concat_blocks(blocks.take(i as int)),
    {
        assert(poly_wf(pv(v@)[i as int]));
        let e = byte_encode_exec(&v[i], 12);
        append(&mut b, &e);
        assert(blocks.take(i + 1).drop_last() =~= blocks.take(i as int));
    }
    assert(blocks.take(v@.len() as int) =~= blocks);
    assert(Seq::new(pv(v@).len(), |i: int| byte_encode(pv(v@)[i], 12)) =~= blocks);
    b
}

/// ByteDecode_12 of `k` consecutive 384-byte blocks of `b`, from offset `off`.
pub fn decode_polyvec_exec(b: &Vec<u8>, off: usize, k: usize) -> (v: Vec<Vec<u16>>)
    requires
        off + 384 * k <= b@.len(),
    ensures
        pv(v@) == decode_polyvec(b@, off as int, k as nat),
        polyvec_wf(pv(v@), k as nat),
{
    let blen = b.len();
    let mut v: Vec<Vec<u16>> = Vec::new();
    for i in 0..k
        invariant
            off + 384 * k <= b@.len(),
            blen == b@.len(),
            v@.len() == i,
            forall|j: int|
                0 <= j < i ==> (#[trigger] v@[j])@ == decode_polyvec(b@, off as int, k as nat)[j]
                    && poly_wf(v@[j]@),
    {
        assert(off + 384 * i + 384 <= off + 384 * k) by (nonlinear_arith)
            requires
                i < k,
        ;
        let p = byte_decode_exec(b, off + 384 * i, 12);
        v.push(p);
    }
    assert(pv(v@) =~= decode_polyvec(b@, off as int, k as nat));
    v
}

/// Entry `(i, j)` of A-hat.
pub fn matrix_entry_exec(rho: &[u8; 32], i: u8, j: u8) -> (f: Vec<u16>)
    ensures
        f@ == matrix_entry(rho@, i as nat, j as nat),
        poly_wf(f@),
{
    sample_ntt_xof(rho, j, i)
}

/// SamplePolyCBD_eta(PRF_eta(seed, n)).
pub fn prf_poly_exec(seed: &[u8; 32], eta: usize, n: u8) -> (f: Vec<u16>)
    requires
        eta == 2 || eta == 3,
    ensures
        f@ == prf_poly(seed@, eta as nat, n as nat),
        poly_wf(f@),
{
    let b = prf(seed, n, eta);
    cbd_exec(&b, eta)
}

/// rho, the public seed of K-PKE.KeyGen(d): the first half of G(d || k).
pub open spec fn keygen_rho(d: Seq<u8>, k: nat) -> Seq<u8> {
    sha3_512(d.push(k as u8)).subrange(0, 32)
}

/// sigma, the secret seed of K-PKE.KeyGen(d): the second half of G(d || k).
pub open spec fn keygen_sigma(d: Seq<u8>, k: nat) -> Seq<u8> {
    sha3_512(d.push(k as u8)).subrange(32, 64)
}

/// s-hat of K-PKE.KeyGen(d): the secret vector in the NTT domain.
pub open spec fn keygen_s_hat(d: Seq<u8>, k: nat, eta1: nat) -> Seq<Seq<u16>> {
    Seq::new(k, |i: int| ntt(prf_poly(keygen_sigma(d, k), eta1, i as nat)))
}

/// e-hat of K-PKE.KeyGen(d): the error vector in the NTT domain.
pub open spec fn keygen_e_hat(d: Seq<u8>, k: nat, eta1: nat) -> Seq<Seq<u16>> {
    Seq::new(k, |i: int| ntt(prf_poly(keygen_sigma(d, k), eta1, (k + i) as nat)))
}

/// t-hat = A-hat * s-hat + e-hat of K-PKE.KeyGen(d).
pub open spec fn keygen_t_hat(d: Seq<u8>, k: nat, eta1: nat) -> Seq<Seq<u16>> {
    Seq::new(
        k,
        |i: int|
            poly_add(
                row_dot(keygen_rho(d, k), i as nat, keygen_s_hat(d, k, eta1), k),
                keygen_e_hat(d, k, eta1)[i],
            ),
    )
}

/// K-PKE.Encrypt(ek, m, r) for the key `(t_hat, rho)` (Algorithm 14).
pub open spec fn kpke_encrypt(
    t_hat: Seq<Seq<u16>>,
    rho: Seq<u8>,
    m: Seq<u8>,
    r: Seq<u8>,
    k: nat,
    eta1: nat,
    du: nat,
    dv: nat,
) -> Seq<u8> {
    let y_hat = Seq::new(k, |i: int| ntt(prf_poly(r, eta1, i as nat)));
    let u = Seq::new(
        k,
        |i: int| poly_add(inv_ntt(col_dot(rho, i as nat, y_hat, k)), prf_poly(r, 2, (k + i) as nat)),
    );
    let mu = poly_decompress(byte_decode(m, 1), 1);
    let v = poly_add(poly_add(inv_ntt(vec_dot(t_hat, y_hat, k)), prf_poly(r, 2, 2 * k)), mu);
    concat_blocks(Seq::new(k, |i: int| byte_encode(poly_compress(u[i], du), du))) + byte_encode(
        poly_compress(v, dv),
        dv,
    )
}

/// K-PKE.Decrypt(dk, c) for the key `s_hat` (Algorithm 15).
pub open spec fn kpke_decrypt(s_hat: Seq<Seq<u16>>, c: Seq<u8>, k: nat, du: nat, dv: nat) -> Seq<u8> {
    let u = Seq::new(
        k,
        |i: int|
            poly_decompress(byte_decode(c.subrange(32 * du * i, 32 * du * i + 32 * du), du), du),
    );
    let v = poly_decompress(byte_decode(c.subrange((32 * du * k) as int, (32 * du * k + 32 * dv) as int), dv), dv);
    let w = poly_sub(v, inv_ntt(vec_dot(s_hat, Seq::new(k, |i: int| ntt(u[i])), k)));
    byte_encode(poly_compress(w, 1), 1)
}

fn zero_poly_exec() -> (f: Vec<u16>)
    ensures
        f@ == poly_zero(),
        poly_wf(f@),
{
    let mut f: Vec<u16> = Vec::new();
    for i in 0..256usize
        invariant
            f@.len() == i,
            forall|j: int| 0 <= j < i ==> #[trigger] f@[j] == 0,
    {
        f.push(0);
    }
    assert(f@ =~= poly_zero());
    f
}

/// `sum_{j < k} A-hat[i, j] * v[j]`.
fn row_dot_exec(rho: &[u8; 32], i: usize, v: &Vec<Vec<u16>>, k: usize, gt: &Vec<u16>) -> (f: Vec<u16>)
    requires
        i < 4,
        k <= 4,
        polyvec_wf(pv(v@), k as nat),
        gamma_table_wf(gt@),
    ensures
        f@ == row_dot(rho@, i as nat, pv(v@), k as nat),
        poly_wf(f@),
{
    let mut acc = zero_poly_exec();
    for j in 0..k
        invariant
            i < 4,
            k <= 4,
            polyvec_wf(pv(v@), k as nat),
            gamma_table_wf(gt@),
            acc@ == row_dot(rho@, i as nat, pv(v@), j as nat),
            poly_wf(acc@),
    {
        let a = matrix_entry_exec(rho, i as u8, j as u8);
        assert(poly_wf(pv(v@)[j as int]));
        let prod = basemul_exec(&a, &v[j], gt);
        acc = poly_add_exec(&acc, &prod);
    }
    acc
}

/// `sum_{j < k} A-hat[j, i] * v[j]`.
fn col_dot_exec(rho: &[u8; 32], i: usize, v: &Vec<Vec<u16>>, k: usize, gt: &Vec<u16>) -> (f: Vec<u16>)
    requires
        i < 4,
        k <= 4,
        polyvec_wf(pv(v@), k as nat),
        gamma_table_wf(gt@),
    ensures
        f@ == col_dot(rho@, i as nat, pv(v@), k as nat),
        poly_wf(f@),
{
    let mut acc = zero_poly_exec();
    for j in 0..k
        invariant
            i < 4,
            k <= 4,
            polyvec_wf(pv(v@), k as nat),
            gamma_table_wf(gt@),
            acc@ == col_dot(rho@, i as nat, pv(v@), j as nat),
            poly_wf(acc@),
    {
        let a = matrix_entry_exec(rho, j as u8, i as u8);
        assert(poly_wf(pv(v@)[j as int]));
        let prod = basemul_exec(&a, &v[j], gt);
        acc = poly_add_exec(&acc, &prod);
    }
    acc
}

/// `sum_{j < k} a[j] * b[j]`.
fn vec_dot_exec(a: &Vec<Vec<u16>>, b: &Vec<Vec<u16>>, k: usize, gt: &Vec<u16>) -> (f: Vec<u16>)
    requires
        polyvec_wf(pv(a@), k as nat),
        polyvec_wf(pv(b@), k as nat),
        gamma_table_wf(gt@),
    ensures
        f@ == vec_dot(pv(a@), pv(b@), k as nat),
        poly_wf(f@),
{
    let mut acc = zero_poly_exec();
    for j in 0..k
        invariant
            polyvec_wf(pv(a@), k as nat),
            polyvec_wf(pv(b@), k as nat),
            gamma_table_wf(gt@),
            acc@ == vec_dot(pv(a@), pv(b@), j as nat),
            poly_wf(acc@),
    {
        assert(poly_wf(pv(a@)[j as int]));
        assert(poly_wf(pv(b@)[j as int]));
        let prod = basemul_exec(&a[j], &b[j], gt);
        acc = poly_add_exec(&acc, &prod);
    }
    acc
}

/// The NTT of each polynomial of `v`.
fn ntt_vec_exec(v: &Vec<Vec<u16>>, k: usize, zt: &Vec<u16>) -> (w: Vec<Vec<u16>>)
    requires
        polyvec_wf(pv(v@), k as nat),
        zeta_table_wf(zt@),
    ensures
        pv(w@) == Seq::new(k as nat, |i: int| ntt(pv(v@)[i])),
        polyvec_wf(pv(w@), k as nat),
{
    let mut w: Vec<Vec<u16>> = Vec::new();
    for i in 0..k
        invariant
            polyvec_wf(pv(v@), k as nat),
            zeta_table_wf(zt@),
            w@.len() == i,
            forall|j: int| 0 <= j < i ==> (#[trigger] w@[j])@ == ntt(pv(v@)[j]) && poly_wf(w@[j]@),
    {
        assert(poly_wf(pv(v@)[i as int]));
        w.push(ntt_exec(&v[i], zt));
    }
    assert(pv(w@) =~= Seq::new(k as nat, |i: int| ntt(pv(v@)[i])));
    w
}

/// `[prf_poly(seed, eta, n0 + i) for i < k]`.
fn prf_vec_exec(seed: &[u8; 32], eta: usize, n0: usize, k: usize) -> (v: Vec<Vec<u16>>)
    requires
        eta == 2 || eta == 3,
        n0 + k <= 16,
    ensures
        pv(v@) == Seq::new(k as nat, |i: int| prf_poly(seed@, eta as nat, (n0 + i) as nat)),
        polyvec_wf(pv(v@), k as nat),
{
    let mut v: Vec<Vec<u16>> = Vec::new();
    for i in 0..k
        invariant
            eta == 2 || eta == 3,
            n0 + k <= 16,
            v@.len() == i,
            forall|j: int|
                0 <= j < i ==> (#[trigger] v@[j])@ == prf_poly(seed@, eta as nat, (n0 + j) as nat)
                    && poly_wf(v@[j]@),
    {
        v.push(prf_poly_exec(seed, eta, (n0 + i) as u8));
    }
    assert(pv(v@) =~= Seq::new(k as nat, |i: int| prf_poly(seed@, eta as nat, (n0 + i) as nat)));
    v
}

/// K-PKE.KeyGen(d) (Algorithm 13), returning `(t_hat, rho, s_hat)`.
pub fn kpke_keygen_exec(d: &[u8; 32], k: usize, eta1: usize) -> (r: (Vec<Vec<u16>>, [u8; 32], Vec<Vec<u16>>))
    requires
        2 <= k <= 4,
        eta1 == 2 || eta1 == 3,
    ensures
        pv(r.0@) == keygen_t_hat(d@, k as nat, eta1 as nat),
        r.1@ == keygen_rho(d@, k as nat),
        pv(r.2@) == keygen_s_hat(d@, k as nat, eta1 as nat),
        polyvec_wf(pv(r.0@), k as nat),
        polyvec_wf(pv(r.2@), k as nat),
{
    let tail = [k as u8];
    let input = concat(d, &tail);
    assert(input@ =~= d@.push(k as u8));
    let (rho, sigma) = hash_g(&input);
    let zt = zeta_table();
    let gt = gamma_table();
    let s = prf_vec_exec(&sigma, eta1, 0, k);
    let s_hat = ntt_vec_exec(&s, k, &zt);
    let e = prf_vec_exec(&sigma, eta1, k, k);
    let e_hat = ntt_vec_exec(&e, k, &zt);
    assert(pv(s_hat@) =~= keygen_s_hat(d@, k as nat, eta1 as nat));
    assert(pv(e_hat@) =~= keygen_e_hat(d@, k as nat, eta1 as nat));
    let mut t_hat: Vec<Vec<u16>> = Vec::new();
    for i in 0..k
        invariant
            2 <= k <= 4,
            gamma_table_wf(gt@),
            rho@ == keygen_rho(d@, k as nat),
            pv(s_hat@) == keygen_s_hat(d@, k as nat, eta1 as nat),
            pv(e_hat@) == keygen_e_hat(d@, k as nat, eta1 as nat),
            polyvec_wf(pv(s_hat@), k as nat),
            polyvec_wf(pv(e_hat@), k as nat),
            t_hat@.len() == i,
            forall|j: int|
                0 <= j < i ==> (#[trigger] t_hat@[j])@ == keygen_t_hat(d@, k as nat, eta1 as nat)[j]
                    && poly_wf(t_hat@[j]@),
    {
        let rd = row_dot_exec(&rho, i, &s_hat, k, &gt);
        assert(poly_wf(pv(e_hat@)[i as int]));
        t_hat.push(poly_add_exec(&rd, &e_hat[i]));
    }
    assert(pv(t_hat@) =~= keygen_t_hat(d@, k as nat, eta1 as nat));
    (t_hat, rho, s_hat)
}

/// Length of a K-PKE ciphertext: `32 (du k + dv)` bytes.
pub open spec fn ciphertext_len(k: nat, du: nat, dv: nat) -> nat {
    32 * (du * k + dv)
}

fn vec_to_array(v: &Vec<u8>) -> (a: [u8; 32])
    requires
        v@.len() == 32,
    ensures
        a@ == v@,
{
    let mut a = [0u8; 32];
    for i in 0..32usize
        invariant
            v@.len() == 32,
            forall|j: int| 0 <= j < i ==> a@[j] == v@[j],
    {
        a[i] = v[i];
    }
    assert(a@ =~= v@);
    a
}

/// K-PKE.Encrypt(ek, m, r) (Algorithm 14) for the key `(t_hat, rho)`.
pub fn kpke_encrypt_exec(
    t_hat: &Vec<Vec<u16>>,
    rho: &[u8; 32],
    m: &[u8; 32],
    r: &[u8; 32],
    k: usize,
    eta1: usize,
    du: u32,
    dv: u32,
) -> (c: Vec<u8>)
    requires
        params_valid(k as nat, eta1 as nat, du as nat, dv as nat),
        polyvec_wf(pv(t_hat@), k as nat),
    ensures
        c@ == kpke_encrypt(pv(t_hat@), rho@, m@, r@, k as nat, eta1 as nat, du as nat, dv as nat),
        c@.len() == ciphertext_len(k as nat, du as nat, dv as nat),
{
    let zt = zeta_table();
    let gt = gamma_table();
    let y = prf_vec_exec(r, eta1, 0, k);
    let y_hat = ntt_vec_exec(&y, k, &zt);
    let ghost y_hat_s = Seq::new(k as nat, |i: int| ntt(prf_poly(r@, eta1 as nat, i as nat)));
    assert(pv(y_hat@) =~= y_hat_s);
    let e1 = prf_vec_exec(r, 2, k, k);
    let e2 = prf_poly_exec(r, 2, (2 * k) as u8);
    let ghost u_s = Seq::new(
        k as nat,
        |i: int|
            poly_add(
                inv_ntt(col_dot(rho@, i as nat, y_hat_s, k as nat)),
                prf_poly(r@, 2, (k + i) as nat),
            ),
    );
    let ghost blocks = Seq::new(
        k as nat,
        |i: int| byte_encode(poly_compress(u_s[i], du as nat), du as nat),
    );
    let mut c: Vec<u8> = Vec::new();
    for i in 0..k
        invariant
            params_valid(k as nat, eta1 as nat, du as nat, dv as nat),
            zeta_table_wf(zt@),
            gamma_table_wf(gt@),
            pv(y_hat@) == y_hat_s,
            polyvec_wf(pv(y_hat@), k as nat),
            pv(e1@) == Seq::new(k as nat, |i: int| prf_poly(r@, 2, (k + i) as nat)),
            polyvec_wf(pv(e1@), k as nat),
            u_s == Seq::new(
                k as nat,
                |i: int|
                    poly_add(
                        inv_ntt(col_dot(rho@, i as nat, y_hat_s, k as nat)),
                        prf_poly(r@, 2, (k + i) as nat),
                    ),
            ),
            blocks == Seq::new(
                k as nat,
                |i: int| byte_encode(poly_compress(u_s[i], du as nat), du as nat),
            ),
            c@ == concat_blocks(blocks.take(i as int)),
    {
        let cd = col_dot_exec(rho, i, &y_hat, k, &gt);
        let ui = inv_ntt_exec(&cd, &zt);
        assert(poly_wf(pv(e1@)[i as int]));
        let ui = poly_add_exec(&ui, &e1[i]);
        let comp = poly_compress_exec(&ui, du);
        let enc = byte_encode_exec(&comp, du);
        append(&mut c, &enc);
        assert(blocks.take(i + 1).drop_last() =~= blocks.take(i as int));
    }
    assert(blocks.take(k as int) =~= blocks);
    proof {
        assert forall|j: int| 0 <= j < blocks.len() implies (#[trigger] blocks[j]).len() == 32 * du by {
        }
        lemma_concat_blocks_len(blocks, 32 * du as nat);
    }
    let mv = array_to_vec(m);
    let md = byte_decode_exec(&mv, 0, 1);
    assert(mv@.subrange(0, 32) =~= m@);
    let mu = poly_decompress_exec(&md, 1);
    let vd = vec_dot_exec(t_hat, &y_hat, k, &gt);
    let v = inv_ntt_exec(&vd, &zt);
    let v = poly_add_exec(&v, &e2);
    let v = poly_add_exec(&v, &mu);
    let comp = poly_compress_exec(&v, dv);
    let enc = byte_encode_exec(&comp, dv);
    append(&mut c, &enc);
    assert(32 * du * k + 32 * dv == 32 * (du * k + dv)) by (nonlinear_arith);
    assert(k * (32 * du) == 32 * du * k) by (nonlinear_arith);
    c
}

/// K-PKE.Decrypt(dk, c) (Algorithm 15) for the key `s_hat`.
pub fn kpke_decrypt_exec(s_hat: &Vec<Vec<u16>>, c: &Vec<u8>, k: usize, du: u32, dv: u32) -> (m: [u8; 32])
    requires
        2 <= k <= 4,
        du == 10 || du == 11,
        dv == 4 || dv == 5,
        polyvec_wf(pv(s_hat@), k as nat),
        c@.len() == ciphertext_len(k as nat, du as nat, dv as nat),
    ensures
        m@ == kpke_decrypt(pv(s_hat@), c@, k as nat, du as nat, dv as nat),
{
    let zt = zeta_table();
    let gt = gamma_table();
    let ghost u_s = Seq::new(
        k as nat,
        |i: int|
            poly_decompress(
                byte_decode(c@.subrange(32 * du * i, 32 * du * i + 32 * du), du as nat),
                du as nat,
            ),
    );
    let mut u_hat: Vec<Vec<u16>> = Vec::new();
    for i in 0..k
        invariant
            2 <= k <= 4,
            du == 10 || du == 11,
            dv == 4 || dv == 5,
            c@.len() == ciphertext_len(k as nat, du as nat, dv as nat),
            zeta_table_wf(zt@),
            u_s == Seq::new(
                k as nat,
                |i: int|
                    poly_decompress(
                        byte_decode(c@.subrange(32 * du * i, 32 * du * i + 32 * du), du as nat),
                        du as nat,
                    ),
            ),
            u_hat@.len() == i,
            forall|j: int|
                0 <= j < i ==> (#[trigger] u_hat@[j])@ == ntt(u_s[j]) && poly_wf(u_hat@[j]@),
    {
        assert(32 * du * i + 32 * du <= 32 * (du * k + dv)) by (nonlinear_arith)
            requires
                i < k,
        ;
        assert(32 * (du as usize) * i <= 2000) by (nonlinear_arith)
            requires
                du <= 11,
                i <= 4,
        ;
        let ud = byte_decode_exec(c, 32 * (du as usize) * i, du);
        let u = poly_decompress_exec(&ud, du);
        u_hat.push(ntt_exec(&u, &zt));
    }
    assert(pv(u_hat@) =~= Seq::new(k as nat, |i: int| ntt(u_s[i])));
    assert(32 * du * k + 32 * dv == 32 * (du * k + dv)) by (nonlinear_arith);
    assert(32 * (du as usize) * k <= 2000) by (nonlinear_arith)
        requires
            du <= 11,
            k <= 4,
    ;
    let vd = byte_decode_exec(c, 32 * (du as usize) * k, dv);
    let v = poly_decompress_exec(&vd, dv);
    let sd = vec_dot_exec(s_hat, &u_hat, k, &gt);
    let si = inv_ntt_exec(&sd, &zt);
    let w = poly_sub_exec(&v, &si);
    let wc = poly_compress_exec(&w, 1);
    let enc = byte_encode_exec(&wc, 1);
    vec_to_array(&enc)
}

/// The mathematical content of a K-PKE encryption key.
pub struct EncryptionKeyModel {
    pub t_hat: Seq<Seq<u16>>,
    pub rho: Seq<u8>,
}

/// The encoding `ByteEncode_12(t_hat) || rho` of an encryption key.
pub open spec fn ek_encode(ek: EncryptionKeyModel) -> Seq<u8> {
    encode_polyvec(ek.t_hat) + ek.rho
}

/// The encryption key encoded by the first `384 k + 32` bytes of `b`.
pub open spec fn ek_decode(b: Seq<u8>, k: nat) -> EncryptionKeyModel {
    EncryptionKeyModel { t_hat: decode_polyvec(b, 0, k), rho: b.subrange((384 * k) as int, (384 * k + 32) as int) }
}

/// A K-PKE encryption key: `t_hat` in the NTT domain and the matrix seed `rho`.
#[derive(Debug, PartialEq, Eq)]
pub struct EncryptionKey<P: KemParams> {
    t_hat: Vec<Vec<u16>>,
    rho: [u8; 32],
    _params: PhantomData<P>,
}

/// A K-PKE decryption key: `s_hat` in the NTT domain.
#[derive(Debug, PartialEq, Eq)]
pub struct DecryptionKey<P: KemParams> {
    s_hat: Vec<Vec<u16>>,
    _params: PhantomData<P>,
}

impl<P: KemParams> View for EncryptionKey<P> {
    type V = EncryptionKeyModel;

    closed spec fn view(&self) -> EncryptionKeyModel {
        EncryptionKeyModel { t_hat: pv(self.t_hat@), rho: self.rho@ }
    }
}

impl<P: KemParams> View for DecryptionKey<P> {
    type V = Seq<Seq<u16>>;

    closed spec fn view(&self) -> Seq<Seq<u16>> {
        pv(self.s_hat@)
    }
}

/// Every polynomial of the key is reduced and there are `k` of them.
pub open spec fn ek_wf(ek: EncryptionKeyModel, k: nat) -> bool {
    polyvec_wf(ek.t_hat, k) && ek.rho.len() == 32
}

impl<P: KemParams> EncryptionKey<P> {
    #[verifier::type_invariant]
    closed spec fn inv(&self) -> bool {
        polyvec_wf(pv(self.t_hat@), P::k_spec())
    }

    /// Decodes `ByteEncode_12(t_hat) || rho`.
    pub fn from_bytes(enc: &Vec<u8>) -> (ek: Self)
        requires
            enc@.len() == 384 * P::k_spec() + 32,
        ensures
            ek@ == ek_decode(enc@, P::k_spec()),
    {
        let k = P::k();
        let elen = enc.len();
        let t_hat = decode_polyvec_exec(enc, 0, k);
        let mut rho = [0u8; 32];
        for i in 0..32usize
            invariant
                enc@.len() == 384 * k + 32,
                elen == enc@.len(),
                forall|j: int| 0 <= j < i ==> rho@[j] == enc@[384 * k + j],
        {
            rho[i] = enc[384 * k + i];
        }
        assert(rho@ =~= enc@.subrange(384 * k, 384 * k + 32));
        EncryptionKey { t_hat, rho, _params: PhantomData }
    }

    /// Encodes as `ByteEncode_12(t_hat) || rho`.
    pub fn as_bytes(&self) -> (enc: Vec<u8>)
        ensures
            enc@ == ek_encode(self@),
            ek_wf(self@, P::k_spec()),
    {
        proof {
            use_type_invariant(self);
        }
        let mut enc = encode_polyvec_exec(&self.t_hat);
        let rv = array_to_vec(&self.rho);
        append(&mut enc, &rv);
        enc
    }

    /// K-PKE.Encrypt(ek, m, r).
    pub fn encrypt(&self, m: &[u8; 32], r: &[u8; 32]) -> (c: Vec<u8>)
        ensures
            c@ == kpke_encrypt(
                self@.t_hat,
                self@.rho,
                m@,
                r@,
                P::k_spec(),
                P::eta1_spec(),
                P::du_spec(),
                P::dv_spec(),
            ),
            c@.len() == ciphertext_len(P::k_spec(), P::du_spec(), P::dv_spec()),
    {
        proof {
            use_type_invariant(self);
            P::lemma_valid();
        }
        kpke_encrypt_exec(&self.t_hat, &self.rho, m, r, P::k(), P::eta1(), P::du(), P::dv())
    }

    /// A copy of this key.
    pub fn duplicate(&self) -> (ek: Self)
        ensures
            ek@ == self@,
    {
        proof {
            use_type_invariant(self);
        }
        let mut t_hat: Vec<Vec<u16>> = Vec::new();
        for i in 0..self.t_hat.len()
            invariant
                polyvec_wf(pv(self.t_hat@), P::k_spec()),
                t_hat@.len() == i,
                i <= self.t_hat@.len(),
                forall|j: int| 0 <= j < i ==> (#[trigger] t_hat@[j])@ == self.t_hat@[j]@,
        {
            t_hat.push(crate::ntt::poly_copy(&self.t_hat[i]));
        }
        assert(pv(t_hat@) =~= pv(self.t_hat@));
        EncryptionKey { t_hat, rho: self.rho, _params: PhantomData }
    }
}

impl<P: KemParams> Clone for EncryptionKey<P> {
    fn clone(&self) -> (ek: Self)
        ensures
            ek@ == self@,
    {
        self.duplicate()
    }
}

impl<P: KemParams> DecryptionKey<P> {
    #[verifier::type_invariant]
    closed spec fn inv(&self) -> bool {
        polyvec_wf(pv(self.s_hat@), P::k_spec())
    }

    /// K-PKE.KeyGen(d): the decryption key and the encryption key.
    pub fn generate(d: &[u8; 32]) -> (r: (Self, EncryptionKey<P>))
        ensures
            r.0@ == keygen_s_hat(d@, P::k_spec(), P::eta1_spec()),
            r.1@ == (EncryptionKeyModel {
                t_hat: keygen_t_hat(d@, P::k_spec(), P::eta1_spec()),
                rho: keygen_rho(d@, P::k_spec()),
            }),
    {
        proof {
            P::lemma_valid();
        }
        let (t_hat, rho, s_hat) = kpke_keygen_exec(d, P::k(), P::eta1());
        (DecryptionKey { s_hat, _params: PhantomData }, EncryptionKey { t_hat, rho, _params: PhantomData })
    }

    /// K-PKE.Decrypt(dk, c).
    pub fn decrypt(&self, c: &Vec<u8>) -> (m: [u8; 32])
        requires
            c@.len() == ciphertext_len(P::k_spec(), P::du_spec(), P::dv_spec()),
        ensures
            m@ == kpke_decrypt(self@, c@, P::k_spec(), P::du_spec(), P::dv_spec()),
    {
        proof {
            use_type_invariant(self);
            P::lemma_valid();
        }
        kpke_decrypt_exec(&self.s_hat, c, P::k(), P::du(), P::dv())
    }

    /// Decodes `ByteEncode_12(s_hat)` from the first `384 k` bytes of `enc`.
    pub fn from_bytes(enc: &Vec<u8>) -> (dk: Self)
        requires
            384 * P::k_spec() <= enc@.len(),
        ensures
            dk@ == decode_polyvec(enc@, 0, P::k_spec()),
    {
        let s_hat = decode_polyvec_exec(enc, 0, P::k());
        DecryptionKey { s_hat, _params: PhantomData }
    }

    /// A copy of this key.
    pub fn duplicate(&self) -> (dk: Self)
        ensures
            dk@ == self@,
    {
        proof {
            use_type_invariant(self);
        }
        let mut s_hat: Vec<Vec<u16>> = Vec::new();
        for i in 0..self.s_hat.len()
            invariant
                polyvec_wf(pv(self.s_hat@), P::k_spec()),
                s_hat@.len() == i,
                i <= self.s_hat@.len(),
                forall|j: int| 0 <= j < i ==> (#[trigger] s_hat@[j])@ == self.s_hat@[j]@,
        {
            s_hat.push(crate::ntt::poly_copy(&self.s_hat[i]));
        }
        assert(pv(s_hat@) =~= pv(self.s_hat@));
        DecryptionKey { s_hat, _params: PhantomData }
    }

    /// Encodes as `ByteEncode_12(s_hat)`.
    pub fn as_bytes(&self) -> (enc: Vec<u8>)
        ensures
            enc@ == encode_polyvec(self@),
            polyvec_wf(self@, P::k_spec()),
    {
        proof {
            use_type_invariant(self);
        }
        encode_polyvec_exec(&self.s_hat)
    }
}

/// Calls `zeroize::Zeroize::zeroize` on the coefficients of polynomial `i` of
/// `v`, as a slice: each of them is overwritten with 0, and nothing else changes.
#[verifier::external_body]
fn zeroize_poly_at(v: &mut Vec<Vec<u16>>, i: usize)
    requires
        i < old(v)@.len(),
    ensures
        final(v)@.len() == old(v)@.len(),
        final(v)@[i as int]@ == Seq::new(old(v)@[i as int]@.len(), |j: int| 0u16),
        forall|j: int| 0 <= j < old(v)@.len() && j != i ==> final(v)@[j] == old(v)@[j],
    opens_invariants none
    no_unwind
{
    v[i].as_mut_slice().zeroize();
}

impl<P: KemParams> DecryptionKey<P> {
    /// Overwrites every coefficient of the key with 0.
    pub fn zeroize(&mut self)
        ensures
            final(self)@ == Seq::new(P::k_spec(), |i: int| Seq::new(256, |j: int| 0u16)),
        opens_invariants none
        no_unwind
    {
        proof {
            use_type_invariant(&*self);
        }
        proof {
            P::lemma_valid();
        }
        let n = P::K;
        assert forall|j: int| 0 <= j < n implies poly_wf(#[trigger] self.s_hat@[j]@) by {
            assert(poly_wf(pv(self.s_hat@)[j]));
        }
        let mut i: usize = 0;
        while i < n
            invariant
                i <= n,
                n == self.s_hat@.len(),
                n == P::k_spec(),
                polyvec_wf(pv(self.s_hat@), P::k_spec()),
                forall|j: int| 0 <= j < n ==> poly_wf(#[trigger] self.s_hat@[j]@),
                forall|j: int| 0 <= j < i ==> (#[trigger] self.s_hat@[j])@ == Seq::new(256, |t: int| 0u16),
            decreases n - i,
        {
            assert(poly_wf(pv(self.s_hat@)[i as int]));
            zeroize_poly_at(&mut self.s_hat, i);
            assert(self.s_hat@[i as int]@ =~= Seq::new(256, |t: int| 0u16));
            i = i + 1;
        }
        assert(self@ =~= Seq::new(P::k_spec(), |i: int| Seq::new(256, |j: int| 0u16)));
    }
}

impl<P: KemParams> Clone for DecryptionKey<P> {
    fn clone(&self) -> (dk: Self)
        ensures
            dk@ == self@,
    {
        self.duplicate()
    }
}

/// Decoding the encoding of a vector of reduced polynomials gives it back.
pub proof fn lemma_polyvec_codec(v: Seq<Seq<u16>>, k: nat)
    requires
        polyvec_wf(v, k),
    ensures
        encode_polyvec(v).len() == 384 * k,
        decode_polyvec(encode_polyvec(v), 0, k) == v,
{
    let blocks = Seq::new(v.len(), |i: int| byte_encode(v[i], 12));
    assert forall|j: int| 0 <= j < blocks.len() implies (#[trigger] blocks[j]).len() == 384 by {}
    lemma_concat_blocks_len(blocks, 384);
    assert forall|i: int| 0 <= i < k implies #[trigger] decode_polyvec(encode_polyvec(v), 0, k)[i]
        == v[i] by {
        lemma_concat_blocks_index(blocks, 384, i);
        assert(poly_wf(v[i]));
        lemma_decode_encode(v[i], 12);
    }
    assert(decode_polyvec(encode_polyvec(v), 0, k) =~= v);
}

/// Decoding `k` polynomials reads only the first `384 k` bytes.
pub proof fn lemma_decode_polyvec_prefix(x: Seq<u8>, y: Seq<u8>, k: nat)
    requires
        x.len() >= 384 * k,
    ensures
        decode_polyvec(x + y, 0, k) == decode_polyvec(x, 0, k),
{
    assert forall|i: int| 0 <= i < k implies #[trigger] decode_polyvec(x + y, 0, k)[i]
        == decode_polyvec(x, 0, k)[i] by {
        assert(384 * i + 384 <= 384 * k) by (nonlinear_arith)
            requires
                i < k,
        ;
        assert((x + y).subrange(384 * i, 384 * i + 384) =~= x.subrange(384 * i, 384 * i + 384));
    }
    assert(decode_polyvec(x + y, 0, k) =~= decode_polyvec(x, 0, k));
}

/// Decoding the encoding of a well-formed encryption key gives it back.
pub proof fn lemma_ek_codec(ek: EncryptionKeyModel, k: nat)
    requires
        ek_wf(ek, k),
    ensures
        ek_encode(ek).len() == 384 * k + 32,
        ek_decode(ek_encode(ek), k) == ek,
{
    lemma_polyvec_codec(ek.t_hat, k);
    lemma_decode_polyvec_prefix(encode_polyvec(ek.t_hat), ek.rho, k);
    assert(ek_encode(ek).subrange((384 * k) as int, (384 * k + 32) as int) =~= ek.rho);
}

/// Each of the `k` 384-byte blocks of `b` from offset 0 holds twelve-bit
/// groups below q: `b` starts with the encoding of a vector of reduced polynomials.
pub open spec fn polyvec_canonical(b: Seq<u8>, k: nat) -> bool {
    forall|i: int| 0 <= i < k ==> #[trigger] canonical(b.subrange(384 * i, 384 * i + 384), 12)
}

/// Encoding the decoding of `k` canonical blocks gives the blocks back.
pub proof fn lemma_polyvec_encode_decode(b: Seq<u8>, k: nat)
    requires
        b.len() >= 384 * k,
        polyvec_canonical(b, k),
    ensures
        encode_polyvec(decode_polyvec(b, 0, k)) == b.subrange(0, 384 * k as int),
{
    let v = decode_polyvec(b, 0, k);
    let blocks = Seq::new(v.len(), |i: int| byte_encode(v[i], 12));
    assert forall|i: int| 0 <= i < k implies #[trigger] blocks[i] == b.subrange(384 * i, 384 * i + 384) by {
        assert(384 * i + 384 <= 384 * k) by (nonlinear_arith)
            requires
                i < k,
        ;
        lemma_encode_decode(b.subrange(384 * i, 384 * i + 384), 12);
    }
    assert forall|j: int| 0 <= j < blocks.len() implies (#[trigger] blocks[j]).len() == 384 by {}
    lemma_concat_blocks_len(blocks, 384);
    let c = concat_blocks(blocks);
    assert forall|x: int| 0 <= x < 384 * k implies #[trigger] c[x] == b[x] by {
        let i = x / 384;
        let r = x % 384;
        assert(0 <= i < k);
        lemma_concat_blocks_index(blocks, 384, i);
        assert(c.subrange(384 * i, 384 * i + 384)[r] == c[384 * i + r]);
        assert(b.subrange(384 * i, 384 * i + 384)[r] == b[384 * i + r]);
    }
    assert(c =~= b.subrange(0, 384 * k as int));
}

/// Encoding the decoding of `ByteEncode_12(t_hat) || rho` bytes whose
/// polynomial part is canonical gives the bytes back.
pub proof fn lemma_ek_encode_decode(b: Seq<u8>, k: nat)
    requires
        b.len() == 384 * k + 32,
        polyvec_canonical(b, k),
    ensures
        ek_encode(ek_decode(b, k)) == b,
{
    lemma_polyvec_encode_decode(b, k);
    assert(b.subrange(0, 384 * k as int) + b.subrange((384 * k) as int, (384 * k + 32) as int) =~= b);
}

} // verus!
