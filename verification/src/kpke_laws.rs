//! K-PKE.KeyGen and K-PKE.Encrypt in terms of SHA3-512, SHAKE128, SHAKE256,
//! SampleNTT, SamplePolyCBD and sums of NTT-domain products: which seed and
//! which counter each polynomial is sampled from, and which entry of the
//! matrix A-hat multiplies which vector entry.
use vstd::prelude::*;
use crate::algebra::{lemma_col_dot_psum, lemma_psum_ext, lemma_row_dot_psum, lemma_vec_dot_psum, psum};
use crate::crypto::{sha3_512, shake256};
use crate::encode::{byte_decode, byte_encode, poly_compress, poly_decompress};
use crate::field::poly_add;
use crate::ntt::{basemul, inv_ntt, ntt};
use crate::pke::{concat_blocks, keygen_e_hat, keygen_rho, keygen_s_hat, keygen_t_hat, kpke_encrypt, matrix_entry};
use crate::sample::{cbd, sample_ntt_from};

verus! {

/// K-PKE.KeyGen(d): `(rho, sigma) = G(d || k)`; `s-hat[j]` is the NTT of
/// SamplePolyCBD_eta1 of `SHAKE256(sigma || j)` and `e-hat[j]` that of
/// `SHAKE256(sigma || k + j)`, each `64 eta1` bytes long; and
/// `t-hat[i] = sum_j A-hat[i, j] * s-hat[j] + e-hat[i]`, where A-hat[i, j]
/// is sampled from `rho || j || i`.
pub proof fn lemma_kpke_keygen(d: Seq<u8>, k: nat, eta1: nat)
    ensures
        ({
            let g = sha3_512(d.push(k as u8));
            let rho = g.subrange(0, 32);
            let sigma = g.subrange(32, 64);
            let s = Seq::new(k, |j: int| ntt(cbd(shake256(sigma.push(j as u8), 64 * eta1), eta1)));
            let e = Seq::new(k, |j: int| ntt(cbd(shake256(sigma.push((k + j) as u8), 64 * eta1), eta1)));
            &&& keygen_rho(d, k) == rho
            &&& keygen_s_hat(d, k, eta1) == s
            &&& keygen_e_hat(d, k, eta1) == e
            &&& keygen_t_hat(d, k, eta1) == Seq::new(
                k,
                |i: int| poly_add(psum(|j: int| basemul(sample_ntt_from(rho.push(j as u8).push(i as u8), 280), s[j]), k), e[i]),
            )
        }),
{
    let g = sha3_512(d.push(k as u8));
    let rho = g.subrange(0, 32);
    let sigma = g.subrange(32, 64);
    let s = Seq::new(k, |j: int| ntt(cbd(shake256(sigma.push(j as u8), 64 * eta1), eta1)));
    let e = Seq::new(k, |j: int| ntt(cbd(shake256(sigma.push((k + j) as u8), 64 * eta1), eta1)));
    assert(keygen_s_hat(d, k, eta1) =~= s);
    assert(keygen_e_hat(d, k, eta1) =~= e);
    let t = Seq::new(k, |i: int| poly_add(psum(|j: int| basemul(sample_ntt_from(rho.push(j as u8).push(i as u8), 280), s[j]), k), e[i]));
    assert forall|i: int| 0 <= i < k implies #[trigger] keygen_t_hat(d, k, eta1)[i] == t[i] by {
        lemma_row_dot_psum(rho, i as nat, s, k);
        let f1 = |j: int| basemul(matrix_entry(rho, i as nat, j as nat), s[j]);
        let f2 = |j: int| basemul(sample_ntt_from(rho.push(j as u8).push(i as u8), 280), s[j]);
        assert forall|j: int| 0 <= j < k implies #[trigger] f1(j) == f2(j) by {}
        lemma_psum_ext(f1, f2, k);
    }
    assert(keygen_t_hat(d, k, eta1) =~= t);
}

/// K-PKE.Encrypt(ek, m, r) with `ek = (t-hat, rho)`: `y[j]` is
/// SamplePolyCBD_eta1 of `SHAKE256(r || j)` (`64 eta1` bytes), `e1[i]` and
/// `e2` are SamplePolyCBD_2 of `SHAKE256(r || k + i)` and
/// `SHAKE256(r || 2 k)` (128 bytes);
/// `u[i] = NTT^-1(sum_j A-hat[j, i] * NTT(y[j])) + e1[i]`, with A-hat[j, i]
/// sampled from `rho || i || j`;
/// `v = NTT^-1(sum_j t-hat[j] * NTT(y[j])) + e2 + Decompress_1(ByteDecode_1(m))`;
/// and the ciphertext is `ByteEncode_du(Compress_du(u[0])) || ... ||
/// ByteEncode_dv(Compress_dv(v))`.
pub proof fn lemma_kpke_encrypt(
    t_hat: Seq<Seq<u16>>,
    rho: Seq<u8>,
    m: Seq<u8>,
    r: Seq<u8>,
    k: nat,
    eta1: nat,
    du: nat,
    dv: nat,
)
    ensures
        kpke_encrypt(t_hat, rho, m, r, k, eta1, du, dv) == ({
            let y = Seq::new(k, |j: int| ntt(cbd(shake256(r.push(j as u8), 64 * eta1), eta1)));
            let u = Seq::new(
                k,
                |i: int|
                    poly_add(
                        inv_ntt(psum(|j: int| basemul(sample_ntt_from(rho.push(i as u8).push(j as u8), 280), y[j]), k)),
                        cbd(shake256(r.push((k + i) as u8), 128), 2),
                    ),
            );
            let v = poly_add(
                poly_add(inv_ntt(psum(|j: int| basemul(t_hat[j], y[j]), k)), cbd(shake256(r.push((2 * k) as u8), 128), 2)),
                poly_decompress(byte_decode(m, 1), 1),
            );
            concat_blocks(Seq::new(k, |i: int| byte_encode(poly_compress(u[i], du), du))) + byte_encode(
                poly_compress(v, dv),
                dv,
            )
        }),
{
    let y = Seq::new(k, |j: int| ntt(cbd(shake256(r.push(j as u8), 64 * eta1), eta1)));
    let y0 = Seq::new(k, |i: int| ntt(crate::pke::prf_poly(r, eta1, i as nat)));
    assert(y0 =~= y);
    let u = Seq::new(
        k,
        |i: int|
            poly_add(
                inv_ntt(psum(|j: int| basemul(sample_ntt_from(rho.push(i as u8).push(j as u8), 280), y[j]), k)),
                cbd(shake256(r.push((k + i) as u8), 128), 2),
            ),
    );
    let u0 = Seq::new(
        k,
        |i: int| poly_add(inv_ntt(crate::pke::col_dot(rho, i as nat, y0, k)), crate::pke::prf_poly(r, 2, (k + i) as nat)),
    );
    assert forall|i: int| 0 <= i < k implies #[trigger] u0[i] == u[i] by {
        lemma_col_dot_psum(rho, i as nat, y, k);
        let f1 = |j: int| basemul(matrix_entry(rho, j as nat, i as nat), y[j]);
        let f2 = |j: int| basemul(sample_ntt_from(rho.push(i as u8).push(j as u8), 280), y[j]);
        assert forall|j: int| 0 <= j < k implies #[trigger] f1(j) == f2(j) by {}
        lemma_psum_ext(f1, f2, k);
    }
    assert(u0 =~= u);
    lemma_vec_dot_psum(t_hat, y, k);
    assert(Seq::new(k, |i: int| byte_encode(poly_compress(u0[i], du), du)) =~= Seq::new(
        k,
        |i: int| byte_encode(poly_compress(u[i], du), du),
    ));
}

} // verus!
