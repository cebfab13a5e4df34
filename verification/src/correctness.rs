//! Correctness of K-PKE (FIPS 203 §5): decrypting an encryption under a key
//! pair from K-PKE.KeyGen gives the message back whenever every coefficient
//! of the decryption noise is small.
use vstd::prelude::*;
use crate::algebra::{
    lemma_col_dot_psum, lemma_inv_ntt_linear, lemma_matrix_transpose, lemma_psum_wf, lemma_vec_dot_add_left,
    lemma_vec_dot_add_right, lemma_vec_dot_wf,
};
use crate::encode::{
    byte_decode, byte_encode, decode_modulus, lemma_canonical_narrow, lemma_compress_fits, lemma_decode_encode,
    lemma_decompress_bit, lemma_decompress_wf, lemma_encode_decode, poly_compress, poly_decompress,
    valid_width,
};
use crate::field::{
    fadd, fsub, lemma_poly_add_assoc, lemma_poly_add_comm, lemma_poly_add_sub, poly_add, poly_sub, poly_wf,
};
use crate::ntt::{inv_ntt, lemma_ntt_add, lemma_ntt_inv_ntt, ntt};
use crate::pke::{
    col_dot, concat_blocks, keygen_e_hat, keygen_rho, keygen_s_hat, keygen_t_hat, kpke_decrypt, kpke_encrypt,
    lemma_concat_blocks_index, lemma_concat_blocks_len, params_valid, prf_poly, row_dot, vec_dot,
};
use vstd::arithmetic::power2::lemma2_to64;

verus! {

/// y-hat of K-PKE.Encrypt: the NTT of the vector sampled from `r`.
pub open spec fn enc_y_hat(r: Seq<u8>, k: nat, eta1: nat) -> Seq<Seq<u16>> {
    Seq::new(k, |i: int| ntt(prf_poly(r, eta1, i as nat)))
}

/// u of K-PKE.Encrypt, before compression.
pub open spec fn enc_u(rho: Seq<u8>, r: Seq<u8>, k: nat, eta1: nat) -> Seq<Seq<u16>> {
    Seq::new(
        k,
        |i: int|
            poly_add(inv_ntt(col_dot(rho, i as nat, enc_y_hat(r, k, eta1), k)), prf_poly(r, 2, (k + i) as nat)),
    )
}

/// mu of K-PKE.Encrypt: the message bits, decompressed.
pub open spec fn enc_mu(m: Seq<u8>) -> Seq<u16> {
    poly_decompress(byte_decode(m, 1), 1)
}

/// v of K-PKE.Encrypt, before compression.
pub open spec fn enc_v(t_hat: Seq<Seq<u16>>, m: Seq<u8>, r: Seq<u8>, k: nat, eta1: nat) -> Seq<u16> {
    poly_add(
        poly_add(inv_ntt(vec_dot(t_hat, enc_y_hat(r, k, eta1), k)), prf_poly(r, 2, 2 * k)),
        enc_mu(m),
    )
}

/// Compression to `d` bits and back.
pub open spec fn roundtrip(f: Seq<u16>, d: nat) -> Seq<u16> {
    poly_decompress(poly_compress(f, d), d)
}

/// The decryption noise of K-PKE for the key pair of the seed `d`, the
/// message `m` and the randomness `r`:
/// `e2 + cv + NTT^-1(e-hat . y-hat) - NTT^-1(s-hat . NTT(e1 + cu))`, where
/// `cu` and `cv` are what compressing `u` and `v` changes.
pub open spec fn kpke_noise(d: Seq<u8>, m: Seq<u8>, r: Seq<u8>, k: nat, eta1: nat, du: nat, dv: nat) -> Seq<u16> {
    let u = enc_u(keygen_rho(d, k), r, k, eta1);
    let v = enc_v(keygen_t_hat(d, k, eta1), m, r, k, eta1);
    let cv = poly_sub(roundtrip(v, dv), v);
    let d1 = Seq::new(
        k,
        |i: int| ntt(poly_add(prf_poly(r, 2, (k + i) as nat), poly_sub(roundtrip(u[i], du), u[i]))),
    );
    poly_sub(
        poly_add(
            poly_add(prf_poly(r, 2, 2 * k), cv),
            inv_ntt(vec_dot(keygen_e_hat(d, k, eta1), enc_y_hat(r, k, eta1), k)),
        ),
        inv_ntt(vec_dot(keygen_s_hat(d, k, eta1), d1, k)),
    )
}

/// Every coefficient's centred value lies in `[-832, 831]`.
pub open spec fn poly_small(f: Seq<u16>) -> bool {
    forall|i: int| 0 <= i < 256 ==> #[trigger] f[i] < 832 || f[i] >= 2497
}

/// K-PKE.Encrypt as the compressed and encoded `u` and `v`.
proof fn lemma_encrypt_parts(
    t_hat: Seq<Seq<u16>>,
    rho: Seq<u8>,
    m: Seq<u8>,
    r: Seq<u8>,
    k: nat,
    eta1: nat,
    du: nat,
    dv: nat,
)
    ensures
        kpke_encrypt(t_hat, rho, m, r, k, eta1, du, dv) == concat_blocks(
            Seq::new(k, |i: int| byte_encode(poly_compress(enc_u(rho, r, k, eta1)[i], du), du)),
        ) + byte_encode(poly_compress(enc_v(t_hat, m, r, k, eta1), dv), dv),
{
    let u = enc_u(rho, r, k, eta1);
    let y_hat = Seq::new(k, |i: int| ntt(prf_poly(r, eta1, i as nat)));
    assert(y_hat =~= enc_y_hat(r, k, eta1));
    let u2 = Seq::new(
        k,
        |i: int| poly_add(inv_ntt(col_dot(rho, i as nat, y_hat, k)), prf_poly(r, 2, (k + i) as nat)),
    );
    assert(u2 =~= u);
    assert(Seq::new(k, |i: int| byte_encode(poly_compress(u2[i], du), du)) =~= Seq::new(
        k,
        |i: int| byte_encode(poly_compress(u[i], du), du),
    ));
}

/// The integer identity behind one coefficient of the decryption equation.
proof fn lemma_noise_int(a: int, b: int, c: int, d: int, e2: int, m: int)
    ensures
        (a - (b + c) % 3329) % 3329 == (m + ((((e2 + (a - ((((b + d) % 3329 + e2) % 3329) + m) % 3329) % 3329)
            % 3329 + d) % 3329 - c) % 3329)) % 3329,
{
    let x1 = b + d;
    let x2 = x1 % 3329 + e2;
    let x3 = x2 % 3329 + m;
    let x4 = a - x3 % 3329;
    let x5 = e2 + x4 % 3329;
    let x6 = x5 % 3329 + d;
    let x7 = x6 % 3329 - c;
    let x8 = m + x7 % 3329;
    let x9 = b + c;
    let x10 = a - x9 % 3329;
    vstd::arithmetic::div_mod::lemma_fundamental_div_mod(x1, 3329);
    vstd::arithmetic::div_mod::lemma_fundamental_div_mod(x2, 3329);
    vstd::arithmetic::div_mod::lemma_fundamental_div_mod(x3, 3329);
    vstd::arithmetic::div_mod::lemma_fundamental_div_mod(x4, 3329);
    vstd::arithmetic::div_mod::lemma_fundamental_div_mod(x5, 3329);
    vstd::arithmetic::div_mod::lemma_fundamental_div_mod(x6, 3329);
    vstd::arithmetic::div_mod::lemma_fundamental_div_mod(x7, 3329);
    vstd::arithmetic::div_mod::lemma_fundamental_div_mod(x8, 3329);
    vstd::arithmetic::div_mod::lemma_fundamental_div_mod(x9, 3329);
    vstd::arithmetic::div_mod::lemma_fundamental_div_mod(x10, 3329);
    let k = x9 / 3329 - x10 / 3329 - x1 / 3329 - x2 / 3329 - x3 / 3329 + x4 / 3329 + x5 / 3329 + x6 / 3329
        + x7 / 3329 + x8 / 3329;
    assert(x10 % 3329 - x8 % 3329 == 3329 * k);
    assert(x10 % 3329 == x8 % 3329);
}

/// One coefficient of the decryption identity `v' - (p + s) = mu + noise`,
/// where `v = p + e + e2 + mu` and `noise = e2 + (v' - v) + e - s`.
proof fn lemma_noise_coeff(a: u16, b: u16, c: u16, d: u16, e2: u16, m: u16)
    ensures
        fsub(a, fadd(b, c)) == fadd(
            m,
            fsub(fadd(fadd(e2, fsub(a, fadd(fadd(fadd(b, d), e2), m))), d), c),
        ),
{
    lemma_noise_int(a as int, b as int, c as int, d as int, e2 as int, m as int);
}

/// Decrypting `mu + noise` with small noise gives the message back.
proof fn lemma_message_recovered(m: Seq<u8>, n: Seq<u16>)
    requires
        m.len() == 32,
        poly_small(n),
        poly_wf(n),
    ensures
        byte_encode(poly_compress(poly_add(enc_mu(m), n), 1), 1) == m,
{
    let bits = byte_decode(m, 1);
    lemma2_to64();
    assert(decode_modulus(1) == 2);
    assert forall|i: int| 0 <= i < 256 implies #[trigger] poly_compress(poly_add(enc_mu(m), n), 1)[i]
        == bits[i] by {
        assert(bits[i] < 2);
        lemma_decompress_bit(bits[i], n[i]);
    }
    assert(poly_compress(poly_add(enc_mu(m), n), 1) =~= bits);
    lemma_canonical_narrow(m, 1);
    lemma_encode_decode(m, 1);
}

/// K-PKE.Decrypt of an encoded `(u, v)` decrypts the decompressed `u` and `v`.
proof fn lemma_decrypt_parts(s_hat: Seq<Seq<u16>>, u: Seq<Seq<u16>>, v: Seq<u16>, k: nat, du: nat, dv: nat)
    requires
        valid_width(du),
        valid_width(dv),
        du < 12,
        dv < 12,
    ensures
        kpke_decrypt(
            s_hat,
            concat_blocks(Seq::new(k, |i: int| byte_encode(poly_compress(u[i], du), du))) + byte_encode(
                poly_compress(v, dv),
                dv,
            ),
            k,
            du,
            dv,
        ) == byte_encode(
            poly_compress(
                poly_sub(
                    roundtrip(v, dv),
                    inv_ntt(vec_dot(s_hat, Seq::new(k, |i: int| ntt(roundtrip(u[i], du))), k)),
                ),
                1,
            ),
            1,
        ),
{
    let w: int = 32 * du as int;
    let blocks = Seq::new(k, |i: int| byte_encode(poly_compress(u[i], du), du));
    let x = concat_blocks(blocks);
    let y = byte_encode(poly_compress(v, dv), dv);
    let c = x + y;
    assert forall|j: int| 0 <= j < blocks.len() implies (#[trigger] blocks[j]).len() == w by {}
    lemma_concat_blocks_len(blocks, w as nat);
    assert(x.len() == k * w);
    let ud = Seq::new(
        k,
        |i: int| poly_decompress(byte_decode(c.subrange(32 * du * i, 32 * du * i + 32 * du), du), du),
    );
    assert forall|i: int| 0 <= i < k implies #[trigger] ud[i] == roundtrip(u[i], du) by {
        lemma_concat_blocks_index(blocks, w as nat, i);
        assert(32 * du * i == i * w && i * w + w <= k * w) by (nonlinear_arith)
            requires
                w == 32 * du,
                0 <= i < k,
        ;
        assert(c.subrange(i * w, i * w + w) =~= x.subrange(i * w, i * w + w));
        lemma_compress_fits(u[i], du);
        lemma_decode_encode(poly_compress(u[i], du), du);
    }
    assert(k * w == 32 * du * k) by (nonlinear_arith)
        requires
            w == 32 * du,
    ;
    assert(c.subrange((32 * du * k) as int, (32 * du * k + 32 * dv) as int) =~= y);
    lemma_compress_fits(v, dv);
    lemma_decode_encode(poly_compress(v, dv), dv);
    let nu = Seq::new(k, |i: int| ntt(roundtrip(u[i], du)));
    assert(Seq::new(k, |i: int| ntt(ud[i])) =~= nu);
}

/// The decryption equation: what K-PKE.Decrypt computes before rounding is
/// `mu + noise`.
#[verifier::rlimit(50)]
proof fn lemma_decryption_equation(d: Seq<u8>, m: Seq<u8>, r: Seq<u8>, k: nat, eta1: nat, du: nat, dv: nat)
    requires
        params_valid(k, eta1, du, dv),
    ensures
        poly_sub(
            roundtrip(enc_v(keygen_t_hat(d, k, eta1), m, r, k, eta1), dv),
            inv_ntt(
                vec_dot(
                    keygen_s_hat(d, k, eta1),
                    Seq::new(k, |i: int| ntt(roundtrip(enc_u(keygen_rho(d, k), r, k, eta1)[i], du))),
                    k,
                ),
            ),
        ) == poly_add(enc_mu(m), kpke_noise(d, m, r, k, eta1, du, dv)),
{
    let rho = keygen_rho(d, k);
    let s = keygen_s_hat(d, k, eta1);
    let e = keygen_e_hat(d, k, eta1);
    let t = keygen_t_hat(d, k, eta1);
    let y = enc_y_hat(r, k, eta1);
    let u = enc_u(rho, r, k, eta1);
    let v = enc_v(t, m, r, k, eta1);
    let mu = enc_mu(m);
    let e2 = prf_poly(r, 2, 2 * k);
    let cols = Seq::new(k, |i: int| col_dot(rho, i as nat, y, k));
    let rows = Seq::new(k, |i: int| row_dot(rho, i as nat, s, k));
    let nu = Seq::new(k, |i: int| ntt(roundtrip(u[i], du)));
    let d1 = Seq::new(
        k,
        |i: int| ntt(poly_add(prf_poly(r, 2, (k + i) as nat), poly_sub(roundtrip(u[i], du), u[i]))),
    );
    assert forall|i: int| 0 <= i < k implies #[trigger] nu[i] == poly_add(cols[i], d1[i]) by {
        let u0 = inv_ntt(cols[i]);
        let e1 = prf_poly(r, 2, (k + i) as nat);
        let up = roundtrip(u[i], du);
        let cu = poly_sub(up, u[i]);
        assert(u[i] == poly_add(u0, e1));
        lemma_compress_fits(u[i], du);
        lemma_decompress_wf(poly_compress(u[i], du), du);
        lemma_poly_add_sub(up, u[i]);
        lemma_poly_add_comm(cu, u[i]);
        lemma_poly_add_assoc(u0, e1, cu);
        lemma_ntt_add(u0, poly_add(e1, cu));
        lemma_col_dot_psum(rho, i as nat, y, k);
        lemma_psum_wf(|j: int| crate::ntt::basemul(crate::pke::matrix_entry(rho, j as nat, i as nat), y[j]), k);
        lemma_ntt_inv_ntt(cols[i]);
    }
    lemma_vec_dot_add_right(s, nu, cols, d1, k);
    assert forall|i: int| 0 <= i < k implies #[trigger] t[i] == poly_add(rows[i], e[i]) by {}
    lemma_vec_dot_add_left(t, rows, e, y, k);
    lemma_matrix_transpose(rho, s, y, k);
    let p = vec_dot(s, cols, k);
    let ey = vec_dot(e, y, k);
    let sd = vec_dot(s, d1, k);
    lemma_vec_dot_wf(s, cols, k);
    lemma_vec_dot_wf(e, y, k);
    lemma_vec_dot_wf(s, d1, k);
    lemma_inv_ntt_linear(p, ey);
    lemma_inv_ntt_linear(p, sd);
    let ip = inv_ntt(p);
    let iey = inv_ntt(ey);
    let isd = inv_ntt(sd);
    let vp = roundtrip(v, dv);
    assert(v == poly_add(poly_add(poly_add(ip, iey), e2), mu));
    let noise = kpke_noise(d, m, r, k, eta1, du, dv);
    assert(noise == poly_sub(poly_add(poly_add(e2, poly_sub(vp, v)), iey), isd));
    let lhs = poly_sub(vp, inv_ntt(vec_dot(s, nu, k)));
    assert(lhs == poly_sub(vp, poly_add(ip, isd)));
    assert forall|x: int| 0 <= x < 256 implies #[trigger] lhs[x] == poly_add(mu, noise)[x] by {
        lemma_noise_coeff(vp[x], ip[x], isd[x], iey[x], e2[x], mu[x]);
    }
    assert(lhs =~= poly_add(mu, noise));
}

/// K-PKE is correct: under a key pair from K-PKE.KeyGen(d), decrypting the
/// encryption of a 32-byte message `m` with randomness `r` gives `m` back
/// whenever every coefficient of the decryption noise has its centred value
/// in `[-832, 831]`.
pub proof fn lemma_kpke_correct(d: Seq<u8>, m: Seq<u8>, r: Seq<u8>, k: nat, eta1: nat, du: nat, dv: nat)
    requires
        params_valid(k, eta1, du, dv),
        m.len() == 32,
        poly_small(kpke_noise(d, m, r, k, eta1, du, dv)),
    ensures
        kpke_decrypt(
            keygen_s_hat(d, k, eta1),
            kpke_encrypt(keygen_t_hat(d, k, eta1), keygen_rho(d, k), m, r, k, eta1, du, dv),
            k,
            du,
            dv,
        ) == m,
{
    let t = keygen_t_hat(d, k, eta1);
    let rho = keygen_rho(d, k);
    lemma_encrypt_parts(t, rho, m, r, k, eta1, du, dv);
    lemma_decrypt_parts(keygen_s_hat(d, k, eta1), enc_u(rho, r, k, eta1), enc_v(t, m, r, k, eta1), k, du, dv);
    lemma_decryption_equation(d, m, r, k, eta1, du, dv);
    lemma_message_recovered(m, kpke_noise(d, m, r, k, eta1, du, dv));
}

} // verus!
