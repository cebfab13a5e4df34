//! Properties that relate several operations of the KEM.
use vstd::prelude::*;
use crate::crypto::{sha3_256, sha3_512, shake256};
use crate::encode::{byte_decode, byte_encode};
use crate::correctness::{kpke_noise, lemma_kpke_correct, poly_small};
use crate::kem::{
    decaps_spec, decaps_with_tag_spec, dk_encode, dk_from_bytes_spec, dk_len, dk_wf, ek_from_bytes_spec,
    ek_len, encaps_spec, encaps_with_tag_spec, keygen_spec, pke_decrypt, pke_encrypt, DecapsulationKeyModel,
    EncapsulationKeyModel,
};
use crate::pke::{keygen_rho, keygen_s_hat, keygen_t_hat, kpke_encrypt, EncryptionKeyModel};
use crate::param::KemParams;
use crate::pke::{
    concat_blocks, ek_decode, ek_encode, ek_wf, encode_polyvec, lemma_concat_blocks_index, lemma_concat_blocks_len,
    lemma_decode_polyvec_prefix, lemma_ek_codec, lemma_ek_encode_decode,
    lemma_polyvec_codec, lemma_polyvec_encode_decode, polyvec_canonical,
};

verus! {

/// Decapsulating what was encapsulated to a key pair's encapsulation key
/// returns the encapsulated shared key, whenever K-PKE decryption of the
/// ciphertext gives back the encrypted message.
pub proof fn lemma_decapsulate_encapsulated<P: KemParams>(dk: DecapsulationKeyModel, m: Seq<u8>)
    requires
        pke_decrypt::<P>(dk.dk_pke, encaps_spec::<P>(dk.ek, m).0) == m,
    ensures
        decaps_spec::<P>(dk, encaps_spec::<P>(dk.ek, m).0) == encaps_spec::<P>(dk.ek, m).1,
{
}

/// The same for the tag-bound operations, with the same tag on both sides.
pub proof fn lemma_decapsulate_encapsulated_with_tag<P: KemParams>(
    dk: DecapsulationKeyModel,
    m: Seq<u8>,
    tag: Seq<u8>,
)
    requires
        pke_decrypt::<P>(dk.dk_pke, encaps_with_tag_spec::<P>(dk.ek, m, tag).0) == m,
    ensures
        decaps_with_tag_spec::<P>(dk, encaps_with_tag_spec::<P>(dk.ek, m, tag).0, tag)
            == encaps_with_tag_spec::<P>(dk.ek, m, tag).1,
{
}

/// With the empty tag, tag-bound encapsulation is plain encapsulation.
pub proof fn lemma_empty_tag_encapsulate<P: KemParams>(ek: EncapsulationKeyModel, m: Seq<u8>)
    ensures
        encaps_with_tag_spec::<P>(ek, m, Seq::empty()) == encaps_spec::<P>(ek, m),
{
    assert(m + ek.h + Seq::<u8>::empty() =~= m + ek.h);
}

/// With the empty tag, tag-bound decapsulation is plain decapsulation.
pub proof fn lemma_empty_tag_decapsulate<P: KemParams>(dk: DecapsulationKeyModel, c: Seq<u8>)
    ensures
        decaps_with_tag_spec::<P>(dk, c, Seq::empty()) == decaps_spec::<P>(dk, c),
{
    let m = pke_decrypt::<P>(dk.dk_pke, c);
    assert(m + dk.ek.h + Seq::<u8>::empty() =~= m + dk.ek.h);
    assert(dk.z + c + Seq::<u8>::empty() =~= dk.z + c);
}

/// Decoding the encoding of an encapsulation key whose `h` is the hash of its
/// encoding gives the key back.
pub proof fn lemma_encapsulation_key_codec<P: KemParams>(ek: EncapsulationKeyModel)
    requires
        ek_wf(ek.ek_pke, P::k_spec()),
        ek.h == sha3_256(ek_encode(ek.ek_pke)),
    ensures
        ek_encode(ek.ek_pke).len() == ek_len::<P>(),
        ek_from_bytes_spec::<P>(ek_encode(ek.ek_pke)) == ek,
{
    lemma_ek_codec(ek.ek_pke, P::k_spec());
}

/// Decoding the encoding of a well-formed decapsulation key gives the key back.
pub proof fn lemma_decapsulation_key_codec<P: KemParams>(dk: DecapsulationKeyModel)
    requires
        dk_wf::<P>(dk),
    ensures
        dk_encode(dk).len() == dk_len::<P>(),
        dk_from_bytes_spec::<P>(dk_encode(dk)) == dk,
{
    let k = P::k_spec();
    let s = encode_polyvec(dk.dk_pke);
    let e = ek_encode(dk.ek.ek_pke);
    lemma_polyvec_codec(dk.dk_pke, k);
    lemma_ek_codec(dk.ek.ek_pke, k);
    let b = dk_encode(dk);
    assert(b == s + (e + dk.ek.h + dk.z)) by {
        assert(b =~= s + (e + dk.ek.h + dk.z));
    }
    lemma_decode_polyvec_prefix(s, e + dk.ek.h + dk.z, k);
    let ki: int = k as int;
    assert(b.subrange(384 * ki, 768 * ki + 32) =~= e);
    assert(b.subrange(768 * ki + 32, 768 * ki + 64) =~= dk.ek.h);
    assert(b.subrange(768 * ki + 64, 768 * ki + 96) =~= dk.z);
}

/// The `ek` part of an encoded decapsulation key `dk_pke || ek || h || z`.
pub open spec fn dk_ek_part<P: KemParams>(b: Seq<u8>) -> Seq<u8> {
    let k: int = P::k_spec() as int;
    b.subrange(384 * k, 768 * k + 32)
}

/// The `h` part of an encoded decapsulation key `dk_pke || ek || h || z`.
pub open spec fn dk_h_part<P: KemParams>(b: Seq<u8>) -> Seq<u8> {
    let k: int = P::k_spec() as int;
    b.subrange(768 * k + 32, 768 * k + 64)
}

/// Re-encoding a decoded encapsulation key gives the bytes back, when every
/// twelve-bit coefficient of its polynomial part is below q.
pub proof fn lemma_encapsulation_key_reencode<P: KemParams>(enc: Seq<u8>)
    requires
        enc.len() == ek_len::<P>(),
        polyvec_canonical(enc, P::k_spec()),
    ensures
        ek_encode(ek_from_bytes_spec::<P>(enc).ek_pke) == enc,
        ek_from_bytes_spec::<P>(enc).h == sha3_256(enc),
{
    lemma_ek_encode_decode(enc, P::k_spec());
}

/// Re-encoding a decoded decapsulation key gives the bytes back, when every
/// twelve-bit coefficient of its `dk_pke` and `ek` parts is below q; the `h`
/// and `z` parts may hold anything.
pub proof fn lemma_decapsulation_key_reencode<P: KemParams>(enc: Seq<u8>)
    requires
        enc.len() == dk_len::<P>(),
        polyvec_canonical(enc, P::k_spec()),
        polyvec_canonical(dk_ek_part::<P>(enc), P::k_spec()),
    ensures
        dk_encode(dk_from_bytes_spec::<P>(enc)) == enc,
{
    let k = P::k_spec();
    let ki = k as int;
    let ek_b = enc.subrange(384 * ki, 768 * ki + 32);
    lemma_polyvec_encode_decode(enc, k);
    lemma_ek_encode_decode(ek_b, k);
    assert(enc.subrange(0, 384 * ki) + ek_b + enc.subrange(768 * ki + 32, 768 * ki + 64)
        + enc.subrange(768 * ki + 64, 768 * ki + 96) =~= enc);
}

/// Decoding a decapsulation key keeps its stored `h` and does not check it:
/// the encapsulation key inside equals the one decoded from the `ek` part on
/// its own exactly when the stored `h` is H of that part.
pub proof fn lemma_decapsulation_key_keeps_hash<P: KemParams>(enc: Seq<u8>)
    requires
        enc.len() == dk_len::<P>(),
        polyvec_canonical(dk_ek_part::<P>(enc), P::k_spec()),
    ensures
        dk_from_bytes_spec::<P>(enc).ek.h == dk_h_part::<P>(enc),
        dk_from_bytes_spec::<P>(enc).ek == ek_from_bytes_spec::<P>(dk_ek_part::<P>(enc))
            <==> dk_h_part::<P>(enc) == sha3_256(dk_ek_part::<P>(enc)),
{
    let k = P::k_spec();
    let ki = k as int;
    let ek_b = enc.subrange(384 * ki, 768 * ki + 32);
    lemma_encapsulation_key_reencode::<P>(ek_b);
}

/// The decryption noise of encapsulating `m` to the key pair of the seeds
/// `d` and `z`, whose randomness is `r = G(m || H(ek))[32..64]`.
pub open spec fn encaps_noise<P: KemParams>(d: Seq<u8>, z: Seq<u8>, m: Seq<u8>) -> Seq<u16> {
    let r = sha3_512(m + keygen_spec::<P>(d, z).ek.h).subrange(32, 64);
    kpke_noise(d, m, r, P::k_spec(), P::eta1_spec(), P::du_spec(), P::dv_spec())
}

/// Decapsulating what was encapsulated to a generated key pair returns the
/// encapsulated shared key, whenever every coefficient of the decryption
/// noise has its centred value in `[-832, 831]`.
pub proof fn lemma_keygen_decapsulate_encapsulated<P: KemParams>(d: Seq<u8>, z: Seq<u8>, m: Seq<u8>)
    requires
        m.len() == 32,
        poly_small(encaps_noise::<P>(d, z, m)),
    ensures
        decaps_spec::<P>(keygen_spec::<P>(d, z), encaps_spec::<P>(keygen_spec::<P>(d, z).ek, m).0)
            == encaps_spec::<P>(keygen_spec::<P>(d, z).ek, m).1,
{
    let dk = keygen_spec::<P>(d, z);
    let r = sha3_512(m + dk.ek.h).subrange(32, 64);
    P::lemma_valid();
    lemma_kpke_correct(d, m, r, P::k_spec(), P::eta1_spec(), P::du_spec(), P::dv_spec());
    lemma_decapsulate_encapsulated::<P>(dk, m);
}

/// The same for the tag-bound operations, with the same tag on both sides;
/// the randomness is then `G(m || H(ek) || tag)[32..64]`.
pub proof fn lemma_keygen_decapsulate_encapsulated_with_tag<P: KemParams>(
    d: Seq<u8>,
    z: Seq<u8>,
    m: Seq<u8>,
    tag: Seq<u8>,
)
    requires
        m.len() == 32,
        poly_small(
            kpke_noise(
                d,
                m,
                sha3_512(m + keygen_spec::<P>(d, z).ek.h + tag).subrange(32, 64),
                P::k_spec(),
                P::eta1_spec(),
                P::du_spec(),
                P::dv_spec(),
            ),
        ),
    ensures
        decaps_with_tag_spec::<P>(
            keygen_spec::<P>(d, z),
            encaps_with_tag_spec::<P>(keygen_spec::<P>(d, z).ek, m, tag).0,
            tag,
        ) == encaps_with_tag_spec::<P>(keygen_spec::<P>(d, z).ek, m, tag).1,
{
    let dk = keygen_spec::<P>(d, z);
    let r = sha3_512(m + dk.ek.h + tag).subrange(32, 64);
    P::lemma_valid();
    lemma_kpke_correct(d, m, r, P::k_spec(), P::eta1_spec(), P::du_spec(), P::dv_spec());
    lemma_decapsulate_encapsulated_with_tag::<P>(dk, m, tag);
}

/// Decapsulation accepts a ciphertext only if re-encrypting the message it
/// decrypts to reproduces it in every byte. Where the re-encryption differs
/// from `c` at any position, the result is the rejection key `J(z || c)`;
/// where it agrees at every position of `c` and has `c`'s length, the result
/// is the first half of `G(m' || h)`.
pub proof fn lemma_decapsulate_compares_every_byte<P: KemParams>(dk: DecapsulationKeyModel, c: Seq<u8>)
    ensures
        ({
            let m = pke_decrypt::<P>(dk.dk_pke, c);
            let g = sha3_512(m + dk.ek.h);
            let cp = pke_encrypt::<P>(dk.ek.ek_pke, m, g.subrange(32, 64));
            &&& (cp.len() != c.len() || exists|i: int| 0 <= i < c.len() && cp[i] != c[i]) ==> decaps_spec::<P>(
                dk,
                c,
            ) == shake256(dk.z + c, 32)
            &&& (cp.len() == c.len() && forall|i: int| 0 <= i < c.len() ==> cp[i] == c[i]) ==> decaps_spec::<P>(
                dk,
                c,
            ) == g.subrange(0, 32)
        }),
{
    let m = pke_decrypt::<P>(dk.dk_pke, c);
    let g = sha3_512(m + dk.ek.h);
    let cp = pke_encrypt::<P>(dk.ek.ek_pke, m, g.subrange(32, 64));
    if cp.len() == c.len() && forall|i: int| 0 <= i < c.len() ==> cp[i] == c[i] {
        assert(cp =~= c);
    }
}

/// Changing one byte of a ciphertext that decapsulation accepts, without
/// changing the message it decrypts to, gives the rejection key `J(z || c')`.
pub proof fn lemma_decapsulate_tampered<P: KemParams>(dk: DecapsulationKeyModel, c: Seq<u8>, i: int, b: u8)
    requires
        0 <= i < c.len(),
        b != c[i],
        c == pke_encrypt::<P>(
            dk.ek.ek_pke,
            pke_decrypt::<P>(dk.dk_pke, c),
            sha3_512(pke_decrypt::<P>(dk.dk_pke, c) + dk.ek.h).subrange(32, 64),
        ),
        pke_decrypt::<P>(dk.dk_pke, c.update(i, b)) == pke_decrypt::<P>(dk.dk_pke, c),
    ensures
        decaps_spec::<P>(dk, c.update(i, b)) == shake256(dk.z + c.update(i, b), 32),
{
    lemma_decapsulate_compares_every_byte::<P>(dk, c.update(i, b));
    assert(c[i] != c.update(i, b)[i]);
}

/// The tag-bound form of `lemma_decapsulate_compares_every_byte`: with the
/// tag in `G(m' || h || tag)` and in the rejection key `J(z || c || tag)`.
pub proof fn lemma_decapsulate_with_tag_compares_every_byte<P: KemParams>(
    dk: DecapsulationKeyModel,
    c: Seq<u8>,
    tag: Seq<u8>,
)
    ensures
        ({
            let m = pke_decrypt::<P>(dk.dk_pke, c);
            let g = sha3_512(m + dk.ek.h + tag);
            let cp = pke_encrypt::<P>(dk.ek.ek_pke, m, g.subrange(32, 64));
            &&& (cp.len() != c.len() || exists|i: int| 0 <= i < c.len() && cp[i] != c[i])
                ==> decaps_with_tag_spec::<P>(dk, c, tag) == shake256(dk.z + c + tag, 32)
            &&& (cp.len() == c.len() && forall|i: int| 0 <= i < c.len() ==> cp[i] == c[i])
                ==> decaps_with_tag_spec::<P>(dk, c, tag) == g.subrange(0, 32)
        }),
{
    let m = pke_decrypt::<P>(dk.dk_pke, c);
    let g = sha3_512(m + dk.ek.h + tag);
    let cp = pke_encrypt::<P>(dk.ek.ek_pke, m, g.subrange(32, 64));
    if cp.len() == c.len() && forall|i: int| 0 <= i < c.len() ==> cp[i] == c[i] {
        assert(cp =~= c);
    }
}

/// The encoding of an encryption key `(t-hat, rho)` is block by block:
/// bytes `[384 i, 384 i + 384)` are ByteEncode_12(t-hat[i]) and the last 32
/// bytes are `rho`. Decoding reads block `i` into `t-hat[i]` and the 32
/// bytes after the `k` blocks into `rho`.
pub proof fn lemma_encryption_key_blocks(ek: EncryptionKeyModel, b: Seq<u8>, k: nat, i: int)
    requires
        ek.t_hat.len() == k,
        ek.rho.len() == 32,
        0 <= i < k,
    ensures
        ek_encode(ek).len() == 384 * k + 32,
        ek_encode(ek).subrange(384 * i, 384 * i + 384) == byte_encode(ek.t_hat[i], 12),
        ek_encode(ek).subrange((384 * k) as int, (384 * k + 32) as int) == ek.rho,
        ek_decode(b, k).t_hat.len() == k,
        ek_decode(b, k).t_hat[i] == byte_decode(b.subrange(384 * i, 384 * i + 384), 12),
        ek_decode(b, k).rho == b.subrange((384 * k) as int, (384 * k + 32) as int),
{
    let blocks = Seq::new(k, |j: int| byte_encode(ek.t_hat[j], 12));
    assert forall|j: int| 0 <= j < blocks.len() implies (#[trigger] blocks[j]).len() == 384 by {}
    lemma_concat_blocks_len(blocks, 384);
    lemma_concat_blocks_index(blocks, 384, i);
    let x = concat_blocks(blocks);
    assert(384 * i + 384 <= 384 * k) by (nonlinear_arith)
        requires
            i < k,
    ;
    assert(ek_encode(ek) == x + ek.rho);
    assert(ek_encode(ek).subrange(384 * i, 384 * i + 384) =~= x.subrange(i * 384, i * 384 + 384));
    assert(ek_encode(ek).subrange((384 * k) as int, (384 * k + 32) as int) =~= ek.rho);
}

/// The encoding of a decapsulation key is `dk_pke || ek || h || z` block by
/// block: bytes `[384 i, 384 i + 384)` are ByteEncode_12(s-hat[i]), then come
/// the encryption key's encoding, `h` and `z`. Decoding reads block `i` into
/// `s-hat[i]`.
pub proof fn lemma_decapsulation_key_blocks<P: KemParams>(dk: DecapsulationKeyModel, b: Seq<u8>, i: int)
    requires
        dk_wf::<P>(dk),
        0 <= i < P::k_spec(),
    ensures
        dk_encode(dk).len() == dk_len::<P>(),
        dk_encode(dk).subrange(384 * i, 384 * i + 384) == byte_encode(dk.dk_pke[i], 12),
        dk_encode(dk).subrange((384 * P::k_spec()) as int, (768 * P::k_spec() + 32) as int) == ek_encode(dk.ek.ek_pke),
        dk_encode(dk).subrange((768 * P::k_spec() + 32) as int, (768 * P::k_spec() + 64) as int) == dk.ek.h,
        dk_encode(dk).subrange((768 * P::k_spec() + 64) as int, (768 * P::k_spec() + 96) as int) == dk.z,
        dk_from_bytes_spec::<P>(b).dk_pke.len() == P::k_spec(),
        dk_from_bytes_spec::<P>(b).dk_pke[i] == byte_decode(b.subrange(384 * i, 384 * i + 384), 12),
{
    let k = P::k_spec();
    let ki = k as int;
    let blocks = Seq::new(k, |j: int| byte_encode(dk.dk_pke[j], 12));
    assert forall|j: int| 0 <= j < blocks.len() implies (#[trigger] blocks[j]).len() == 384 by {}
    lemma_concat_blocks_len(blocks, 384);
    lemma_concat_blocks_index(blocks, 384, i);
    let x = concat_blocks(blocks);
    lemma_ek_codec(dk.ek.ek_pke, k);
    let e = ek_encode(dk.ek.ek_pke);
    assert(384 * i + 384 <= 384 * k) by (nonlinear_arith)
        requires
            i < k,
    ;
    let enc = dk_encode(dk);
    assert(enc == x + e + dk.ek.h + dk.z);
    assert(enc.subrange(384 * i, 384 * i + 384) =~= x.subrange(i * 384, i * 384 + 384));
    assert(enc.subrange((384 * ki) as int, (768 * ki + 32) as int) =~= e);
    assert(enc.subrange((768 * ki + 32) as int, (768 * ki + 64) as int) =~= dk.ek.h);
    assert(enc.subrange((768 * ki + 64) as int, (768 * ki + 96) as int) =~= dk.z);
}

/// ML-KEM.KeyGen_internal(d, z): the K-PKE key pair of `d`, the hash
/// `h = H(ek)` of the encoded encryption key, and `z` as given.
pub proof fn lemma_keygen_parts<P: KemParams>(d: Seq<u8>, z: Seq<u8>)
    ensures
        keygen_spec::<P>(d, z).dk_pke == keygen_s_hat(d, P::k_spec(), P::eta1_spec()),
        keygen_spec::<P>(d, z).ek.ek_pke.t_hat == keygen_t_hat(d, P::k_spec(), P::eta1_spec()),
        keygen_spec::<P>(d, z).ek.ek_pke.rho == keygen_rho(d, P::k_spec()),
        keygen_spec::<P>(d, z).ek.h == sha3_256(ek_encode(keygen_spec::<P>(d, z).ek.ek_pke)),
        keygen_spec::<P>(d, z).z == z,
{
}

/// ML-KEM.Encaps_internal(ek, m): `(K, r) = G(m || h)`; the shared key is
/// the first 32 bytes of G and the ciphertext is K-PKE.Encrypt(ek, m, r)
/// with `r` the last 32. With a tag, G runs over `m || h || tag`.
pub proof fn lemma_encaps_parts<P: KemParams>(ek: EncapsulationKeyModel, m: Seq<u8>, tag: Seq<u8>)
    ensures
        encaps_spec::<P>(ek, m).1 == sha3_512(m + ek.h).subrange(0, 32),
        encaps_spec::<P>(ek, m).0 == kpke_encrypt(
            ek.ek_pke.t_hat,
            ek.ek_pke.rho,
            m,
            sha3_512(m + ek.h).subrange(32, 64),
            P::k_spec(),
            P::eta1_spec(),
            P::du_spec(),
            P::dv_spec(),
        ),
        encaps_with_tag_spec::<P>(ek, m, tag).1 == sha3_512(m + ek.h + tag).subrange(0, 32),
        encaps_with_tag_spec::<P>(ek, m, tag).0 == kpke_encrypt(
            ek.ek_pke.t_hat,
            ek.ek_pke.rho,
            m,
            sha3_512(m + ek.h + tag).subrange(32, 64),
            P::k_spec(),
            P::eta1_spec(),
            P::du_spec(),
            P::dv_spec(),
        ),
{
}

} // verus!
