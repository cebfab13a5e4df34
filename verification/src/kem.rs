//! ML-KEM (FIPS 203 §6): key generation, encapsulation and decapsulation with
//! implicit rejection, and a tag-based variant that binds a caller-chosen tag
//! into both the derived key and the rejection key.
use vstd::prelude::*;
use core::convert::Infallible;
use core::marker::PhantomData;
use zeroize::Zeroize;
use crate::crypto::{concat, hash_g, hash_g_with_tag, hash_h, hash_j, sha3_256, sha3_512, shake256};
use crate::param::KemParams;
use crate::field::polyvec_wf;
use crate::pke::{
    ciphertext_len, decode_polyvec, ek_wf, ek_decode, ek_encode, encode_polyvec, keygen_rho, keygen_s_hat,
    keygen_t_hat, kpke_decrypt, kpke_encrypt, lemma_ek_codec, lemma_polyvec_codec, DecryptionKey, EncryptionKey, EncryptionKeyModel,
};

verus! {

/// `0xff` when `x == y`, `0x00` otherwise, computed without branching.
pub fn constant_time_eq(x: u8, y: u8) -> (r: u8)
    ensures
        r == (if x == y { 0xffu8 } else { 0u8 }),
{
    let diff = x ^ y;
    let dm1 = diff.wrapping_sub(1);
    let is_zero = !diff & dm1;
    let top = is_zero >> 7;
    let r = 0u8.wrapping_sub(top);
    assert(dm1 == (if diff == 0 { 255u8 } else { (diff - 1) as u8 }));
    assert(r == (if top == 0 { 0u8 } else { (256 - top) as u8 }));
    assert(r == (if x == y { 0xffu8 } else { 0u8 })) by (bit_vector)
        requires
            diff == x ^ y,
            dm1 == (if diff == 0 { 255u8 } else { (diff - 1) as u8 }),
            is_zero == !diff & dm1,
            top == is_zero >> 7,
            r == (if top == 0 { 0u8 } else { (256 - top) as u8 }),
    ;
    r
}

/// `0xff` when `a` and `b` hold the same bytes, `0x00` otherwise; every byte
/// pair is compared whatever the outcome.
fn ct_compare(a: &Vec<u8>, b: &Vec<u8>) -> (mask: u8)
    requires
        a@.len() == b@.len(),
    ensures
        mask == (if a@ == b@ { 0xffu8 } else { 0u8 }),
{
    let mut acc: u8 = 0xff;
    assert(a@.take(0) =~= b@.take(0));
    for i in 0..a.len()
        invariant
            a@.len() == b@.len(),
            acc == (if a@.take(i as int) == b@.take(i as int) { 0xffu8 } else { 0u8 }),
    {
        let e = constant_time_eq(a[i], b[i]);
        let ghost old_acc = acc;
        acc = acc & e;
        assert(acc == (if old_acc == 0xff && e == 0xff { 0xffu8 } else { 0u8 })) by (bit_vector)
            requires
                old_acc == 0xff || old_acc == 0,
                e == 0xff || e == 0,
                acc == old_acc & e,
        ;
        proof {
            let ai = a@.take(i as int);
            let bi = b@.take(i as int);
            if ai == bi && a@[i as int] == b@[i as int] {
                assert(a@.take(i + 1) =~= b@.take(i + 1));
            }
            if a@.take(i + 1) == b@.take(i + 1) {
                assert(ai =~= a@.take(i + 1).take(i as int));
                assert(bi =~= b@.take(i + 1).take(i as int));
                assert(a@[i as int] == a@.take(i + 1)[i as int]);
                assert(b@[i as int] == b@.take(i + 1)[i as int]);
            }
        }
    }
    assert(a@.take(a@.len() as int) =~= a@);
    assert(b@.take(b@.len() as int) =~= b@);
    acc
}

/// `x` when `mask` is `0xff`, `y` when it is `0x00`, selected byte by byte
/// without branching.
fn ct_select(mask: u8, x: &[u8; 32], y: &[u8; 32]) -> (r: [u8; 32])
    requires
        mask == 0xff || mask == 0,
    ensures
        r@ == (if mask == 0xff { x@ } else { y@ }),
{
    let mut r = [0u8; 32];
    for i in 0..32usize
        invariant
            mask == 0xff || mask == 0,
            forall|j: int| 0 <= j < i ==> r@[j] == (if mask == 0xff { x@[j] } else { y@[j] }),
    {
        let xi = x[i];
        let yi = y[i];
        let v = (mask & xi) | (!mask & yi);
        assert(v == (if mask == 0xff { xi } else { yi })) by (bit_vector)
            requires
                mask == 0xff || mask == 0,
                v == (mask & xi) | (!mask & yi),
        ;
        r[i] = v;
    }
    assert(r@ =~= (if mask == 0xff { x@ } else { y@ }));
    r
}

/// The mathematical content of an encapsulation key: the K-PKE key and its hash `h`.
pub struct EncapsulationKeyModel {
    pub ek_pke: EncryptionKeyModel,
    pub h: Seq<u8>,
}

/// The mathematical content of a decapsulation key.
pub struct DecapsulationKeyModel {
    pub dk_pke: Seq<Seq<u16>>,
    pub ek: EncapsulationKeyModel,
    pub z: Seq<u8>,
}

/// K-PKE.Encrypt under parameter set `P`.
pub open spec fn pke_encrypt<P: KemParams>(ek: EncryptionKeyModel, m: Seq<u8>, r: Seq<u8>) -> Seq<u8> {
    kpke_encrypt(ek.t_hat, ek.rho, m, r, P::k_spec(), P::eta1_spec(), P::du_spec(), P::dv_spec())
}

/// K-PKE.Decrypt under parameter set `P`.
pub open spec fn pke_decrypt<P: KemParams>(dk: Seq<Seq<u16>>, c: Seq<u8>) -> Seq<u8> {
    kpke_decrypt(dk, c, P::k_spec(), P::du_spec(), P::dv_spec())
}

/// Ciphertext length under parameter set `P`.
pub open spec fn ct_len<P: KemParams>() -> nat {
    ciphertext_len(P::k_spec(), P::du_spec(), P::dv_spec())
}

/// Encoded encapsulation key length under parameter set `P`.
pub open spec fn ek_len<P: KemParams>() -> nat {
    384 * P::k_spec() + 32
}

/// Encoded decapsulation key length under parameter set `P`.
pub open spec fn dk_len<P: KemParams>() -> nat {
    768 * P::k_spec() + 96
}

/// The encapsulation key of an encryption key: `h = H(ek)`.
pub open spec fn ek_with_hash(ek_pke: EncryptionKeyModel) -> EncapsulationKeyModel {
    EncapsulationKeyModel { ek_pke, h: sha3_256(ek_encode(ek_pke)) }
}

/// ML-KEM.KeyGen_internal(d, z) (Algorithm 16).
pub open spec fn keygen_spec<P: KemParams>(d: Seq<u8>, z: Seq<u8>) -> DecapsulationKeyModel {
    let ek_pke = EncryptionKeyModel {
        t_hat: keygen_t_hat(d, P::k_spec(), P::eta1_spec()),
        rho: keygen_rho(d, P::k_spec()),
    };
    DecapsulationKeyModel {
        dk_pke: keygen_s_hat(d, P::k_spec(), P::eta1_spec()),
        ek: ek_with_hash(ek_pke),
        z,
    }
}

/// ML-KEM.Encaps_internal(ek, m) (Algorithm 17): `(c, K)` where `(K, r) = G(m || h)`.
pub open spec fn encaps_spec<P: KemParams>(ek: EncapsulationKeyModel, m: Seq<u8>) -> (Seq<u8>, Seq<u8>) {
    let g = sha3_512(m + ek.h);
    (pke_encrypt::<P>(ek.ek_pke, m, g.subrange(32, 64)), g.subrange(0, 32))
}

/// Tag-bound encapsulation: as `encaps_spec`, with `(K, r) = G(m || h || tag)`.
pub open spec fn encaps_with_tag_spec<P: KemParams>(
    ek: EncapsulationKeyModel,
    m: Seq<u8>,
    tag: Seq<u8>,
) -> (Seq<u8>, Seq<u8>) {
    let g = sha3_512(m + ek.h + tag);
    (pke_encrypt::<P>(ek.ek_pke, m, g.subrange(32, 64)), g.subrange(0, 32))
}

/// ML-KEM.Decaps_internal(dk, c) (Algorithm 18): the re-encryption check with
/// implicit rejection to `J(z || c)`.
pub open spec fn decaps_spec<P: KemParams>(dk: DecapsulationKeyModel, c: Seq<u8>) -> Seq<u8> {
    let m = pke_decrypt::<P>(dk.dk_pke, c);
    let g = sha3_512(m + dk.ek.h);
    if pke_encrypt::<P>(dk.ek.ek_pke, m, g.subrange(32, 64)) == c {
        g.subrange(0, 32)
    } else {
        shake256(dk.z + c, 32)
    }
}

/// Tag-bound decapsulation: `(K', r') = G(m' || h || tag)`, rejection to `J(z || c || tag)`.
pub open spec fn decaps_with_tag_spec<P: KemParams>(
    dk: DecapsulationKeyModel,
    c: Seq<u8>,
    tag: Seq<u8>,
) -> Seq<u8> {
    let m = pke_decrypt::<P>(dk.dk_pke, c);
    let g = sha3_512(m + dk.ek.h + tag);
    if pke_encrypt::<P>(dk.ek.ek_pke, m, g.subrange(32, 64)) == c {
        g.subrange(0, 32)
    } else {
        shake256(dk.z + c + tag, 32)
    }
}

/// The encapsulation key decoded from `ByteEncode_12(t_hat) || rho`, with `h`
/// recomputed from the decoded key.
pub open spec fn ek_from_bytes_spec<P: KemParams>(b: Seq<u8>) -> EncapsulationKeyModel {
    ek_with_hash(ek_decode(b, P::k_spec()))
}

/// A decapsulation key of parameter set `P`: reduced polynomials of the right
/// number, 32-byte `h` and `z`.
pub open spec fn dk_wf<P: KemParams>(dk: DecapsulationKeyModel) -> bool {
    &&& polyvec_wf(dk.dk_pke, P::k_spec())
    &&& ek_wf(dk.ek.ek_pke, P::k_spec())
    &&& dk.ek.h.len() == 32
    &&& dk.z.len() == 32
}

/// The encoding `dk_pke || ek || h || z` of a decapsulation key.
pub open spec fn dk_encode(dk: DecapsulationKeyModel) -> Seq<u8> {
    encode_polyvec(dk.dk_pke) + ek_encode(dk.ek.ek_pke) + dk.ek.h + dk.z
}

/// The decapsulation key decoded from `dk_pke || ek || h || z`; `h` is taken as stored.
pub open spec fn dk_from_bytes_spec<P: KemParams>(b: Seq<u8>) -> DecapsulationKeyModel {
    let k: int = P::k_spec() as int;
    DecapsulationKeyModel {
        dk_pke: decode_polyvec(b, 0, P::k_spec()),
        ek: EncapsulationKeyModel {
            ek_pke: ek_decode(b.subrange(384 * k, 768 * k + 32), P::k_spec()),
            h: b.subrange(768 * k + 32, 768 * k + 64),
        },
        z: b.subrange(768 * k + 64, 768 * k + 96),
    }
}

/// An `EncapsulationKey` encapsulates a shared key so that only the holder of
/// the corresponding decapsulation key can recover it.
#[derive(Debug, PartialEq, Eq)]
pub struct EncapsulationKey<P: KemParams> {
    ek_pke: EncryptionKey<P>,
    h: [u8; 32],
}

/// A `DecapsulationKey` recovers the shared keys encapsulated to its
/// encapsulation key.
#[derive(Debug, PartialEq, Eq)]
pub struct DecapsulationKey<P: KemParams> {
    dk_pke: DecryptionKey<P>,
    ek: EncapsulationKey<P>,
    z: [u8; 32],
}

impl<P: KemParams> View for EncapsulationKey<P> {
    type V = EncapsulationKeyModel;

    closed spec fn view(&self) -> EncapsulationKeyModel {
        EncapsulationKeyModel { ek_pke: self.ek_pke@, h: self.h@ }
    }
}

impl<P: KemParams> View for DecapsulationKey<P> {
    type V = DecapsulationKeyModel;

    closed spec fn view(&self) -> DecapsulationKeyModel {
        DecapsulationKeyModel { dk_pke: self.dk_pke@, ek: self.ek@, z: self.z@ }
    }
}

/// The bytes `v[start..end]`.
fn sub_bytes(v: &Vec<u8>, start: usize, end: usize) -> (r: Vec<u8>)
    requires
        start <= end <= v@.len(),
    ensures
        r@ == v@.subrange(start as int, end as int),
{
    let mut r: Vec<u8> = Vec::new();
    for i in start..end
        invariant
            start <= end <= v@.len(),
            r@ == v@.subrange(start as int, i as int),
    {
        r.push(v[i]);
        assert(r@ =~= v@.subrange(start as int, i + 1));
    }
    r
}

/// The 32 bytes `v[start..start + 32]`.
fn sub_array32(v: &Vec<u8>, start: usize) -> (r: [u8; 32])
    requires
        start + 32 <= v@.len(),
    ensures
        r@ == v@.subrange(start as int, start + 32),
{
    let vlen = v.len();
    let mut r = [0u8; 32];
    for i in 0..32usize
        invariant
            start + 32 <= v@.len(),
            vlen == v@.len(),
            forall|j: int| 0 <= j < i ==> r@[j] == v@[start + j],
    {
        r[i] = v[start + i];
    }
    assert(r@ =~= v@.subrange(start as int, start + 32));
    r
}

impl<P: KemParams> EncapsulationKey<P> {
    /// The encapsulation key of `ek_pke`, with `h = H(ek_pke)`.
    fn new(ek_pke: EncryptionKey<P>) -> (ek: Self)
        ensures
            ek@ == ek_with_hash(ek_pke@),
    {
        let bytes = ek_pke.as_bytes();
        let h = hash_h(&bytes);
        EncapsulationKey { ek_pke, h }
    }

    fn encapsulate_deterministic_inner(&self, m: &[u8; 32]) -> (r: (Vec<u8>, [u8; 32]))
        ensures
            (r.0@, r.1@) == encaps_spec::<P>(self@, m@),
            r.0@.len() == ct_len::<P>(),
    {
        let input = concat(m, &self.h);
        let (k, r) = hash_g(&input);
        let c = self.ek_pke.encrypt(m, &r);
        (c, k)
    }

    fn encapsulate_deterministic_inner_with_tag(&self, m: &[u8; 32], tag: &[u8]) -> (r: (Vec<u8>, [u8; 32]))
        ensures
            (r.0@, r.1@) == encaps_with_tag_spec::<P>(self@, m@, tag@),
            r.0@.len() == ct_len::<P>(),
    {
        let input = concat(m, &self.h);
        let (k, r) = hash_g_with_tag(&input, tag);
        let c = self.ek_pke.encrypt(m, &r);
        (c, k)
    }

    /// Tag-bound encapsulation to this key with the message `m`: the ciphertext and the shared key.
    pub fn encapsulate_deterministic_with_tag(&self, m: &[u8; 32], tag: &[u8]) -> (r: (
        Vec<u8>,
        [u8; 32],
    ))
        ensures
            (r.0@, r.1@) == encaps_with_tag_spec::<P>(self@, m@, tag@),
            r.0@.len() == ct_len::<P>(),
    {
        self.encapsulate_deterministic_inner_with_tag(m, tag)
    }

    /// Encapsulates to this key with the message `m`: the ciphertext and the shared key.
    pub fn encapsulate_deterministic(&self, m: &[u8; 32]) -> (r: Result<(Vec<u8>, [u8; 32]), Infallible>)
        ensures
            r matches Ok(p) && (p.0@, p.1@) == encaps_spec::<P>(self@, m@) && p.0@.len()
                == ct_len::<P>(),
    {
        Ok(self.encapsulate_deterministic_inner(m))
    }

    /// Decodes an encapsulation key and recomputes its hash.
    pub fn from_bytes(enc: &Vec<u8>) -> (ek: Self)
        requires
            enc@.len() == ek_len::<P>(),
        ensures
            ek@ == ek_from_bytes_spec::<P>(enc@),
    {
        Self::new(EncryptionKey::from_bytes(enc))
    }

    /// Encodes as `ByteEncode_12(t_hat) || rho`.
    pub fn as_bytes(&self) -> (enc: Vec<u8>)
        ensures
            enc@ == ek_encode(self@.ek_pke),
            enc@.len() == ek_len::<P>(),
            ek_wf(self@.ek_pke, P::k_spec()),
    {
        let enc = self.ek_pke.as_bytes();
        proof {
            lemma_ek_codec(self@.ek_pke, P::k_spec());
        }
        enc
    }
}

impl<P: KemParams> Clone for EncapsulationKey<P> {
    fn clone(&self) -> (ek: Self)
        ensures
            ek@ == self@,
    {
        EncapsulationKey { ek_pke: self.ek_pke.duplicate(), h: self.h }
    }
}

impl<P: KemParams> DecapsulationKey<P> {
    /// The encapsulation key which corresponds to this decapsulation key.
    pub fn encapsulation_key(&self) -> (ek: &EncapsulationKey<P>)
        ensures
            ek@ == self@.ek,
    {
        &self.ek
    }

    /// ML-KEM.KeyGen_internal(d, z).
    pub fn generate_deterministic(d: &[u8; 32], z: &[u8; 32]) -> (dk: Self)
        ensures
            dk@ == keygen_spec::<P>(d@, z@),
    {
        let (dk_pke, ek_pke) = DecryptionKey::generate(d);
        let ek = EncapsulationKey::new(ek_pke);
        let z = *z;
        DecapsulationKey { dk_pke, ek, z }
    }

    /// Decapsulates `encapsulated_key`, rejecting implicitly to `J(z || c)` when
    /// re-encryption does not reproduce it.
    pub fn decapsulate(&self, encapsulated_key: &Vec<u8>) -> (r: Result<[u8; 32], Infallible>)
        requires
            encapsulated_key@.len() == ct_len::<P>(),
        ensures
            r matches Ok(k) && k@ == decaps_spec::<P>(self@, encapsulated_key@),
    {
        let mp = self.dk_pke.decrypt(encapsulated_key);
        let input = concat(&mp, &self.ek.h);
        let (kp, rp) = hash_g(&input);
        let zc = concat(&self.z, encapsulated_key.as_slice());
        let kbar = hash_j(&zc);
        let cp = self.ek.ek_pke.encrypt(&mp, &rp);
        let equal = ct_compare(&cp, encapsulated_key);
        Ok(ct_select(equal, &kp, &kbar))
    }

    /// Tag-bound decapsulation: the tag enters both the key derivation and the
    /// rejection key `J(z || c || tag)`.
    pub fn decapsulate_with_tag(&self, encapsulated_key: &Vec<u8>, tag: &[u8]) -> (r: Result<
        [u8; 32],
        Infallible,
    >)
        requires
            encapsulated_key@.len() == ct_len::<P>(),
        ensures
            r matches Ok(k) && k@ == decaps_with_tag_spec::<P>(self@, encapsulated_key@, tag@),
    {
        let mp = self.dk_pke.decrypt(encapsulated_key);
        let input = concat(&mp, &self.ek.h);
        let (kp, rp) = hash_g_with_tag(&input, tag);
        let zc = concat(&self.z, encapsulated_key.as_slice());
        let zct = concat(&zc, tag);
        let kbar = hash_j(&zct);
        let cp = self.ek.ek_pke.encrypt(&mp, &rp);
        let equal = ct_compare(&cp, encapsulated_key);
        Ok(ct_select(equal, &kp, &kbar))
    }

    /// Decodes `dk_pke || ek || h || z`; the stored `h` is kept as it is.
    pub fn from_bytes(enc: &Vec<u8>) -> (dk: Self)
        requires
            enc@.len() == dk_len::<P>(),
        ensures
            dk@ == dk_from_bytes_spec::<P>(enc@),
    {
        proof {
            P::lemma_valid();
        }
        let k = P::k();
        let dk_pke = DecryptionKey::from_bytes(enc);
        let ek_bytes = sub_bytes(enc, 384 * k, 768 * k + 32);
        let ek_pke = EncryptionKey::from_bytes(&ek_bytes);
        let h = sub_array32(enc, 768 * k + 32);
        let z = sub_array32(enc, 768 * k + 64);
        DecapsulationKey { dk_pke, ek: EncapsulationKey { ek_pke, h }, z }
    }

    /// Encodes as `dk_pke || ek || h || z`.
    pub fn as_bytes(&self) -> (enc: Vec<u8>)
        ensures
            enc@ == dk_encode(self@),
            enc@.len() == dk_len::<P>(),
            dk_wf::<P>(self@),
    {
        let dk_pke = self.dk_pke.as_bytes();
        let ek = self.ek.as_bytes();
        let a = concat(&dk_pke, &ek);
        let b = concat(&a, &self.ek.h);
        let enc = concat(&b, &self.z);
        proof {
            lemma_ek_codec(self@.ek.ek_pke, P::k_spec());
            lemma_polyvec_codec(self@.dk_pke, P::k_spec());
        }
        enc
    }
}

/// Calls `zeroize::Zeroize::zeroize` on a 32-byte array: every byte is
/// overwritten with 0.
#[verifier::external_body]
fn zeroize_bytes(a: &mut [u8; 32])
    ensures
        final(a)@ == Seq::new(32, |i: int| 0u8),
    opens_invariants none
    no_unwind
{
    a.zeroize();
}

impl<P: KemParams> Drop for DecapsulationKey<P> {
    /// Wipes the secret parts of the key, `dk_pke` and `z`.
    fn drop(&mut self)
        opens_invariants none
        no_unwind
    {
        self.dk_pke.zeroize();
        zeroize_bytes(&mut self.z);
    }
}

impl<P: KemParams> Clone for DecapsulationKey<P> {
    fn clone(&self) -> (dk: Self)
        ensures
            dk@ == self@,
    {
        DecapsulationKey { dk_pke: self.dk_pke.duplicate(), ek: self.ek.clone(), z: self.z }
    }
}

/// ML-KEM over a parameter set: generates key pairs.
pub struct Kem<P: KemParams> {
    _phantom: PhantomData<P>,
}

/// Tag-based ML-KEM over a parameter set: generates key pairs whose keys are
/// used with the tag-bound encapsulation and decapsulation.
pub struct TagKem<P: KemParams> {
    _phantom: PhantomData<P>,
}

impl<P: KemParams> Clone for Kem<P> {
    fn clone(&self) -> Self {
        Kem { _phantom: PhantomData }
    }
}

impl<P: KemParams> Clone for TagKem<P> {
    fn clone(&self) -> Self {
        TagKem { _phantom: PhantomData }
    }
}

impl<P: KemParams> Kem<P> {
    /// The key pair of ML-KEM.KeyGen_internal(d, z).
    pub fn generate_deterministic(d: &[u8; 32], z: &[u8; 32]) -> (r: (DecapsulationKey<P>, EncapsulationKey<P>))
        ensures
            r.0@ == keygen_spec::<P>(d@, z@),
            r.1@ == r.0@.ek,
    {
        let dk = DecapsulationKey::generate_deterministic(d, z);
        let ek = dk.encapsulation_key().clone();
        (dk, ek)
    }
}

impl<P: KemParams> TagKem<P> {
    /// The key pair of ML-KEM.KeyGen_internal(d, z).
    pub fn generate_deterministic(d: &[u8; 32], z: &[u8; 32]) -> (r: (DecapsulationKey<P>, EncapsulationKey<P>))
        ensures
            r.0@ == keygen_spec::<P>(d@, z@),
            r.1@ == r.0@.ek,
    {
        let dk = DecapsulationKey::generate_deterministic(d, z);
        let ek = dk.encapsulation_key().clone();
        (dk, ek)
    }
}

} // verus!
