use ml_kem::crypto::{hash_g, hash_h, hash_j, xof};
use ml_kem::encode::{byte_decode_exec, byte_encode_exec, poly_compress_exec, poly_decompress_exec};
use ml_kem::kem::constant_time_eq;
use ml_kem::ntt::{basemul_exec, gamma_table, inv_ntt_exec, ntt_exec, zeta_table};
use ml_kem::sample::{cbd_exec, sample_ntt_exec, sample_ntt_xof};
use ml_kem::{
    DecapsulationKey, EncapsulationKey, Kem, KemParams, MlKem1024Params, MlKem512Params,
    MlKem768Params, TagKem,
};
use rand::RngCore;
use sha3::digest::{ExtendableOutput, Update, XofReader};

const Q: u32 = 3329;

fn random_poly(rng: &mut impl RngCore) -> Vec<u16> {
    (0..256).map(|_| (rng.next_u32() % Q) as u16).collect()
}

fn random_seed(rng: &mut impl RngCore) -> [u8; 32] {
    let mut b = [0u8; 32];
    rng.fill_bytes(&mut b);
    b
}

fn shake256(parts: &[&[u8]], len: usize) -> Vec<u8> {
    let mut h = sha3::Shake256::default();
    for p in parts {
        h.update(p);
    }
    let mut out = vec![0u8; len];
    h.finalize_xof().read(&mut out);
    out
}

#[test]
fn constant_time_eq_values() {
    assert_eq!(constant_time_eq(0, 0), 0xff);
    assert_eq!(constant_time_eq(0xab, 0xab), 0xff);
    assert_eq!(constant_time_eq(0xff, 0xff), 0xff);
    assert_eq!(constant_time_eq(0, 1), 0);
    assert_eq!(constant_time_eq(0x80, 0x00), 0);
    assert_eq!(constant_time_eq(0x00, 0xff), 0);
    for x in 0..=255u8 {
        for y in [0u8, 1, 0x7f, 0x80, 0xfe, 0xff, x] {
            assert_eq!(constant_time_eq(x, y), if x == y { 0xff } else { 0 });
        }
    }
}

#[test]
fn hash_functions_match_sha3() {
    assert_eq!(
        hex::encode(hash_h(b"abc")),
        "3a985da74fe225b2045c172d6bd390bd855f086e3e9d525b46bfe24511431532"
    );
    let (a, b) = hash_g(b"abc");
    assert_eq!(
        hex::encode(a) + &hex::encode(b),
        "b751850b1a57168a5693cd924b6b096e08f621827444f70d884f5d0240d2712e\
         10e116e9192af3c91a7ec57647e3934057340b4cf408d5a56592f8274eec53f0"
    );
    assert_eq!(
        hex::encode(hash_j(b"")),
        "46b9dd2b0ba88d13233b3feb743eeb243fcd52ea62b81b82b50c27646ed5762f"
    );
    let rho = [7u8; 32];
    let stream = xof(&rho, 1, 2, 40);
    let mut h = sha3::Shake128::default();
    h.update(&rho);
    h.update(&[1u8, 2u8]);
    let mut expect = vec![0u8; 40];
    h.finalize_xof().read(&mut expect);
    assert_eq!(stream, expect);
}

#[test]
fn ntt_inverse_round_trip() {
    let mut rng = rand::rng();
    let zt = zeta_table();
    for _ in 0..10 {
        let f = random_poly(&mut rng);
        let g = ntt_exec(&f, &zt);
        assert_eq!(inv_ntt_exec(&g, &zt), f);
    }
}

#[test]
fn ntt_multiplication_is_negacyclic_product() {
    let mut rng = rand::rng();
    let zt = zeta_table();
    let gt = gamma_table();
    for _ in 0..5 {
        let f = random_poly(&mut rng);
        let g = random_poly(&mut rng);
        let mut expect = vec![0u64; 256];
        for i in 0..256 {
            for j in 0..256 {
                let p = f[i] as u64 * g[j] as u64 % Q as u64;
                if i + j < 256 {
                    expect[i + j] = (expect[i + j] + p) % Q as u64;
                } else {
                    expect[i + j - 256] = (expect[i + j - 256] + Q as u64 - p) % Q as u64;
                }
            }
        }
        let h = basemul_exec(&ntt_exec(&f, &zt), &ntt_exec(&g, &zt), &gt);
        let prod = inv_ntt_exec(&h, &zt);
        let expect: Vec<u16> = expect.into_iter().map(|x| x as u16).collect();
        assert_eq!(prod, expect);
    }
}

#[test]
fn byte_codec_round_trip() {
    let mut rng = rand::rng();
    for d in [1u32, 4, 5, 10, 11, 12] {
        let m = if d == 12 { Q } else { 1 << d };
        let f: Vec<u16> = (0..256).map(|_| (rng.next_u32() % m) as u16).collect();
        let b = byte_encode_exec(&f, d);
        assert_eq!(b.len(), 32 * d as usize);
        assert_eq!(byte_decode_exec(&b, 0, d), f);
    }
    // Bits are packed least significant first.
    let mut f = vec![0u16; 256];
    f[0] = 1;
    f[1] = 0x801;
    let b = byte_encode_exec(&f, 12);
    assert_eq!(&b[..3], &[0x01, 0x10, 0x80]);
}

#[test]
fn byte_decode_12_reduces_mod_q() {
    let b = vec![0xffu8; 384];
    let f = byte_decode_exec(&b, 0, 12);
    assert!(f.iter().all(|&x| x == (4095 % 3329) as u16));
}

#[test]
fn compress_decompress_error_is_bounded() {
    for d in [1u32, 4, 5, 10, 11] {
        let f: Vec<u16> = (0..256).map(|i| ((i * 13 + 7) % Q) as u16).collect();
        let c = poly_compress_exec(&f, d);
        assert!(c.iter().all(|&y| (y as u32) < (1 << d)));
        let g = poly_decompress_exec(&c, d);
        let bound = (Q + (1 << (d + 1)) - 1) / (1 << (d + 1));
        for i in 0..256 {
            let diff = (f[i] as i64 - g[i] as i64).rem_euclid(Q as i64);
            let dist = diff.min(Q as i64 - diff) as u32;
            assert!(dist <= bound, "d={} x={} y={}", d, f[i], g[i]);
        }
    }
    // Compress_1 maps q/2 to 1 and 0 to 0.
    let mut f = vec![0u16; 256];
    f[1] = 1665;
    f[2] = 3328;
    let c = poly_compress_exec(&f, 1);
    assert_eq!(&c[..3], &[0, 1, 0]);
    let g = poly_decompress_exec(&c, 1);
    assert_eq!(&g[..3], &[0, 1665, 0]);
}

fn sizes_test<P: KemParams>(ek_len: usize, dk_len: usize, ct_len: usize) {
    let (dk, ek) = Kem::<P>::generate_deterministic(&[1u8; 32], &[2u8; 32]);
    assert_eq!(ek.as_bytes().len(), ek_len);
    assert_eq!(dk.as_bytes().len(), dk_len);
    let (ct, _) = ek.encapsulate_deterministic(&[3u8; 32]).unwrap();
    assert_eq!(ct.len(), ct_len);
}

#[test]
fn encoded_sizes() {
    sizes_test::<MlKem512Params>(800, 1632, 768);
    sizes_test::<MlKem768Params>(1184, 2400, 1088);
    sizes_test::<MlKem1024Params>(1568, 3168, 1568);
}

fn deterministic_test<P: KemParams>() {
    let d = [0x11u8; 32];
    let z = [0x22u8; 32];
    let (dk1, ek1) = Kem::<P>::generate_deterministic(&d, &z);
    let (dk2, ek2) = Kem::<P>::generate_deterministic(&d, &z);
    assert_eq!(dk1, dk2);
    assert_eq!(ek1, ek2);
    assert_eq!(&ek1, dk1.encapsulation_key());
    // The decapsulation key ends with H(ek) || z.
    let dk_bytes = dk1.as_bytes();
    let ek_bytes = ek1.as_bytes();
    let n = dk_bytes.len();
    assert_eq!(&dk_bytes[n - 32..], &z);
    assert_eq!(&dk_bytes[n - 64..n - 32], &hash_h(&ek_bytes));
    assert_eq!(&dk_bytes[n - 64 - ek_bytes.len()..n - 64], &ek_bytes[..]);

    let m = [0x33u8; 32];
    let (c1, k1) = ek1.encapsulate_deterministic(&m).unwrap();
    let (c2, k2) = ek1.encapsulate_deterministic(&m).unwrap();
    assert_eq!(c1, c2);
    assert_eq!(k1, k2);
    // The shared key is the first half of G(m || H(ek)).
    let mut g_in = m.to_vec();
    g_in.extend_from_slice(&hash_h(&ek_bytes));
    assert_eq!(k1, hash_g(&g_in).0);
    assert_eq!(dk1.decapsulate(&c1).unwrap(), k1);
}

#[test]
fn deterministic_generation_and_encapsulation() {
    deterministic_test::<MlKem512Params>();
    deterministic_test::<MlKem768Params>();
    deterministic_test::<MlKem1024Params>();
}

fn implicit_rejection_test<P: KemParams>() {
    let z = [0x5au8; 32];
    let (dk, ek) = Kem::<P>::generate_deterministic(&[9u8; 32], &z);
    let (mut ct, k) = ek.encapsulate_deterministic(&[4u8; 32]).unwrap();
    ct[0] ^= 1;
    let k_bad = dk.decapsulate(&ct).unwrap();
    assert_ne!(k_bad, k);
    assert_eq!(k_bad.to_vec(), shake256(&[&z, &ct], 32));
    let tag = b"context";
    let k_bad_tag = dk.decapsulate_with_tag(&ct, tag).unwrap();
    assert_eq!(k_bad_tag.to_vec(), shake256(&[&z, &ct, tag], 32));
}

#[test]
fn implicit_rejection() {
    implicit_rejection_test::<MlKem512Params>();
    implicit_rejection_test::<MlKem768Params>();
    implicit_rejection_test::<MlKem1024Params>();
}

fn tag_test<P: KemParams>() {
    let mut rng = rand::rng();
    let (dk, ek) = TagKem::<P>::generate_deterministic(&random_seed(&mut rng), &random_seed(&mut rng));
    assert_eq!(&ek, dk.encapsulation_key());
    let tag = b"session-42";
    let (ct, k_send) = ek.encapsulate_deterministic_with_tag(&random_seed(&mut rng), tag);
    assert_eq!(dk.decapsulate_with_tag(&ct, tag).unwrap(), k_send);
    assert_ne!(dk.decapsulate_with_tag(&ct, b"session-43").unwrap(), k_send);
    assert_ne!(dk.decapsulate(&ct).unwrap(), k_send);

    // The empty tag gives plain ML-KEM.
    let m = [6u8; 32];
    let plain = ek.encapsulate_deterministic(&m).unwrap();
    let tagged = ek.encapsulate_deterministic_with_tag(&m, b"");
    assert_eq!(plain, tagged);
    assert_eq!(dk.decapsulate_with_tag(&plain.0, b"").unwrap(), dk.decapsulate(&plain.0).unwrap());
    // A tag changes the shared key but not the way it is decapsulated.
    let tagged = ek.encapsulate_deterministic_with_tag(&m, tag);
    assert_ne!(tagged.1, plain.1);
    assert_eq!(dk.decapsulate_with_tag(&tagged.0, tag).unwrap(), tagged.1);
}

#[test]
fn tag_round_trip() {
    tag_test::<MlKem512Params>();
    tag_test::<MlKem768Params>();
    tag_test::<MlKem1024Params>();
}

fn kem_generate_test<P: KemParams>() {
    let mut rng = rand::rng();
    let (dk, ek) = Kem::<P>::generate_deterministic(&random_seed(&mut rng), &random_seed(&mut rng));
    assert_eq!(&ek, dk.encapsulation_key());
    let (ct, k) = ek.encapsulate_deterministic(&random_seed(&mut rng)).unwrap();
    assert_eq!(dk.decapsulate(&ct).unwrap(), k);
    let dk2 = DecapsulationKey::<P>::from_bytes(&dk.as_bytes());
    assert_eq!(dk2.decapsulate(&ct).unwrap(), k);
    let ek2 = EncapsulationKey::<P>::from_bytes(&ek.as_bytes());
    assert_eq!(ek2, ek);
}

#[test]
fn kem_generate_pairs() {
    kem_generate_test::<MlKem512Params>();
    kem_generate_test::<MlKem768Params>();
    kem_generate_test::<MlKem1024Params>();
}

#[test]
fn decryption_key_zeroize() {
    let (mut dk, ek) = ml_kem::pke::DecryptionKey::<MlKem768Params>::generate(&[5u8; 32]);
    assert!(dk.as_bytes().iter().any(|&b| b != 0));
    dk.zeroize();
    let bytes = dk.as_bytes();
    assert_eq!(bytes.len(), 3 * 384);
    assert!(bytes.iter().all(|&b| b == 0));
    // The encryption key is untouched and still encodes to its full length.
    assert_eq!(ek.as_bytes().len(), 3 * 384 + 32);
}

#[test]
fn pke_round_trip() {
    let (dk, ek) = ml_kem::pke::DecryptionKey::<MlKem1024Params>::generate(&[8u8; 32]);
    let m = [0xa5u8; 32];
    let c = ek.encrypt(&m, &[3u8; 32]);
    assert_eq!(c.len(), 1568);
    assert_eq!(dk.decrypt(&c), m);
    let ek2 = ml_kem::pke::EncryptionKey::<MlKem1024Params>::from_bytes(&ek.as_bytes());
    assert_eq!(ek2, ek);
    let dk2 = ml_kem::pke::DecryptionKey::<MlKem1024Params>::from_bytes(&dk.as_bytes());
    assert_eq!(dk2, dk);
}

#[test]
fn twiddle_tables() {
    let zt = zeta_table();
    assert_eq!(&zt[..8], &[1, 1729, 2580, 3289, 2642, 630, 1897, 848]);
    let gt = gamma_table();
    assert_eq!(&gt[..4], &[17, 3312, 2761, 568]);
}

#[test]
fn ntt_of_one_and_x() {
    let zt = zeta_table();
    let mut one = vec![0u16; 256];
    one[0] = 1;
    let expect: Vec<u16> = (0..256).map(|i| if i % 2 == 0 { 1 } else { 0 }).collect();
    assert_eq!(ntt_exec(&one, &zt), expect);
    let mut x = vec![0u16; 256];
    x[1] = 1;
    let expect: Vec<u16> = (0..256).map(|i| if i % 2 == 1 { 1 } else { 0 }).collect();
    assert_eq!(ntt_exec(&x, &zt), expect);
}

#[test]
fn cbd_exact_values() {
    assert!(cbd_exec(&vec![0u8; 128], 2).iter().all(|&c| c == 0));
    assert!(cbd_exec(&vec![0xffu8; 192], 3).iter().all(|&c| c == 0));
    let f = cbd_exec(&vec![0x03u8; 128], 2);
    assert_eq!(&f[..4], &[2, 0, 2, 0]);
    let f = cbd_exec(&vec![0x0cu8; 128], 2);
    assert_eq!(&f[..4], &[3327, 0, 3327, 0]);
    // eta = 3: six bits per coefficient, 0b000111 gives 3 - 0.
    let mut b = vec![0u8; 192];
    b[0] = 0b0000_0111;
    assert_eq!(cbd_exec(&b, 3)[0], 3);
}

#[test]
fn sample_ntt_exact_values() {
    let mut b = vec![0xffu8; 840];
    b[0] = 0x01;
    b[1] = 0x02;
    b[2] = 0x03;
    // Every other triple yields two rejected candidates (4095).
    let f = sample_ntt_exec(&b);
    assert_eq!(f[0], 513);
    assert_eq!(f[1], 48);
    assert!(f[2..].iter().all(|&c| c == 0));
    // A stream of zeros gives 560 accepted zeros.
    assert!(sample_ntt_exec(&vec![0u8; 840]).iter().all(|&c| c == 0));
    // Candidates are taken in order and stop at 256.
    let mut b = vec![0u8; 840];
    for t in 0..280 {
        b[3 * t] = (t % 256) as u8;
    }
    let f = sample_ntt_exec(&b);
    assert_eq!(f[0], 0);
    assert_eq!(f[2], 1);
    assert_eq!(f[254], 127);
    assert_eq!(f[255], 0);
}

/// `k` random reduced polynomials, ByteEncode_12'd and concatenated.
fn random_canonical_polyvec(rng: &mut impl RngCore, k: usize) -> Vec<u8> {
    let mut out = Vec::new();
    for _ in 0..k {
        out.extend(byte_encode_exec(&random_poly(rng), 12));
    }
    out
}

#[test]
fn encapsulation_key_reencodes_canonical_bytes() {
    let mut rng = rand::rng();
    for _ in 0..5 {
        let mut enc = random_canonical_polyvec(&mut rng, 3);
        enc.extend(random_seed(&mut rng));
        let ek = EncapsulationKey::<MlKem768Params>::from_bytes(&enc);
        assert_eq!(ek.as_bytes(), enc);
    }
}

#[test]
fn encapsulation_key_reduces_non_canonical_bytes() {
    // The first twelve-bit group holds 4095, which decodes to 4095 - 3329 = 766.
    let mut enc = vec![0u8; 384 * 3 + 32];
    enc[0] = 0xff;
    enc[1] = 0x0f;
    let re = EncapsulationKey::<MlKem768Params>::from_bytes(&enc).as_bytes();
    assert_ne!(re, enc);
    assert_eq!(re[0], (766 & 0xff) as u8);
    assert_eq!(re[1], (766 >> 8) as u8);
}

#[test]
fn decapsulation_key_reencodes_canonical_bytes() {
    let mut rng = rand::rng();
    for _ in 0..5 {
        let mut enc = random_canonical_polyvec(&mut rng, 2);
        enc.extend(random_canonical_polyvec(&mut rng, 2));
        enc.extend(random_seed(&mut rng));
        enc.extend(random_seed(&mut rng));
        enc.extend(random_seed(&mut rng));
        let dk = DecapsulationKey::<MlKem512Params>::from_bytes(&enc);
        assert_eq!(dk.as_bytes(), enc);
    }
}

#[test]
fn decapsulation_key_keeps_stored_hash() {
    let mut rng = rand::rng();
    let mut ek_part = random_canonical_polyvec(&mut rng, 4);
    ek_part.extend(random_seed(&mut rng));
    let good_h = hash_h(&ek_part);
    let mut bad_h = good_h;
    bad_h[0] ^= 1;
    let ek = EncapsulationKey::<MlKem1024Params>::from_bytes(&ek_part);
    for (h, same) in [(good_h, true), (bad_h, false)] {
        let mut enc = random_canonical_polyvec(&mut rng, 4);
        enc.extend(&ek_part);
        enc.extend(h);
        enc.extend(random_seed(&mut rng));
        let dk = DecapsulationKey::<MlKem1024Params>::from_bytes(&enc);
        assert_eq!(dk.encapsulation_key() == &ek, same);
        assert_eq!(dk.as_bytes(), enc);
    }
}

#[test]
fn sample_ntt_from_xof_reads_the_stream() {
    let mut rng = rand::rng();
    for _ in 0..5 {
        let rho = random_seed(&mut rng);
        let (j, i) = ((rng.next_u32() % 4) as u8, (rng.next_u32() % 4) as u8);
        let mut h = sha3::Shake128::default();
        h.update(&rho);
        h.update(&[j, i]);
        let mut stream = vec![0u8; 840];
        h.finalize_xof().read(&mut stream);
        // The first round's 840 bytes almost surely hold 256 accepted candidates.
        assert_eq!(sample_ntt_xof(&rho, j, i), sample_ntt_exec(&stream));
        assert!(sample_ntt_xof(&rho, j, i).iter().all(|&c| c < 3329));
    }
}

#[test]
fn pke_decrypts_many_messages() {
    let mut rng = rand::rng();
    for _ in 0..20 {
        let (dk, ek) = ml_kem::pke::DecryptionKey::<MlKem768Params>::generate(&random_seed(&mut rng));
        let m = random_seed(&mut rng);
        let c = ek.encrypt(&m, &random_seed(&mut rng));
        assert_eq!(dk.decrypt(&c), m);
    }
}
