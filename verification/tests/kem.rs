use ml_kem::{DecapsulationKey, EncapsulationKey, KemParams, MlKem1024Params, MlKem512Params, MlKem768Params};
use rand::RngCore;

fn random_seed(rng: &mut impl RngCore) -> [u8; 32] {
    let mut b = [0u8; 32];
    rng.fill_bytes(&mut b);
    b
}

fn round_trip_test<P>()
where
    P: KemParams,
{
    let mut rng = rand::rng();
    let (d, z) = (random_seed(&mut rng), random_seed(&mut rng));
    let dk = DecapsulationKey::<P>::generate_deterministic(&d, &z);
    let ek = dk.encapsulation_key();
    let m = random_seed(&mut rng);
    let (ct, k_send) = ek.encapsulate_deterministic(&m).unwrap();
    println!("Ciphertext (hex): {}", hex::encode(&ct));
    println!("Shared secret (sender): {}", hex::encode(k_send));

    let k_recv = dk.decapsulate(&ct).unwrap();
    println!("Shared secret (receiver): {}", hex::encode(k_recv));
    assert_eq!(k_send, k_recv);
}

#[test]
fn round_trip() {
    round_trip_test::<MlKem512Params>();
    round_trip_test::<MlKem768Params>();
    round_trip_test::<MlKem1024Params>();
}

fn codec_test<P>()
where
    P: KemParams,
{
    let mut rng = rand::rng();
    let (d, z) = (random_seed(&mut rng), random_seed(&mut rng));
    let dk_original = DecapsulationKey::<P>::generate_deterministic(&d, &z);
    let ek_original = dk_original.encapsulation_key().clone();

    let dk_encoded = dk_original.as_bytes();
    let dk_decoded = DecapsulationKey::from_bytes(&dk_encoded);
    assert_eq!(dk_original, dk_decoded);

    let ek_encoded = ek_original.as_bytes();
    let ek_decoded = EncapsulationKey::from_bytes(&ek_encoded);
    assert_eq!(ek_original, ek_decoded);
}

#[test]
fn codec() {
    codec_test::<MlKem512Params>();
    codec_test::<MlKem768Params>();
    codec_test::<MlKem1024Params>();
}
