//! ML-KEM (FIPS 203) key encapsulation, with a tag-based variant that binds a
//! caller-chosen tag into key derivation and implicit rejection.

pub mod algebra;
pub mod correctness;
pub mod crypto;
pub mod encode;
pub mod field;
pub mod kem;
pub mod kpke_laws;
pub mod laws;
pub mod ntt;
pub mod param;
pub mod pke;
pub mod sample;

pub use kem::{DecapsulationKey, EncapsulationKey, Kem, TagKem};
pub use param::{KemParams, MlKem1024Params, MlKem512Params, MlKem768Params};
