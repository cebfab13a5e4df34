//! The ML-KEM parameter sets (FIPS 203 Table 2).
use vstd::prelude::*;
use crate::pke::params_valid;

verus! {

/// A parameter set: the module rank `k`, the noise width `eta1`, and the
/// ciphertext compression widths `du` and `dv` (`eta2` is 2 in every set).
pub trait KemParams: core::fmt::Debug + PartialEq + Eq {
    spec fn k_spec() -> nat;

    /// The module rank `k`.
    const K: usize;

    spec fn eta1_spec() -> nat;

    spec fn du_spec() -> nat;

    spec fn dv_spec() -> nat;

    fn k() -> (r: usize)
        ensures
            r == Self::k_spec(),
    ;

    fn eta1() -> (r: usize)
        ensures
            r == Self::eta1_spec(),
    ;

    fn du() -> (r: u32)
        ensures
            r == Self::du_spec(),
    ;

    fn dv() -> (r: u32)
        ensures
            r == Self::dv_spec(),
    ;

    /// The parameters are one of the three sets of FIPS 203.
    proof fn lemma_valid()
        ensures
            params_valid(Self::k_spec(), Self::eta1_spec(), Self::du_spec(), Self::dv_spec()),
            Self::K == Self::k_spec(),
    ;
}

/// Length of an encoded encapsulation key: `384 k + 32` bytes.
pub open spec fn ek_len(k: nat) -> nat {
    384 * k + 32
}

/// Length of an encoded decapsulation key: `768 k + 96` bytes.
pub open spec fn dk_len(k: nat) -> nat {
    768 * k + 96
}

/// ML-KEM-512.
#[derive(Clone, Copy, Debug, PartialEq, Eq, Default)]
pub struct MlKem512Params;

/// ML-KEM-768.
#[derive(Clone, Copy, Debug, PartialEq, Eq, Default)]
pub struct MlKem768Params;

/// ML-KEM-1024.
#[derive(Clone, Copy, Debug, PartialEq, Eq, Default)]
pub struct MlKem1024Params;

impl KemParams for MlKem512Params {
    const K: usize = 2;

    open spec fn k_spec() -> nat {
        2
    }

    open spec fn eta1_spec() -> nat {
        3
    }

    open spec fn du_spec() -> nat {
        10
    }

    open spec fn dv_spec() -> nat {
        4
    }

    fn k() -> (r: usize) {
        2
    }

    fn eta1() -> (r: usize) {
        3
    }

    fn du() -> (r: u32) {
        10
    }

    fn dv() -> (r: u32) {
        4
    }

    proof fn lemma_valid() {
    }
}

impl KemParams for MlKem768Params {
    const K: usize = 3;

    open spec fn k_spec() -> nat {
        3
    }

    open spec fn eta1_spec() -> nat {
        2
    }

    open spec fn du_spec() -> nat {
        10
    }

    open spec fn dv_spec() -> nat {
        4
    }

    fn k() -> (r: usize) {
        3
    }

    fn eta1() -> (r: usize) {
        2
    }

    fn du() -> (r: u32) {
        10
    }

    fn dv() -> (r: u32) {
        4
    }

    proof fn lemma_valid() {
    }
}

impl KemParams for MlKem1024Params {
    const K: usize = 4;

    open spec fn k_spec() -> nat {
        4
    }

    open spec fn eta1_spec() -> nat {
        2
    }

    open spec fn du_spec() -> nat {
        11
    }

    open spec fn dv_spec() -> nat {
        5
    }

    fn k() -> (r: usize) {
        4
    }

    fn eta1() -> (r: usize) {
        2
    }

    fn du() -> (r: u32) {
        11
    }

    fn dv() -> (r: u32) {
        5
    }

    proof fn lemma_valid() {
    }
}

} // verus!
