//! Names of the supported key encapsulation suites.
use vstd::prelude::*;

verus! {

pub const ML_KEM_512: &'static str = "ml-kem-512";

pub const ML_KEM_768: &'static str = "ml-kem-768";

pub const ML_KEM_1024: &'static str = "ml-kem-1024";

} // verus!
