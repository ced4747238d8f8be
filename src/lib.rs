//! A Groth16-style zk-SNARK toolkit: field and polynomial arithmetic, the
//! Fourier-domain transforms, and the group interface the protocol runs over.
use vstd::prelude::*;

pub mod encryption;
pub mod field;
pub mod groth16;

verus! {
} // verus!
