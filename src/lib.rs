//! Robust, verifiable, differentially private summation over a committee of
//! provers: Pedersen commitments, replicated secret sharing, Σ-OR proofs of
//! bit-ness, signed acknowledgements and masked noise.
use vstd::prelude::*;

pub mod group;
pub mod constants;
pub mod util;
pub mod bytes;
pub mod commitment;
pub mod public_parameters;
pub mod sigma_or;
pub mod replicated;
pub mod error;
pub mod hash_xor;
pub mod hash;
pub mod shamirlib;
pub mod sign;
pub mod share_store;
pub mod user_store;
pub mod client;
pub mod prover;
pub mod verification;
pub mod morra;
pub mod msg_structs;
pub mod datastore;

verus! {

/// Domain separation tag of the derivation of the second generator.
pub const DST_ROBUST_DP_PUBLIC_PARAMS_GENERATION: &'static str = "DSTofRobustDP'sPublicParametersGeneration";

/// Domain separation tag of the Fiat-Shamir challenge of the Σ-OR proof.
pub const DST_ROBUST_DP_SIGMA_OR_GENERATION: &'static str = "DSTofRobustDP'sSigmaORProofGeneration";

} // verus!
