//! Scalar helpers and the source of randomness.
use vstd::prelude::*;
use rand::RngCore;
use crate::group::{Scalar, scalar_from_u64, scalar_reduce};

verus! {

/// 32 bytes from the operating system's generator.
///
/// Relies on `rand::rngs::OsRng::fill_bytes`; nothing is promised of the bytes.
#[verifier::external_body]
fn random_bytes() -> (r: [u8; 32]) {
    let mut bytes = [0u8; 32];
    rand::rngs::OsRng.fill_bytes(&mut bytes);
    bytes
}

/// Relies on `rand::Rng::gen_range`: a number drawn from `0..n`.
#[verifier::external_body]
pub(crate) fn random_index(n: usize) -> (r: usize)
    requires
        n > 0,
    ensures
        r < n,
{
    rand::Rng::gen_range(&mut rand::thread_rng(), 0..n)
}

/// Relies on `rand::random::<bool>`: a fair coin.
#[verifier::external_body]
pub(crate) fn random_bit() -> (r: bool) {
    rand::random::<bool>()
}

/// A uniformly drawn scalar, in canonical form.
pub fn random_scalar() -> (r: Scalar)
    ensures
        r.canonical(),
{
    let bytes = random_bytes();
    scalar_reduce(bytes)
}

/// `num` independently drawn scalars.
pub fn random_scalars(num: usize) -> (r: Vec<Scalar>)
    ensures
        r.len() == num,
        forall|i: int| 0 <= i < num ==> (#[trigger] r@[i]).canonical(),
{
    let mut scalars: Vec<Scalar> = Vec::new();
    let mut i: usize = 0;
    while i < num
        invariant
            i <= num,
            scalars.len() == i,
            forall|j: int| 0 <= j < i ==> (#[trigger] scalars@[j]).canonical(),
        decreases num - i,
    {
        scalars.push(random_scalar());
        i = i + 1;
    }
    scalars
}

pub fn scalar_one() -> (r: Scalar)
    ensures
        r.val() == 1,
        r.canonical(),
{
    scalar_from_u64(1)
}

pub fn scalar_zero() -> (r: Scalar)
    ensures
        r.val() == 0,
        r.canonical(),
{
    scalar_from_u64(0)
}

} // verus!
