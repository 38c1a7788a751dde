//! Bits of a hash of a value.
use vstd::prelude::*;
use crate::hash_xor::{calculate_hash, convert_to_bit_array, lsb_bits};

verus! {

/// The `length` (at most 64) lowest bits of a hash of `item`, least
/// significant first.
pub fn hash_bit_vec<T: std::hash::Hash>(item: &T, length: usize) -> (r: Vec<bool>)
    requires
        length <= 64,
    ensures
        exists|h: u64| r@ == lsb_bits(h, length as int),
{
    let hash_value = calculate_hash(item);
    convert_to_bit_array(hash_value, length)
}

} // verus!
