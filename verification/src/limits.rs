//! Sizes: arithmetic that stops at the greatest `usize`, and what containers
//! have allocated.
use std::collections::HashMap;
use vstd::prelude::*;
use vstd::utf8::encode_utf8;

verus! {

/// A product, no more than the greatest `usize`.
pub open spec fn bounded_product(left: nat, right: nat) -> nat {
    if left * right > usize::MAX {
        usize::MAX as nat
    } else {
        left * right
    }
}

/// A sum, no more than the greatest `usize`.
pub open spec fn bounded_sum(left: nat, right: nat) -> nat {
    if left + right > usize::MAX {
        usize::MAX as nat
    } else {
        left + right
    }
}

/// A product, no more than the greatest `usize`.
pub fn product(left: usize, right: usize) -> (result: usize)
    ensures
        result == bounded_product(left as nat, right as nat),
{
    match left.checked_mul(right) {
        Some(value) => value,
        None => usize::MAX,
    }
}

/// A sum, no more than the greatest `usize`.
pub fn sum(left: usize, right: usize) -> (result: usize)
    ensures
        result == bounded_sum(left as nat, right as nat),
{
    match left.checked_add(right) {
        Some(value) => value,
        None => usize::MAX,
    }
}

/// A greater factor gives no smaller product.
pub proof fn lemma_product_grows(small: nat, large: nat, factor: nat)
    requires
        small <= large,
    ensures
        bounded_product(small, factor) <= bounded_product(large, factor),
{
    assert(small * factor <= large * factor) by (nonlinear_arith)
        requires
            small <= large,
    ;
}

/// `Vec::capacity` is at least the length.
#[verifier::external_body]
pub(crate) fn vector_capacity<T>(vector: &Vec<T>) -> (capacity: usize)
    ensures
        capacity >= vector@.len(),
{
    vector.capacity()
}

/// `String::capacity` is at least the number of bytes.
#[verifier::external_body]
pub(crate) fn text_capacity(text: &String) -> (capacity: usize)
    ensures
        capacity >= encode_utf8(text@).len(),
{
    text.capacity()
}

/// `HashMap::capacity` is at least the number of entries.
#[verifier::external_body]
pub(crate) fn map_capacity<V>(map: &HashMap<u32, V>) -> (capacity: usize)
    ensures
        capacity >= map@.len(),
{
    map.capacity()
}

/// Bytes that a hash map of this capacity takes at most: its buckets, two
/// control bytes each, and a tail.
pub open spec fn map_bytes(capacity: nat, entry: nat) -> nat {
    if capacity == 0 {
        0
    } else {
        bounded_sum(bounded_product(capacity, bounded_sum(entry, 2)), 16)
    }
}

/// Bytes that a hash map of this capacity has allocated at most.
pub fn hash_map_allocation_upper_bound(capacity: usize, entry: usize) -> (bytes: usize)
    ensures
        bytes == map_bytes(capacity as nat, entry as nat),
{
    if capacity == 0 {
        return 0;
    }
    sum(product(capacity, sum(entry, 2)), 16)
}

/// `Vec::try_reserve` makes room for more items or refuses, and keeps those
/// that are there.
#[verifier::external_body]
pub(crate) fn vector_room<T>(vector: &mut Vec<T>) -> (made: bool)
    ensures
        final(vector)@ == old(vector)@,
{
    vector.try_reserve(1).is_ok()
}

/// `HashMap::try_reserve` makes room for more entries or refuses, and keeps
/// those that are there.
#[verifier::external_body]
pub(crate) fn map_room<V>(map: &mut HashMap<u32, V>) -> (made: bool)
    ensures
        final(map)@ == old(map)@,
{
    map.try_reserve(1).is_ok()
}

} // verus!
