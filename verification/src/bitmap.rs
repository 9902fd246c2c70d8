//! Contracts for the compressed bitmaps that hold sets of node, edge type and
//! relationship identifiers.
use roaring::RoaringBitmap;
use vstd::prelude::*;

verus! {

#[verifier::external_type_specification]
#[verifier::external_body]
pub struct ExRoaringBitmap(roaring::RoaringBitmap);

/// The integers that a bitmap holds.
pub uninterp spec fn bitmap_contents(bitmap: RoaringBitmap) -> Set<u32>;

/// `RoaringBitmap::new` returns a bitmap that holds nothing.
pub assume_specification[ RoaringBitmap::new ]() -> (bitmap: RoaringBitmap)
    ensures
        bitmap_contents(bitmap) == Set::<u32>::empty(),
;

/// `RoaringBitmap::insert` adds the value, and says whether it was absent.
pub assume_specification[ RoaringBitmap::insert ](bitmap: &mut RoaringBitmap, value: u32) -> (added:
    bool)
    ensures
        bitmap_contents(*final(bitmap)) == bitmap_contents(*old(bitmap)).insert(value),
        added == !bitmap_contents(*old(bitmap)).contains(value),
;

/// `RoaringBitmap::remove` takes the value out, and says whether it was there.
pub assume_specification[ RoaringBitmap::remove ](bitmap: &mut RoaringBitmap, value: u32) -> (removed:
    bool)
    ensures
        bitmap_contents(*final(bitmap)) == bitmap_contents(*old(bitmap)).remove(value),
        removed == bitmap_contents(*old(bitmap)).contains(value),
;

/// `RoaringBitmap::contains` says whether the value is held.
pub assume_specification[ RoaringBitmap::contains ](bitmap: &RoaringBitmap, value: u32) -> (found:
    bool)
    ensures
        found == bitmap_contents(*bitmap).contains(value),
;

/// `RoaringBitmap::len` counts the values that are held.
pub assume_specification[ RoaringBitmap::len ](bitmap: &RoaringBitmap) -> (count: u64)
    ensures
        count == bitmap_contents(*bitmap).len(),
;

/// `RoaringBitmap::is_disjoint` says whether no value is held by both.
pub assume_specification[ RoaringBitmap::is_disjoint ](
    bitmap: &RoaringBitmap,
    other: &RoaringBitmap,
) -> (none_shared: bool)
    ensures
        none_shared == bitmap_contents(*bitmap).disjoint(bitmap_contents(*other)),
;

/// `RoaringBitmap::clone` holds the same values.
pub assume_specification[ <RoaringBitmap as Clone>::clone ](bitmap: &RoaringBitmap) -> (copy:
    RoaringBitmap)
    ensures
        bitmap_contents(copy) == bitmap_contents(*bitmap),
;

/// `RoaringBitmap::iter` hands out each value once, from the least to the
/// greatest.
#[verifier::external_body]
pub(crate) fn bitmap_values(bitmap: &RoaringBitmap) -> (values: Vec<u32>)
    ensures
        forall|i: int, j: int| 0 <= i < j < values@.len() ==> values@[i] < values@[j],
        values@.to_set() == bitmap_contents(*bitmap),
{
    bitmap.iter().collect()
}

/// The number of bytes of the encoding of a bitmap.
pub uninterp spec fn encoded_bitmap_len(bitmap: RoaringBitmap) -> nat;

/// The length of what `bincode::serde::encode_to_vec` writes for a bitmap with
/// the standard configuration. Bitmaps of the same values may differ in it: it
/// depends on the containers that a bitmap keeps its values in.
#[verifier::external_body]
pub(crate) fn serialized_bitmap_size(bitmap: &RoaringBitmap) -> (size: usize)
    ensures
        size == encoded_bitmap_len(*bitmap),
{
    match bincode::serde::encode_to_vec(bitmap, bincode::config::standard()) {
        Ok(bytes) => bytes.len(),
        Err(_) => 0,
    }
}

} // verus!
