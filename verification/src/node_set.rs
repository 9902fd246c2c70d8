//! Sets of node numbers that are grown value by value.
use roaring::RoaringBitmap;
use vstd::prelude::*;

use crate::bitmap::{
    bitmap_contents, bitmap_values, encoded_bitmap_len, serialized_bitmap_size,
};

verus! {

/// A set of node numbers. It starts empty and changes by one number at a time.
#[derive(Debug)]
pub struct NodeSet {
    bitmap: RoaringBitmap,
}

impl View for NodeSet {
    type V = Set<u32>;

    closed spec fn view(&self) -> Set<u32> {
        bitmap_contents(self.bitmap)
    }
}

impl NodeSet {
    /// Number of bytes of the encoding of the set.
    pub closed spec fn encoded_len(&self) -> nat {
        encoded_bitmap_len(self.bitmap)
    }

    /// The empty set.
    pub fn new() -> (set: Self)
        ensures
            set@ == Set::<u32>::empty(),
    {
        NodeSet { bitmap: RoaringBitmap::new() }
    }

    /// Adds a node, and says whether it was absent.
    pub fn insert(&mut self, node: u32) -> (added: bool)
        ensures
            final(self)@ == old(self)@.insert(node),
            added == !old(self)@.contains(node),
    {
        self.bitmap.insert(node)
    }

    /// Takes a node out, and says whether it was there.
    pub fn remove(&mut self, node: u32) -> (removed: bool)
        ensures
            final(self)@ == old(self)@.remove(node),
            removed == old(self)@.contains(node),
    {
        self.bitmap.remove(node)
    }

    /// Whether a node is in the set.
    pub fn contains(&self, node: u32) -> (found: bool)
        ensures
            found == self@.contains(node),
    {
        self.bitmap.contains(node)
    }

    /// Number of nodes.
    pub fn len(&self) -> (count: u64)
        ensures
            count == self@.len(),
    {
        self.bitmap.len()
    }

    /// Whether no node is in both sets.
    pub fn is_disjoint(&self, other: &Self) -> (none_shared: bool)
        ensures
            none_shared == self@.disjoint(other@),
    {
        self.bitmap.is_disjoint(&other.bitmap)
    }

    /// The nodes, from the least to the greatest.
    pub fn values(&self) -> (values: Vec<u32>)
        ensures
            forall|i: int, j: int| 0 <= i < j < values@.len() ==> values@[i] < values@[j],
            values@.to_set() == self@,
    {
        bitmap_values(&self.bitmap)
    }

    /// Number of bytes of the encoding of the set.
    pub fn encoded_size(&self) -> (size: usize)
        ensures
            size == self.encoded_len(),
    {
        serialized_bitmap_size(&self.bitmap)
    }
}

impl Clone for NodeSet {
    /// A copy with the same nodes.
    fn clone(&self) -> (copy: Self)
        ensures
            copy@ == self@,
    {
        NodeSet { bitmap: self.bitmap.clone() }
    }
}

} // verus!
