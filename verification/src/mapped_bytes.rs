//! Immutable bytes of a loaded artifact.
use memmap2::Mmap;
use std::sync::Arc;
use vstd::prelude::*;

verus! {

/// Shared, immutable artifact bytes. Numbers are read from them byte by byte, so
/// that the alignment of a section is that of its offset.
#[derive(Debug)]
pub struct MappedBytes {
    bytes: Arc<Vec<u8>>,
}

impl View for MappedBytes {
    type V = Seq<u8>;

    closed spec fn view(&self) -> Seq<u8> {
        self.bytes@
    }
}

#[verifier::external_type_specification]
#[verifier::external_body]
pub struct ExMmap(Mmap);

/// The bytes that `Mmap` dereferences to, copied. They are what the mapped file
/// holds at that moment: nothing is claimed of them.
#[verifier::external_body]
fn mapped_copy(mapping: &Mmap) -> (bytes: Vec<u8>) {
    mapping.to_vec()
}

impl MappedBytes {
    /// Takes the bytes of a mapping. The library owns a copy: a file that
    /// changes later does not change a loaded graph. What the bytes are is up to
    /// the file, so everything that reads them checks them first.
    pub fn from_mmap(mapping: &Mmap) -> (mapped: Self) {
        MappedBytes::from_bytes(mapped_copy(mapping))
    }

    /// Takes over the bytes of a snapshot.
    pub fn from_bytes(bytes: Vec<u8>) -> (mapped: Self)
        ensures
            mapped@ == bytes@,
    {
        MappedBytes { bytes: Arc::new(bytes) }
    }

    /// The bytes.
    pub fn as_slice(&self) -> (slice: &[u8])
        ensures
            slice@ == self@,
    {
        self.bytes.as_slice()
    }

    /// Number of bytes.
    pub fn len(&self) -> (length: usize)
        ensures
            length == self@.len(),
    {
        self.bytes.len()
    }

    /// Another handle to the same bytes.
    pub fn share(&self) -> (other: Self)
        ensures
            other@ == self@,
    {
        MappedBytes { bytes: self.bytes.clone() }
    }
}

} // verus!
