//! Contracts for the packed bit vector that marks live node slots.
use bitvec::order::Lsb0;
use bitvec::vec::BitVec;
use vstd::prelude::*;

verus! {

/// A packed bit vector of `bitvec`, whose least significant bit comes first.
#[verifier::external_body]
pub struct ActiveBits {
    bits: BitVec<usize, Lsb0>,
}

/// The bits of a vector, in index order.
pub uninterp spec fn bit_contents(bits: ActiveBits) -> Seq<bool>;

/// The greatest number of bits that a bit vector can hold.
pub open spec fn bit_capacity_limit() -> int {
    usize::MAX as int / 8
}

/// Number of set bits.
pub open spec fn count_true(bits: Seq<bool>) -> nat
    decreases bits.len(),
{
    if bits.len() == 0 {
        0
    } else {
        count_true(bits.drop_last()) + if bits.last() {
            1nat
        } else {
            0nat
        }
    }
}

/// `BitVec::with_capacity` returns a vector without bits. The capacity is
/// only a hint; one beyond the encodable length is refused by a panic.
#[verifier::external_body]
pub(crate) fn bits_with_capacity(capacity: usize) -> (bits: ActiveBits)
    requires
        capacity <= bit_capacity_limit(),
    ensures
        bit_contents(bits) == Seq::<bool>::empty(),
{
    ActiveBits { bits: BitVec::with_capacity(capacity) }
}

/// `BitVec::push` appends one bit. It panics once the encodable length is
/// reached.
#[verifier::external_body]
pub(crate) fn push_bit(bits: &mut ActiveBits, value: bool)
    requires
        bit_contents(*old(bits)).len() < bit_capacity_limit(),
    ensures
        bit_contents(*final(bits)) == bit_contents(*old(bits)).push(value),
{
    bits.bits.push(value);
}

/// `BitSlice::get` reads the bit at an index, if there is one.
#[verifier::external_body]
pub(crate) fn get_bit(bits: &ActiveBits, index: usize) -> (bit: Option<bool>)
    ensures
        bit == if index < bit_contents(*bits).len() {
            Some(bit_contents(*bits)[index as int])
        } else {
            None
        },
{
    bits.bits.get(index).map(|bit| *bit)
}

/// `BitSlice::set` writes the bit at an index, which must be in range.
#[verifier::external_body]
pub(crate) fn set_bit(bits: &mut ActiveBits, index: usize, value: bool)
    requires
        index < bit_contents(*old(bits)).len(),
    ensures
        bit_contents(*final(bits)) == bit_contents(*old(bits)).update(index as int, value),
{
    bits.bits.set(index, value);
}

/// `BitSlice::count_ones` counts the set bits.
#[verifier::external_body]
pub(crate) fn count_set_bits(bits: &ActiveBits) -> (count: usize)
    ensures
        count == count_true(bit_contents(*bits)),
{
    bits.bits.count_ones()
}

/// `BitVec::as_raw_slice` exposes the words that hold the bits: bit `i` is bit
/// `i % usize::BITS`, counted from the least significant one, of word
/// `i / usize::BITS`. Bits of the last word beyond the length are not described.
#[verifier::external_body]
pub(crate) fn raw_words(bits: &ActiveBits) -> (words: &[usize])
    ensures
        words@.len() == (bit_contents(*bits).len() + usize::BITS - 1) / usize::BITS as int,
        forall|i: int|
            0 <= i < bit_contents(*bits).len() ==> #[trigger] bit_contents(*bits)[i] == (((words@[i
                / usize::BITS as int] >> ((i % usize::BITS as int) as usize)) & 1usize) == 1usize),
{
    bits.bits.as_raw_slice()
}

/// `BitVec::clone` copies the bits.
#[verifier::external_body]
pub(crate) fn clone_bits(bits: &ActiveBits) -> (copy: ActiveBits)
    ensures
        bit_contents(copy) == bit_contents(*bits),
{
    ActiveBits { bits: bits.bits.clone() }
}

/// `BitVec::capacity` is at least the number of bits.
#[verifier::external_body]
pub(crate) fn bits_capacity(bits: &ActiveBits) -> (capacity: usize)
    ensures
        capacity >= bit_contents(*bits).len(),
{
    bits.bits.capacity()
}

} // verus!
