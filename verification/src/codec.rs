//! Fixed-width integers as bytes, and the lexicographic order of byte strings.
use vstd::prelude::*;

verus! {

/// `256` to the power `width`: one more than the greatest number of `width` bytes.
pub open spec fn radix(width: nat) -> nat
    decreases width,
{
    if width == 0 {
        1
    } else {
        256 * radix((width - 1) as nat)
    }
}

/// The low `width` bytes of a number, least significant byte first.
pub open spec fn le_bytes(value: nat, width: nat) -> Seq<u8>
    decreases width,
{
    if width == 0 {
        Seq::empty()
    } else {
        seq![(value % 256) as u8] + le_bytes(value / 256, (width - 1) as nat)
    }
}

/// The number that bytes denote, least significant byte first.
pub open spec fn le_value(bytes: Seq<u8>) -> nat
    decreases bytes.len(),
{
    if bytes.len() == 0 {
        0
    } else {
        bytes[0] as nat + 256 * le_value(bytes.drop_first())
    }
}

/// The low `width` bytes of a number, most significant byte first.
pub open spec fn be_bytes(value: nat, width: nat) -> Seq<u8>
    decreases width,
{
    if width == 0 {
        Seq::empty()
    } else {
        be_bytes(value / 256, (width - 1) as nat).push((value % 256) as u8)
    }
}

/// The number that bytes denote, most significant byte first.
pub open spec fn be_value(bytes: Seq<u8>) -> nat
    decreases bytes.len(),
{
    if bytes.len() == 0 {
        0
    } else {
        256 * be_value(bytes.drop_last()) + bytes.last() as nat
    }
}

/// Strict lexicographic order of byte strings: a proper prefix comes first.
pub open spec fn lex_less(left: Seq<u8>, right: Seq<u8>) -> bool
    decreases left.len(),
{
    if right.len() == 0 {
        false
    } else if left.len() == 0 {
        true
    } else {
        left[0] < right[0] || (left[0] == right[0] && lex_less(
            left.drop_first(),
            right.drop_first(),
        ))
    }
}

pub proof fn lemma_radix_values()
    ensures
        radix(1) == 256,
        radix(4) == 0x1_0000_0000,
        radix(8) == 0x1_0000_0000_0000_0000,
        radix(16) == 0x1_0000_0000_0000_0000_0000_0000_0000_0000,
{
    reveal_with_fuel(radix, 17);
}

pub proof fn lemma_le_len(value: nat, width: nat)
    ensures
        le_bytes(value, width).len() == width,
    decreases width,
{
    if width > 0 {
        lemma_le_len(value / 256, (width - 1) as nat);
    }
}

pub proof fn lemma_be_len(value: nat, width: nat)
    ensures
        be_bytes(value, width).len() == width,
    decreases width,
{
    if width > 0 {
        lemma_be_len(value / 256, (width - 1) as nat);
    }
}

pub proof fn lemma_le_bound(bytes: Seq<u8>)
    ensures
        le_value(bytes) < radix(bytes.len()),
    decreases bytes.len(),
{
    if bytes.len() > 0 {
        lemma_le_bound(bytes.drop_first());
    }
}

pub proof fn lemma_be_bound(bytes: Seq<u8>)
    ensures
        be_value(bytes) < radix(bytes.len()),
    decreases bytes.len(),
{
    if bytes.len() > 0 {
        lemma_be_bound(bytes.drop_last());
    }
}

/// Reading little-endian bytes gives back the number that was written.
pub proof fn law_le_read_gives_back_write(value: nat, width: nat)
    requires
        value < radix(width),
    ensures
        le_value(le_bytes(value, width)) == value,
    decreases width,
{
    if width > 0 {
        let tail = le_bytes(value / 256, (width - 1) as nat);
        assert(value / 256 < radix((width - 1) as nat));
        law_le_read_gives_back_write(value / 256, (width - 1) as nat);
        assert(le_bytes(value, width).drop_first() =~= tail);
    }
}

/// Reading big-endian bytes gives back the number that was written.
pub proof fn law_be_read_gives_back_write(value: nat, width: nat)
    requires
        value < radix(width),
    ensures
        be_value(be_bytes(value, width)) == value,
    decreases width,
{
    if width > 0 {
        let head = be_bytes(value / 256, (width - 1) as nat);
        assert(value / 256 < radix((width - 1) as nat));
        law_be_read_gives_back_write(value / 256, (width - 1) as nat);
        assert(be_bytes(value, width).drop_last() =~= head);
    }
}

/// Big-endian keys of one width sort as the numbers do, and equal numbers
/// leave the order to what follows.
pub proof fn law_be_order_is_numeric(
    left: nat,
    right: nat,
    width: nat,
    left_rest: Seq<u8>,
    right_rest: Seq<u8>,
)
    requires
        left < radix(width),
        right < radix(width),
    ensures
        lex_less(be_bytes(left, width) + left_rest, be_bytes(right, width) + right_rest) <==> (left
            < right || (left == right && lex_less(left_rest, right_rest))),
    decreases width,
{
    if width == 0 {
        assert(be_bytes(left, width) + left_rest =~= left_rest);
        assert(be_bytes(right, width) + right_rest =~= right_rest);
    } else {
        let w = (width - 1) as nat;
        let l = seq![(left % 256) as u8] + left_rest;
        let r = seq![(right % 256) as u8] + right_rest;
        assert(be_bytes(left, width) + left_rest =~= be_bytes(left / 256, w) + l);
        assert(be_bytes(right, width) + right_rest =~= be_bytes(right / 256, w) + r);
        assert(left / 256 < radix(w));
        assert(right / 256 < radix(w));
        law_be_order_is_numeric(left / 256, right / 256, w, l, r);
        assert(l.drop_first() =~= left_rest);
        assert(r.drop_first() =~= right_rest);
        assert(left == 256 * (left / 256) + left % 256);
        assert(right == 256 * (right / 256) + right % 256);
    }
}

pub proof fn lemma_lex_irreflexive(bytes: Seq<u8>)
    ensures
        !lex_less(bytes, bytes),
    decreases bytes.len(),
{
    if bytes.len() > 0 {
        lemma_lex_irreflexive(bytes.drop_first());
    }
}

pub proof fn lemma_lex_transitive(a: Seq<u8>, b: Seq<u8>, c: Seq<u8>)
    requires
        lex_less(a, b),
        lex_less(b, c),
    ensures
        lex_less(a, c),
    decreases a.len(),
{
    if a.len() > 0 && b.len() > 0 && c.len() > 0 && a[0] == b[0] && b[0] == c[0] {
        lemma_lex_transitive(a.drop_first(), b.drop_first(), c.drop_first());
    }
}

pub proof fn lemma_lex_total(a: Seq<u8>, b: Seq<u8>)
    ensures
        lex_less(a, b) || a == b || lex_less(b, a),
    decreases a.len(),
{
    if a.len() > 0 && b.len() > 0 {
        lemma_lex_total(a.drop_first(), b.drop_first());
        if a[0] == b[0] && a.drop_first() == b.drop_first() {
            assert(a =~= seq![a[0]] + a.drop_first());
            assert(b =~= seq![b[0]] + b.drop_first());
        }
    } else if a.len() == 0 && b.len() == 0 {
        assert(a =~= b);
    }
}

/// Appends the low `width` bytes of a number, least significant first.
pub fn push_le(out: &mut Vec<u8>, value: u128, width: usize)
    ensures
        final(out)@ == old(out)@ + le_bytes(value as nat, width as nat),
{
    let mut rest: u128 = value;
    let mut written: usize = 0;
    let ghost start = out@;
    proof {
        assert(start + Seq::<u8>::empty() =~= start);
    }
    while written < width
        invariant
            written <= width,
            start + le_bytes(value as nat, width as nat) =~= out@ + le_bytes(
                rest as nat,
                (width - written) as nat,
            ),
        decreases width - written,
    {
        let byte: u8 = (rest % 256) as u8;
        let ghost before = out@;
        out.push(byte);
        proof {
            let left = (width - written) as nat;
            assert(le_bytes(rest as nat, left) == seq![(rest as nat % 256) as u8] + le_bytes(
                rest as nat / 256,
                (left - 1) as nat,
            ));
            assert(before + le_bytes(rest as nat, left) =~= out@ + le_bytes(
                rest as nat / 256,
                (left - 1) as nat,
            ));
        }
        rest = rest / 256;
        written = written + 1;
    }
    proof {
        assert(le_bytes(rest as nat, 0) =~= Seq::<u8>::empty());
    }
}

/// Appends the low `width` bytes of a number, most significant first.
pub fn push_be(out: &mut Vec<u8>, value: u128, width: usize)
    ensures
        final(out)@ == old(out)@ + be_bytes(value as nat, width as nat),
    decreases width,
{
    if width == 0 {
        proof {
            assert(out@ + be_bytes(value as nat, 0) =~= out@);
        }
    } else {
        let ghost start = out@;
        push_be(out, value / 256, width - 1);
        out.push((value % 256) as u8);
        proof {
            assert(start + be_bytes(value as nat, width as nat) =~= (start + be_bytes(
                value as nat / 256,
                (width - 1) as nat,
            )).push((value as nat % 256) as u8));
        }
    }
}

/// Reads `width` little-endian bytes at an offset.
pub fn read_le(bytes: &[u8], offset: usize, width: usize) -> (value: u128)
    requires
        offset + width <= bytes@.len(),
        width <= 16,
    ensures
        value as nat == le_value(bytes@.subrange(offset as int, offset + width)),
        value < radix(width as nat),
{
    let length: usize = bytes.len();
    let mut value: u128 = 0;
    let mut left: usize = width;
    proof {
        assert(bytes@.subrange(offset + width, offset + width).len() == 0);
        lemma_radix_values();
    }
    while left > 0
        invariant
            left <= width <= 16,
            offset + width <= length == bytes@.len(),
            value as nat == le_value(bytes@.subrange(offset + left, offset + width)),
        decreases left,
    {
        let ghost tail = bytes@.subrange(offset + left, offset + width);
        left = left - 1;
        proof {
            let wider = bytes@.subrange(offset + left, offset + width);
            assert(wider.drop_first() =~= tail);
            lemma_le_bound(wider);
            lemma_radix_grows((width - left) as nat, 16);
            lemma_radix_values();
        }
        value = bytes[offset + left] as u128 + 256 * value;
    }
    proof {
        lemma_le_bound(bytes@.subrange(offset as int, offset + width));
    }
    value
}

/// Reads `width` big-endian bytes at an offset.
pub fn read_be(bytes: &[u8], offset: usize, width: usize) -> (value: u128)
    requires
        offset + width <= bytes@.len(),
        width <= 16,
    ensures
        value as nat == be_value(bytes@.subrange(offset as int, offset + width)),
        value < radix(width as nat),
{
    let length: usize = bytes.len();
    let mut value: u128 = 0;
    let mut read: usize = 0;
    proof {
        assert(bytes@.subrange(offset as int, offset as int).len() == 0);
    }
    while read < width
        invariant
            read <= width <= 16,
            offset + width <= length == bytes@.len(),
            value as nat == be_value(bytes@.subrange(offset as int, offset + read)),
        decreases width - read,
    {
        proof {
            let wider = bytes@.subrange(offset as int, offset + read + 1);
            assert(wider.drop_last() =~= bytes@.subrange(offset as int, offset + read));
            lemma_be_bound(wider);
            lemma_radix_grows((read + 1) as nat, 16);
            lemma_radix_values();
        }
        value = 256 * value + bytes[offset + read] as u128;
        read = read + 1;
    }
    proof {
        lemma_be_bound(bytes@.subrange(offset as int, offset + width));
    }
    value
}

pub proof fn lemma_radix_grows(small: nat, large: nat)
    requires
        small <= large,
    ensures
        0 < radix(small) <= radix(large),
    decreases large,
{
    if large > 0 {
        if small < large {
            lemma_radix_grows(small, (large - 1) as nat);
        } else {
            lemma_radix_grows((small - 1) as nat, (large - 1) as nat);
        }
    }
}

/// Whether the left byte string sorts strictly before the right one.
pub fn sorts_before(left: &[u8], right: &[u8]) -> (less: bool)
    ensures
        less == lex_less(left@, right@),
{
    let mut at: usize = 0;
    proof {
        assert(left@.skip(0) =~= left@);
        assert(right@.skip(0) =~= right@);
    }
    while at < left.len() && at < right.len() && left[at] == right[at]
        invariant
            at <= left@.len(),
            at <= right@.len(),
            lex_less(left@, right@) == lex_less(left@.skip(at as int), right@.skip(at as int)),
        decreases left@.len() - at,
    {
        proof {
            let l = left@.skip(at as int);
            let r = right@.skip(at as int);
            assert(l.drop_first() =~= left@.skip(at + 1));
            assert(r.drop_first() =~= right@.skip(at + 1));
            assert(l[0] == r[0]);
        }
        at = at + 1;
    }
    if at >= right.len() {
        false
    } else if at >= left.len() {
        true
    } else {
        left[at] < right[at]
    }
}

/// Whether two byte strings are equal.
pub fn bytes_equal(left: &[u8], right: &[u8]) -> (equal: bool)
    ensures
        equal == (left@ == right@),
{
    if left.len() != right.len() {
        return false;
    }
    let mut at: usize = 0;
    while at < left.len()
        invariant
            at <= left@.len(),
            left@.len() == right@.len(),
            forall|i: int| 0 <= i < at ==> left@[i] == right@[i],
        decreases left@.len() - at,
    {
        if left[at] != right[at] {
            assert(left@[at as int] != right@[at as int]);
            return false;
        }
        at = at + 1;
    }
    assert(left@ =~= right@);
    true
}

/// Appends every byte of a slice.
pub fn push_bytes(out: &mut Vec<u8>, bytes: &[u8])
    ensures
        final(out)@ == old(out)@ + bytes@,
{
    let ghost start = out@;
    out.extend_from_slice(bytes);
    assert(out@ =~= start + bytes@);
}

} // verus!
