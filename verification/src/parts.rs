//! Byte strings laid end to end, and tables of where each one ends.
use vstd::prelude::*;

use crate::codec::{
    law_le_read_gives_back_write, le_bytes, le_value, lemma_le_len, lemma_radix_values, push_bytes,
    push_le,
};

verus! {

/// The views of a list of slices.
pub open spec fn views(parts: Seq<&[u8]>) -> Seq<Seq<u8>> {
    Seq::new(parts.len(), |i: int| parts[i]@)
}

/// Byte strings laid end to end.
pub open spec fn joined(parts: Seq<Seq<u8>>) -> Seq<u8>
    decreases parts.len(),
{
    if parts.len() == 0 {
        Seq::empty()
    } else {
        joined(parts.drop_last()) + parts.last()
    }
}

/// Where the first byte strings end.
pub open spec fn end_of(parts: Seq<Seq<u8>>, count: int) -> nat {
    joined(parts.take(count)).len()
}

/// The ends of the first byte strings, eight bytes each, from the empty list on.
pub open spec fn end_table(parts: Seq<Seq<u8>>, entries: nat) -> Seq<u8>
    decreases entries,
{
    if entries == 0 {
        Seq::empty()
    } else {
        end_table(parts, (entries - 1) as nat) + le_bytes(end_of(parts, entries - 1), 8)
    }
}

/// The end of one more byte string.
pub proof fn lemma_joined_step(parts: Seq<Seq<u8>>, at: int)
    requires
        0 <= at < parts.len(),
    ensures
        joined(parts.take(at + 1)) == joined(parts.take(at)) + parts[at],
        end_of(parts, at + 1) == end_of(parts, at) + parts[at].len(),
{
    assert(parts.take(at + 1).drop_last() =~= parts.take(at));
}

/// Ends grow.
pub proof fn lemma_ends_grow(parts: Seq<Seq<u8>>, small: int, large: int)
    requires
        0 <= small <= large <= parts.len(),
    ensures
        end_of(parts, small) <= end_of(parts, large),
    decreases large - small,
{
    if small < large {
        lemma_ends_grow(parts, small, large - 1);
        lemma_joined_step(parts, large - 1);
    }
}

/// The length of a table.
pub proof fn lemma_table_len(parts: Seq<Seq<u8>>, entries: nat)
    ensures
        end_table(parts, entries).len() == 8 * entries,
    decreases entries,
{
    if entries > 0 {
        lemma_le_len(end_of(parts, entries - 1), 8);
        lemma_table_len(parts, (entries - 1) as nat);
    }
}

/// A table entry gives back the end that it was written for.
pub proof fn law_table_reads_back(parts: Seq<Seq<u8>>, entries: nat, at: int)
    requires
        0 <= at < entries <= parts.len() + 1,
        joined(parts).len() < 0x1_0000_0000_0000_0000,
    ensures
        le_value(end_table(parts, entries).subrange(8 * at, 8 * at + 8)) == end_of(parts, at),
    decreases entries,
{
    let last = (entries - 1) as nat;
    lemma_table_len(parts, last);
    lemma_le_len(end_of(parts, last as int), 8);
    if at < last {
        law_table_reads_back(parts, last, at);
        assert(end_table(parts, entries).subrange(8 * at, 8 * at + 8) =~= end_table(
            parts,
            last,
        ).subrange(8 * at, 8 * at + 8));
    } else {
        assert(end_table(parts, entries).subrange(8 * at, 8 * at + 8) =~= le_bytes(
            end_of(parts, at),
            8,
        ));
        lemma_ends_grow(parts, at, parts.len() as int);
        assert(parts.take(parts.len() as int) =~= parts);
        lemma_radix_values();
        law_le_read_gives_back_write(end_of(parts, at), 8);
    }
}

/// A byte string stands between two ends.
pub proof fn law_part_reads_back(parts: Seq<Seq<u8>>, at: int)
    requires
        0 <= at < parts.len(),
    ensures
        end_of(parts, at) <= end_of(parts, at + 1) <= joined(parts).len(),
        joined(parts).subrange(end_of(parts, at) as int, end_of(parts, at + 1) as int)
            == parts[at],
    decreases parts.len(),
{
    let last = parts.len() - 1;
    lemma_joined_step(parts, at);
    assert(parts.take(parts.len() as int) =~= parts);
    lemma_ends_grow(parts, at + 1, parts.len() as int);
    let rest = parts.drop_last();
    if at < last {
        law_part_reads_back(rest, at);
        assert(rest.take(at) =~= parts.take(at));
        assert(rest.take(at + 1) =~= parts.take(at + 1));
        assert(joined(parts).subrange(end_of(parts, at) as int, end_of(parts, at + 1) as int)
            =~= joined(rest).subrange(end_of(parts, at) as int, end_of(parts, at + 1) as int));
    } else {
        assert(parts.take(at) =~= rest);
        assert(joined(parts).subrange(end_of(parts, at) as int, end_of(parts, at + 1) as int)
            =~= parts[at]);
    }
}

/// Number of bytes of byte strings laid end to end, if eight bytes can hold it.
pub fn joined_len(parts: &Vec<&[u8]>) -> (length: Option<u64>)
    ensures
        match length {
            Some(length) => length == joined(views(parts@)).len(),
            None => joined(views(parts@)).len() > u64::MAX,
        },
{
    let ghost all = views(parts@);
    let mut total: u64 = 0;
    let mut at: usize = 0;
    proof {
        assert(all.take(0).len() == 0);
    }
    while at < parts.len()
        invariant
            at <= parts@.len(),
            all == views(parts@),
            total == end_of(all, at as int),
        decreases parts@.len() - at,
    {
        proof {
            lemma_joined_step(all, at as int);
            lemma_ends_grow(all, at + 1, all.len() as int);
            assert(all.take(all.len() as int) =~= all);
        }
        total = match total.checked_add(parts[at].len() as u64) {
            Some(total) => total,
            None => return None,
        };
        at = at + 1;
    }
    assert(all.take(at as int) =~= all);
    Some(total)
}

/// Appends byte strings end to end.
pub fn push_joined(out: &mut Vec<u8>, parts: &Vec<&[u8]>)
    ensures
        final(out)@ == old(out)@ + joined(views(parts@)),
{
    let ghost start = out@;
    let ghost all = views(parts@);
    let mut at: usize = 0;
    proof {
        assert(start + joined(all.take(0)) =~= start);
    }
    while at < parts.len()
        invariant
            at <= parts@.len(),
            all == views(parts@),
            out@ == start + joined(all.take(at as int)),
        decreases parts@.len() - at,
    {
        push_bytes(out, parts[at]);
        proof {
            lemma_joined_step(all, at as int);
            assert(out@ =~= start + joined(all.take(at + 1)));
        }
        at = at + 1;
    }
    assert(all.take(at as int) =~= all);
}

/// Appends the table of ends.
pub fn push_end_table(out: &mut Vec<u8>, parts: &Vec<&[u8]>)
    requires
        joined(views(parts@)).len() <= u64::MAX,
    ensures
        final(out)@ == old(out)@ + end_table(views(parts@), parts@.len() + 1),
{
    let ghost start = out@;
    let ghost all = views(parts@);
    let mut end: u64 = 0;
    let mut at: usize = 0;
    push_le(out, 0, 8);
    proof {
        assert(all.take(0).len() == 0);
        assert(end_table(all, 0) =~= Seq::<u8>::empty());
        assert(out@ =~= start + end_table(all, 1));
    }
    while at < parts.len()
        invariant
            at <= parts@.len(),
            all == views(parts@),
            joined(all).len() <= u64::MAX,
            end == end_of(all, at as int),
            out@ == start + end_table(all, (at + 1) as nat),
        decreases parts@.len() - at,
    {
        proof {
            lemma_joined_step(all, at as int);
            lemma_ends_grow(all, at + 1, all.len() as int);
            assert(all.take(all.len() as int) =~= all);
        }
        end = end + parts[at].len() as u64;
        push_le(out, end as u128, 8);
        at = at + 1;
        proof {
            assert(out@ =~= start + end_table(all, (at + 1) as nat));
        }
    }
}

} // verus!
