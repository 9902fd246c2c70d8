//! What containers have allocated, as a list, and what it comes to. How much
//! more than its contents a container holds is the allocator's choice.
use std::collections::HashMap;
use vstd::prelude::*;
use vstd::utf8::encode_utf8;

use crate::limits::{
    bounded_product, bounded_sum, hash_map_allocation_upper_bound, lemma_product_grows, map_bytes,
    map_capacity, product, sum, text_capacity, vector_capacity,
};

verus! {

/// One allocation.
#[derive(Debug, Clone, Copy, PartialEq, Eq, Structural)]
pub enum Room {
    /// Room for items of one size.
    Items { capacity: usize, unit: usize },
    /// Buckets of a hash map, with entries of one size.
    Buckets { capacity: usize, entry: usize },
    /// Room for bits, eight to a byte.
    Bits { capacity: usize },
    /// A number of bytes.
    Bytes { bytes: usize },
}

/// What an allocation holds, or has to hold.
pub enum Need {
    Items { count: nat, unit: nat },
    Buckets { count: nat, entry: nat },
    Bits { count: nat },
    Bytes { bytes: nat },
}

impl View for Room {
    type V = Need;

    open spec fn view(&self) -> Need {
        match *self {
            Room::Items { capacity, unit } => Need::Items {
                count: capacity as nat,
                unit: unit as nat,
            },
            Room::Buckets { capacity, entry } => Need::Buckets {
                count: capacity as nat,
                entry: entry as nat,
            },
            Room::Bits { capacity } => Need::Bits { count: capacity as nat },
            Room::Bytes { bytes } => Need::Bytes { bytes: bytes as nat },
        }
    }
}

/// Bytes of an allocation.
pub open spec fn need_bytes(need: Need) -> nat {
    match need {
        Need::Items { count, unit } => bounded_product(count, unit),
        Need::Buckets { count, entry } => map_bytes(count, entry),
        Need::Bits { count } => (count + 7) / 8,
        Need::Bytes { bytes } => bytes,
    }
}

/// Bytes of allocations, no more than the greatest `usize`.
pub open spec fn total_of(needs: Seq<Need>) -> nat
    decreases needs.len(),
{
    if needs.len() == 0 {
        0
    } else {
        bounded_sum(total_of(needs.drop_last()), need_bytes(needs.last()))
    }
}

/// Whether an allocation has room for what it has to hold.
pub open spec fn has_room(have: Need, need: Need) -> bool {
    match (have, need) {
        (Need::Items { count, unit }, Need::Items { count: least, unit: own }) => count >= least
            && unit == own,
        (Need::Buckets { count, entry }, Need::Buckets { count: least, entry: own }) => count >= least
            && entry == own,
        (Need::Bits { count }, Need::Bits { count: least }) => count >= least,
        (Need::Bytes { bytes }, Need::Bytes { bytes: own }) => bytes == own,
        _ => false,
    }
}

/// Whether allocations have room for what they have to hold, one for one.
pub open spec fn have_room(have: Seq<Need>, needs: Seq<Need>) -> bool {
    &&& have.len() == needs.len()
    &&& forall|i: int| 0 <= i < needs.len() ==> has_room(#[trigger] have[i], needs[i])
}

/// What allocations hold.
pub open spec fn room_views(rooms: Seq<Room>) -> Seq<Need> {
    Seq::new(rooms.len(), |i: int| rooms[i]@)
}

/// Whether a list is another with allocations for some needs at its end.
pub open spec fn adds(before: Seq<Room>, after: Seq<Room>, needs: Seq<Need>) -> bool {
    &&& after.len() == before.len() + needs.len()
    &&& forall|i: int| 0 <= i < before.len() ==> #[trigger] after[i] == before[i]
    &&& forall|i: int|
        0 <= i < needs.len() ==> has_room(after[before.len() + i]@, #[trigger] needs[i])
}

/// One need after another.
pub proof fn lemma_adds(
    before: Seq<Room>,
    middle: Seq<Room>,
    after: Seq<Room>,
    first: Seq<Need>,
    second: Seq<Need>,
)
    requires
        adds(before, middle, first),
        adds(middle, after, second),
    ensures
        adds(before, after, first + second),
{
    let needs = first + second;
    assert forall|i: int| 0 <= i < before.len() implies #[trigger] after[i] == before[i] by {
        assert(middle[i] == before[i]);
    }
    assert forall|i: int| 0 <= i < needs.len() implies has_room(
        after[before.len() + i]@,
        #[trigger] needs[i],
    ) by {
        if i < first.len() {
            assert(needs[i] == first[i]);
            assert(after[before.len() + i] == middle[before.len() + i]);
        } else {
            assert(needs[i] == second[i - first.len()]);
        }
    }
}

/// Nothing is added to a list by leaving it alone.
pub proof fn lemma_adds_nothing(rooms: Seq<Room>)
    ensures
        adds(rooms, rooms, Seq::empty()),
{
}

/// A list that started empty has room for what was added.
pub proof fn lemma_adds_room(rooms: Seq<Room>, needs: Seq<Need>)
    requires
        adds(Seq::empty(), rooms, needs),
    ensures
        have_room(room_views(rooms), needs),
{
    let have = room_views(rooms);
    assert forall|i: int| 0 <= i < needs.len() implies has_room(#[trigger] have[i], needs[i]) by {
        assert(has_room(rooms[0 + i]@, needs[i]));
    }
}

/// Allocations come to no less than what they have to hold.
pub proof fn lemma_total_grows(have: Seq<Need>, needs: Seq<Need>)
    requires
        have_room(have, needs),
    ensures
        total_of(have) >= total_of(needs),
    decreases needs.len(),
{
    if needs.len() > 0 {
        let last = needs.len() - 1;
        assert(has_room(have[last], needs[last]));
        assert forall|i: int| 0 <= i < last implies has_room(
            #[trigger] have.drop_last()[i],
            needs.drop_last()[i],
        ) by {
            assert(has_room(have[i], needs[i]));
        }
        lemma_total_grows(have.drop_last(), needs.drop_last());
        match (have[last], needs[last]) {
            (Need::Items { count, unit }, Need::Items { count: least, .. }) => {
                lemma_product_grows(least, count, unit);
            },
            (Need::Buckets { count, entry }, Need::Buckets { count: least, .. }) => {
                lemma_product_grows(least, count, bounded_sum(entry, 2));
            },
            _ => {},
        }
    }
}

/// Bytes of one allocation.
fn room_bytes(room: Room) -> (bytes: usize)
    ensures
        bytes == bounded_sum(need_bytes(room@), 0),
{
    match room {
        Room::Items { capacity, unit } => product(capacity, unit),
        Room::Buckets { capacity, entry } => hash_map_allocation_upper_bound(capacity, entry),
        Room::Bits { capacity } => capacity / 8 + if capacity % 8 == 0 {
            0
        } else {
            1
        },
        Room::Bytes { bytes } => bytes,
    }
}

/// Bytes of allocations, no more than the greatest `usize`.
pub fn total_bytes(rooms: &Vec<Room>) -> (bytes: usize)
    ensures
        bytes == total_of(room_views(rooms@)),
{
    let ghost views = room_views(rooms@);
    let mut bytes: usize = 0;
    let mut at: usize = 0;
    while at < rooms.len()
        invariant
            at <= rooms@.len(),
            views == room_views(rooms@),
            bytes == total_of(views.take(at as int)),
        decreases rooms@.len() - at,
    {
        proof {
            assert(views.take(at + 1).drop_last() =~= views.take(at as int));
            assert(views.take(at + 1).last() == rooms@[at as int]@);
        }
        bytes = sum(bytes, room_bytes(rooms[at]));
        at = at + 1;
    }
    assert(views.take(rooms@.len() as int) =~= views);
    bytes
}

/// Adds the room of a list's items.
pub fn push_list<T>(rooms: &mut Vec<Room>, list: &Vec<T>)
    ensures
        adds(
            old(rooms)@,
            final(rooms)@,
            seq![Need::Items { count: list@.len(), unit: vstd::layout::size_of::<T>() }],
        ),
{
    rooms.push(Room::Items { capacity: vector_capacity(list), unit: core::mem::size_of::<T>() });
}

/// Adds the room of a text.
pub fn push_text(rooms: &mut Vec<Room>, text: &String)
    ensures
        adds(old(rooms)@, final(rooms)@, seq![text_need(text@)]),
{
    rooms.push(Room::Items { capacity: text_capacity(text), unit: 1 });
}

/// What a text takes.
pub open spec fn text_need(text: Seq<char>) -> Need {
    Need::Items { count: encode_utf8(text).len(), unit: 1 }
}

/// Adds the room of a hash map.
pub fn push_map<V>(rooms: &mut Vec<Room>, map: &HashMap<u32, V>)
    ensures
        adds(
            old(rooms)@,
            final(rooms)@,
            seq![Need::Buckets { count: map@.len(), entry: vstd::layout::size_of::<(u32, V)>() }],
        ),
{
    rooms.push(Room::Buckets { capacity: map_capacity(map), entry: core::mem::size_of::<(u32, V)>() });
}

/// What texts of a list take.
pub open spec fn texts_need(texts: Seq<String>) -> Seq<Need> {
    Seq::new(texts.len(), |i: int| text_need(texts[i]@))
}

/// What a list of texts takes: its items, and each text.
pub open spec fn text_list_needs(texts: Seq<String>) -> Seq<Need> {
    seq![Need::Items { count: texts.len(), unit: vstd::layout::size_of::<String>() }] + texts_need(
        texts,
    )
}

/// Adds the room of a list of texts.
pub fn push_text_list(rooms: &mut Vec<Room>, texts: &Vec<String>)
    ensures
        adds(old(rooms)@, final(rooms)@, text_list_needs(texts@)),
{
    let ghost start = rooms@;
    let ghost needs = texts_need(texts@);
    let ghost head = seq![
        Need::Items { count: texts@.len(), unit: vstd::layout::size_of::<String>() },
    ];
    push_list(rooms, texts);
    let mut at: usize = 0;
    assert(head + needs.take(0) =~= head);
    while at < texts.len()
        invariant
            at <= texts@.len(),
            needs == texts_need(texts@),
            adds(start, rooms@, head + needs.take(at as int)),
        decreases texts@.len() - at,
    {
        let ghost before = rooms@;
        push_text(rooms, &texts[at]);
        proof {
            lemma_adds(
                start,
                before,
                rooms@,
                head + needs.take(at as int),
                seq![text_need(texts@[at as int]@)],
            );
            assert(head + needs.take(at + 1) =~= head + needs.take(at as int) + seq![
                text_need(texts@[at as int]@),
            ]);
        }
        at = at + 1;
    }
    assert(head + needs.take(texts@.len() as int) =~= text_list_needs(texts@));
}

} // verus!
