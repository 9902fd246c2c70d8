//! Lookup of nodes by table and primary key: entries of table, key hash and
//! node, collected while a graph is built and sorted once it is.
use vstd::prelude::*;

use crate::codec::{
    law_le_read_gives_back_write, le_bytes, lemma_le_bound, lemma_le_len, lemma_radix_values,
    lex_less, push_le, read_le,
};
use crate::direct_sections::{record_values, resolution_bytes};
use crate::filter_column::word;
use crate::parts::joined;
use crate::run_records::{
    lemma_ordered_keys, record_views, sort_records, sorted_copy, RecordView, RunRecord,
};
use crate::scan_codec::{encode_resolution_entry, law_resolution_order, resolution_record};
use crate::scan_rows::lemma_views_push;

verus! {

/// Bytes of a stored entry.
pub const ENTRY_SIZE: usize = 16;

/// Bytes before the first stored entry.
pub const INDEX_HEADER_BYTES: usize = 4;

/// A node, and the hash of its key.
#[derive(Debug, Clone, Copy, PartialEq, Eq, Structural)]
pub struct ResolutionEntry {
    pub table_oid: u32,
    pub pk_hash: u64,
    pub node_idx: u32,
}

/// Order of entries: by table, hash and node.
pub open spec fn entry_less(left: ResolutionEntry, right: ResolutionEntry) -> bool {
    left.table_oid < right.table_oid || (left.table_oid == right.table_oid && (left.pk_hash
        < right.pk_hash || (left.pk_hash == right.pk_hash && left.node_idx < right.node_idx)))
}

/// Whether no entry comes before an earlier one.
pub open spec fn entries_sorted(entries: Seq<ResolutionEntry>) -> bool {
    forall|i: int, j: int|
        0 <= i < j < entries.len() ==> !entry_less(#[trigger] entries[j], #[trigger] entries[i])
}

/// The nodes of entries with a table and a hash, in the entries' order.
pub open spec fn matching(entries: Seq<ResolutionEntry>, table_oid: u32, pk_hash: u64) -> Seq<u32>
    decreases entries.len(),
{
    if entries.len() == 0 {
        Seq::empty()
    } else {
        let rest = matching(entries.drop_last(), table_oid, pk_hash);
        if entries.last().table_oid == table_oid && entries.last().pk_hash == pk_hash {
            rest.push(entries.last().node_idx)
        } else {
            rest
        }
    }
}

/// The entry at a position of stored bytes.
pub open spec fn stored_entry(bytes: Seq<u8>, at: int) -> ResolutionEntry {
    ResolutionEntry {
        table_oid: word(bytes, 4 + 16 * at, 4) as u32,
        pk_hash: word(bytes, 8 + 16 * at, 8) as u64,
        node_idx: word(bytes, 16 + 16 * at, 4) as u32,
    }
}

/// Whether stored bytes hold as many entries as they say.
pub open spec fn index_valid(bytes: Seq<u8>) -> bool {
    bytes.len() >= 4 && bytes.len() == 4 + 16 * word(bytes, 0, 4)
}

/// The entries of stored bytes.
pub open spec fn stored_entries(bytes: Seq<u8>) -> Seq<ResolutionEntry> {
    Seq::new(word(bytes, 0, 4), |i: int| stored_entry(bytes, i))
}

/// Appending an entry that does not match changes nothing.
proof fn lemma_matching_push(
    entries: Seq<ResolutionEntry>,
    entry: ResolutionEntry,
    table_oid: u32,
    pk_hash: u64,
)
    ensures
        matching(entries.push(entry), table_oid, pk_hash) == if entry.table_oid == table_oid
            && entry.pk_hash == pk_hash {
            matching(entries, table_oid, pk_hash).push(entry.node_idx)
        } else {
            matching(entries, table_oid, pk_hash)
        },
{
    assert(entries.push(entry).drop_last() =~= entries);
}

/// Entries without a match add nothing.
proof fn lemma_matching_none(
    entries: Seq<ResolutionEntry>,
    first: int,
    next: int,
    table_oid: u32,
    pk_hash: u64,
)
    requires
        0 <= first <= next <= entries.len(),
        forall|i: int|
            first <= i < next ==> !((#[trigger] entries[i]).table_oid == table_oid
                && entries[i].pk_hash == pk_hash),
    ensures
        matching(entries.take(next), table_oid, pk_hash) == matching(
            entries.take(first),
            table_oid,
            pk_hash,
        ),
    decreases next - first,
{
    if first < next {
        lemma_matching_none(entries, first, next - 1, table_oid, pk_hash);
        assert(entries.take(next) =~= entries.take(next - 1).push(entries[next - 1]));
        lemma_matching_push(entries.take(next - 1), entries[next - 1], table_oid, pk_hash);
    }
}

/// Whether an entry matches.
pub(crate) proof fn lemma_matching_member(
    entries: Seq<ResolutionEntry>,
    table_oid: u32,
    pk_hash: u64,
    node: u32,
)
    ensures
        matching(entries, table_oid, pk_hash).contains(node) <==> entries.contains(
            ResolutionEntry { table_oid, pk_hash, node_idx: node },
        ),
    decreases entries.len(),
{
    let wanted = ResolutionEntry { table_oid, pk_hash, node_idx: node };
    let all = matching(entries, table_oid, pk_hash);
    if entries.len() > 0 {
        let rest = matching(entries.drop_last(), table_oid, pk_hash);
        lemma_matching_member(entries.drop_last(), table_oid, pk_hash, node);
        if entries.contains(wanted) {
            let i = choose|i: int| 0 <= i < entries.len() && entries[i] == wanted;
            if i < entries.len() - 1 {
                assert(entries.drop_last()[i] == wanted);
                let k = choose|k: int| 0 <= k < rest.len() && rest[k] == node;
                assert(all[k] == node);
            } else {
                assert(all[rest.len() as int] == node);
            }
        }
        if all.contains(node) {
            let k = choose|k: int| 0 <= k < all.len() && all[k] == node;
            if k < rest.len() {
                assert(rest[k] == node);
                let i = choose|i: int|
                    0 <= i < entries.drop_last().len() && entries.drop_last()[i] == wanted;
                assert(entries[i] == wanted);
            } else {
                assert(entries[entries.len() - 1] == wanted);
            }
        }
    }
}

/// Entries collected while a graph is built, in the order of their insertion.
#[derive(Debug)]
pub struct ResolutionIndexBuilder {
    pub entries: Vec<ResolutionEntry>,
}

impl ResolutionIndexBuilder {
    /// No entries.
    pub fn new() -> (builder: Self)
        ensures
            builder.entries@ == Seq::<ResolutionEntry>::empty(),
    {
        ResolutionIndexBuilder { entries: Vec::new() }
    }

    /// Adds an entry.
    pub fn insert(&mut self, entry: ResolutionEntry)
        ensures
            final(self).entries@ == old(self).entries@.push(entry),
    {
        self.entries.push(entry);
    }

    /// The nodes of entries with a table and a hash, in the order of insertion.
    pub fn candidates(&self, table_oid: u32, pk_hash: u64) -> (nodes: Vec<u32>)
        ensures
            nodes@ == matching(self.entries@, table_oid, pk_hash),
    {
        let mut nodes: Vec<u32> = Vec::new();
        let mut at: usize = 0;
        assert(self.entries@.take(0) =~= Seq::<ResolutionEntry>::empty());
        while at < self.entries.len()
            invariant
                at <= self.entries@.len(),
                nodes@ == matching(self.entries@.take(at as int), table_oid, pk_hash),
            decreases self.entries@.len() - at,
        {
            let entry: ResolutionEntry = self.entries[at];
            proof {
                assert(self.entries@.take(at + 1) =~= self.entries@.take(at as int).push(entry));
                lemma_matching_push(self.entries@.take(at as int), entry, table_oid, pk_hash);
            }
            if entry.table_oid == table_oid && entry.pk_hash == pk_hash {
                nodes.push(entry.node_idx);
            }
            at = at + 1;
        }
        assert(self.entries@.take(at as int) =~= self.entries@);
        nodes
    }

    /// Writes the entries in order, after their number.
    pub fn to_bytes(&self) -> (bytes: Vec<u8>)
        requires
            self.entries@.len() <= u32::MAX,
        ensures
            finalizes(bytes@, self.entries@),
    {
        let mut records: Vec<RunRecord> = Vec::new();
        let mut at: usize = 0;
        proof {
            assert(record_views(records@) =~= entry_records(self.entries@.take(0)));
        }
        while at < self.entries.len()
            invariant
                at <= self.entries@.len(),
                record_views(records@) == entry_records(self.entries@.take(at as int)),
                records@.len() == at,
            decreases self.entries@.len() - at,
        {
            let entry: ResolutionEntry = self.entries[at];
            let record: RunRecord = encode_resolution_entry(
                entry.node_idx,
                entry.table_oid,
                entry.pk_hash,
            );
            let ghost before = records@;
            records.push(record);
            proof {
                lemma_views_push(before, record);
                assert(record_views(records@) =~= entry_records(self.entries@.take(at + 1)));
            }
            at = at + 1;
        }
        assert(self.entries@.take(at as int) =~= self.entries@);
        let sorted: Vec<RunRecord> = sort_records(records);
        let ghost all = record_views(sorted@);
        let mut bytes: Vec<u8> = Vec::new();
        push_le(&mut bytes, sorted.len() as u128, 4);
        let ghost head = bytes@;
        proof {
            lemma_le_len(sorted@.len() as nat, 4);
            assert(record_values(all.take(0)) =~= Seq::<Seq<u8>>::empty());
            assert(bytes@ =~= head + joined(record_values(all.take(0))));
        }
        let mut at: usize = 0;
        while at < sorted.len()
            invariant
                at <= sorted@.len() <= u32::MAX,
                all == record_views(sorted@),
                sorted_copy(all, entry_records(self.entries@)),
                head == le_bytes(sorted@.len() as nat, 4),
                head.len() == 4,
                bytes@ == head + joined(record_values(all.take(at as int))),
                bytes@.len() == 4 + 16 * at,
                forall|i: int|
                    0 <= i < at ==> bytes@.subrange(4 + 16 * i, 20 + 16 * i) == (
                    #[trigger] all[i]).value,
            decreases sorted@.len() - at,
        {
            let value: &Vec<u8> = &sorted[at].value;
            let ghost before = bytes@;
            proof {
                lemma_copy_decodes(all, self.entries@, at as int);
                assert(value@ == all[at as int].value);
                assert(record_values(all.take(at + 1)).drop_last() =~= record_values(
                    all.take(at as int),
                ));
            }
            crate::codec::push_bytes(&mut bytes, value.as_slice());
            proof {
                assert(bytes@ =~= head + joined(record_values(all.take(at + 1))));
                assert forall|i: int| 0 <= i < at + 1 implies bytes@.subrange(
                    4 + 16 * i,
                    20 + 16 * i,
                ) == (#[trigger] all[i]).value by {
                    if i < at {
                        assert(bytes@.subrange(4 + 16 * i, 20 + 16 * i) =~= before.subrange(
                            4 + 16 * i,
                            20 + 16 * i,
                        ));
                    } else {
                        assert(bytes@.subrange(4 + 16 * i, 20 + 16 * i) =~= value@);
                    }
                }
            }
            at = at + 1;
        }
        proof {
            assert(all.take(at as int) =~= all);
            lemma_finalized(bytes@, all, self.entries@);
        }
        bytes
    }
}

/// The records of entries.
pub open spec fn entry_records(entries: Seq<ResolutionEntry>) -> Seq<RecordView> {
    Seq::new(
        entries.len(),
        |i: int|
            resolution_record(
                entries[i].table_oid as nat,
                entries[i].pk_hash as nat,
                entries[i].node_idx as nat,
            ),
    )
}

/// Whether stored bytes are the sorted form of entries.
pub open spec fn finalizes(bytes: Seq<u8>, entries: Seq<ResolutionEntry>) -> bool {
    &&& index_valid(bytes)
    &&& entries_sorted(stored_entries(bytes))
    &&& exists|records: Seq<RecordView>| #[trigger]
        sorted_copy(records, entry_records(entries)) && bytes == resolution_bytes(records)
    &&& forall|entry: ResolutionEntry| #[trigger]
        stored_entries(bytes).contains(entry) <==> entries.contains(entry)
}

/// The entry of a record's value.
pub open spec fn value_entry(value: Seq<u8>) -> ResolutionEntry {
    ResolutionEntry {
        table_oid: word(value, 0, 4) as u32,
        pk_hash: word(value, 4, 8) as u64,
        node_idx: word(value, 12, 4) as u32,
    }
}

/// The value of an entry's record reads back.
pub(crate) proof fn lemma_value_reads_back(entry: ResolutionEntry)
    ensures
        ({
            let record = resolution_record(
                entry.table_oid as nat,
                entry.pk_hash as nat,
                entry.node_idx as nat,
            );
            &&& record.value.len() == 16
            &&& value_entry(record.value) == entry
        }),
{
    let t = entry.table_oid as nat;
    let h = entry.pk_hash as nat;
    let n = entry.node_idx as nat;
    let value = resolution_record(t, h, n).value;
    lemma_radix_values();
    lemma_le_len(t, 4);
    lemma_le_len(h, 8);
    lemma_le_len(n, 4);
    law_le_read_gives_back_write(t, 4);
    law_le_read_gives_back_write(h, 8);
    law_le_read_gives_back_write(n, 4);
    assert(value.subrange(0, 4) =~= le_bytes(t, 4));
    assert(value.subrange(4, 12) =~= le_bytes(h, 8));
    assert(value.subrange(12, 16) =~= le_bytes(n, 4));
}

/// A sorted record is that of an entry.
proof fn lemma_copy_decodes(records: Seq<RecordView>, entries: Seq<ResolutionEntry>, at: int)
    requires
        sorted_copy(records, entry_records(entries)),
        0 <= at < records.len(),
    ensures
        records[at].value.len() == 16,
        entries.contains(value_entry(records[at].value)),
        ({
            let entry = value_entry(records[at].value);
            records[at] == resolution_record(
                entry.table_oid as nat,
                entry.pk_hash as nat,
                entry.node_idx as nat,
            )
        }),
{
    broadcast use vstd::seq_lib::group_to_multiset_ensures;

    let list = entry_records(entries);
    assert(records.contains(records[at]));
    assert(records.to_multiset().contains(records[at]));
    assert(list.contains(records[at]));
    let k = choose|k: int| 0 <= k < list.len() && list[k] == records[at];
    lemma_value_reads_back(entries[k]);
    assert(entries[k] == value_entry(records[at].value));
}

/// Stored bytes of sorted records are the sorted form of the entries.
pub(crate) proof fn lemma_finalized(
    bytes: Seq<u8>,
    records: Seq<RecordView>,
    entries: Seq<ResolutionEntry>,
)
    requires
        records.len() <= u32::MAX,
        sorted_copy(records, entry_records(entries)),
        bytes == resolution_bytes(records),
        bytes.len() == 4 + 16 * records.len(),
        forall|i: int|
            0 <= i < records.len() ==> bytes.subrange(4 + 16 * i, 20 + 16 * i) == (
            #[trigger] records[i]).value,
    ensures
        finalizes(bytes, entries),
{
    broadcast use vstd::seq_lib::group_to_multiset_ensures;

    lemma_radix_values();
    lemma_le_len(records.len(), 4);
    law_le_read_gives_back_write(records.len(), 4);
    assert(bytes.subrange(0, 4) =~= le_bytes(records.len(), 4));
    let stored = stored_entries(bytes);
    assert forall|i: int| 0 <= i < records.len() implies #[trigger] stored[i] == value_entry(
        records[i].value,
    ) by {
        let part = bytes.subrange(4 + 16 * i, 20 + 16 * i);
        assert(part == records[i].value);
        assert(part.subrange(0, 4) =~= bytes.subrange(4 + 16 * i, 8 + 16 * i));
        assert(part.subrange(4, 12) =~= bytes.subrange(8 + 16 * i, 16 + 16 * i));
        assert(part.subrange(12, 16) =~= bytes.subrange(16 + 16 * i, 20 + 16 * i));
    }
    lemma_ordered_keys(records);
    assert forall|i: int, j: int| 0 <= i < j < stored.len() implies !entry_less(
        #[trigger] stored[j],
        #[trigger] stored[i],
    ) by {
        lemma_copy_decodes(records, entries, i);
        lemma_copy_decodes(records, entries, j);
        law_resolution_order(
            stored[j].table_oid,
            stored[j].pk_hash,
            stored[j].node_idx,
            stored[i].table_oid,
            stored[i].pk_hash,
            stored[i].node_idx,
        );
        assert(!lex_less(records[j].key, records[i].key));
    }
    assert forall|entry: ResolutionEntry| #[trigger] stored.contains(entry) <==> entries.contains(
        entry,
    ) by {
        if stored.contains(entry) {
            let i = choose|i: int| 0 <= i < stored.len() && stored[i] == entry;
            lemma_copy_decodes(records, entries, i);
        }
        if entries.contains(entry) {
            let k = choose|k: int| 0 <= k < entries.len() && entries[k] == entry;
            let list = entry_records(entries);
            assert(list.contains(list[k]));
            assert(list.to_multiset().contains(list[k]));
            assert(records.contains(list[k]));
            let i = choose|i: int| 0 <= i < records.len() && records[i] == list[k];
            lemma_value_reads_back(entry);
            assert(stored[i] == entry);
        }
    }
}

/// Sorting entries keeps what can be found.
pub proof fn law_finalizing_keeps_lookups(
    bytes: Seq<u8>,
    entries: Seq<ResolutionEntry>,
    table_oid: u32,
    pk_hash: u64,
    node: u32,
)
    requires
        finalizes(bytes, entries),
    ensures
        matching(stored_entries(bytes), table_oid, pk_hash).contains(node) <==> matching(
            entries,
            table_oid,
            pk_hash,
        ).contains(node),
{
    lemma_matching_member(stored_entries(bytes), table_oid, pk_hash, node);
    lemma_matching_member(entries, table_oid, pk_hash, node);
    let wanted = ResolutionEntry { table_oid, pk_hash, node_idx: node };
    assert(stored_entries(bytes).contains(wanted) <==> entries.contains(wanted));
}

/// Reads a stored entry.
fn read_entry(bytes: &[u8], at: usize) -> (entry: ResolutionEntry)
    requires
        index_valid(bytes@),
        at < word(bytes@, 0, 4),
    ensures
        entry == stored_entry(bytes@, at as int),
{
    let length: usize = bytes.len();
    proof {
        lemma_radix_values();
    }
    let start: usize = 4 + 16 * at;
    ResolutionEntry {
        table_oid: read_le(bytes, start, 4) as u32,
        pk_hash: read_le(bytes, start + 4, 8) as u64,
        node_idx: read_le(bytes, start + 12, 4) as u32,
    }
}

/// The nodes of stored entries with a table and a hash, found by binary search.
/// `None` if the bytes do not hold the entries that they say.
pub fn stored_candidates(bytes: &[u8], table_oid: u32, pk_hash: u64) -> (nodes: Option<Vec<u32>>)
    requires
        index_valid(bytes@) ==> entries_sorted(stored_entries(bytes@)),
    ensures
        match nodes {
            Some(nodes) => index_valid(bytes@) && nodes@ == matching(
                stored_entries(bytes@),
                table_oid,
                pk_hash,
            ),
            None => !index_valid(bytes@),
        },
{
    let length: usize = bytes.len();
    if length < INDEX_HEADER_BYTES {
        return None;
    }
    proof {
        lemma_radix_values();
        lemma_le_bound(bytes@.subrange(0, 4));
    }
    let claimed: u64 = read_le(bytes, 0, 4) as u64;
    if length as u64 != 4 + 16 * claimed {
        return None;
    }
    let count: usize = claimed as usize;
    let ghost entries = stored_entries(bytes@);
    let mut low: usize = 0;
    let mut high: usize = count;
    while low < high
        invariant
            index_valid(bytes@),
            entries == stored_entries(bytes@),
            entries_sorted(entries),
            low <= high <= count == entries.len(),
            forall|i: int|
                0 <= i < low ==> (#[trigger] entries[i]).table_oid < table_oid || (
                entries[i].table_oid == table_oid && entries[i].pk_hash < pk_hash),
            forall|i: int|
                high <= i < count ==> !((#[trigger] entries[i]).table_oid < table_oid || (
                entries[i].table_oid == table_oid && entries[i].pk_hash < pk_hash)),
        decreases high - low,
    {
        let middle: usize = low + (high - low) / 2;
        let entry: ResolutionEntry = read_entry(bytes, middle);
        assert(entry == entries[middle as int]);
        if entry.table_oid < table_oid || (entry.table_oid == table_oid && entry.pk_hash
            < pk_hash) {
            proof {
                assert forall|i: int| 0 <= i < middle + 1 implies (
                #[trigger] entries[i]).table_oid < table_oid || (entries[i].table_oid == table_oid
                    && entries[i].pk_hash < pk_hash) by {
                    if i < middle {
                        assert(!entry_less(entries[middle as int], entries[i]));
                    }
                }
            }
            low = middle + 1;
        } else {
            proof {
                assert forall|i: int| middle <= i < count implies !((
                #[trigger] entries[i]).table_oid < table_oid || (entries[i].table_oid == table_oid
                    && entries[i].pk_hash < pk_hash)) by {
                    if i > middle {
                        assert(!entry_less(entries[i], entries[middle as int]));
                    }
                }
            }
            high = middle;
        }
    }
    let mut nodes: Vec<u32> = Vec::new();
    let mut at: usize = low;
    proof {
        assert(entries.take(0) =~= Seq::<ResolutionEntry>::empty());
        lemma_matching_none(entries, 0, low as int, table_oid, pk_hash);
    }
    while at < count
        invariant
            index_valid(bytes@),
            entries == stored_entries(bytes@),
            entries_sorted(entries),
            low <= at <= count == entries.len(),
            nodes@ == matching(entries.take(at as int), table_oid, pk_hash),
            forall|i: int|
                low <= i < count ==> !((#[trigger] entries[i]).table_oid < table_oid || (
                entries[i].table_oid == table_oid && entries[i].pk_hash < pk_hash)),
        decreases count - at,
    {
        let entry: ResolutionEntry = read_entry(bytes, at);
        assert(entry == entries[at as int]);
        if entry.table_oid != table_oid || entry.pk_hash != pk_hash {
            proof {
                assert forall|i: int| at <= i < count implies !((
                #[trigger] entries[i]).table_oid == table_oid && entries[i].pk_hash == pk_hash) by {
                    if i > at {
                        assert(!entry_less(entries[i], entries[at as int]));
                    }
                }
                lemma_matching_none(entries, at as int, count as int, table_oid, pk_hash);
                assert(entries.take(count as int) =~= entries);
            }
            return Some(nodes);
        }
        proof {
            assert(entries.take(at + 1) =~= entries.take(at as int).push(entry));
            lemma_matching_push(entries.take(at as int), entry, table_oid, pk_hash);
        }
        nodes.push(entry.node_idx);
        at = at + 1;
    }
    assert(entries.take(at as int) =~= entries);
    Some(nodes)
}

} // verus!
