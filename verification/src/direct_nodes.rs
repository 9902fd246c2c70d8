//! Node sections of a directly built artifact: active bits, tables and keys.
use vstd::prelude::*;
use vstd::slice::slice_subrange;
use vstd::utf8::valid_utf8;

use crate::codec::{
    be_bytes, be_value, law_be_read_gives_back_write, law_le_read_gives_back_write, le_bytes,
    lemma_be_len, lemma_le_len, lemma_radix_values, push_be, push_bytes, push_le, read_be, read_le,
};
use crate::errors::{internal, ErrorView, GraphResult};
use crate::filter_column::word;
use crate::node_store::bit_of;
use crate::parts::{end_table, joined, joined_len, push_end_table, push_joined, views};
use crate::run_records::{record_views, run_view, RecordView, RunRecord, StagedRun};
use crate::text::utf8_text;

verus! {

/// The table of a node record.
pub open spec fn node_table(record: RecordView) -> u32 {
    word(record.value, 4, 4) as u32
}

/// The primary key bytes of a node record.
pub open spec fn node_key(record: RecordView) -> Seq<u8> {
    record.value.subrange(12, record.value.len() as int)
}

/// Whether a record is that of a node: its position big-endian as key; its
/// position, table and key length little-endian and the UTF-8 key as value.
pub open spec fn node_valid(record: RecordView, at: int) -> bool {
    &&& record.key.len() == 4
    &&& record.value.len() >= 12
    &&& be_value(record.key) == at
    &&& word(record.value, 0, 4) == at
    &&& record.value.len() == 12 + word(record.value, 8, 4)
    &&& valid_utf8(node_key(record))
}

/// Whether records are those of nodes, one for each.
pub open spec fn nodes_valid(records: Seq<RecordView>, count: nat) -> bool {
    &&& records.len() == count
    &&& forall|i: int| 0 <= i < count ==> node_valid(#[trigger] records[i], i)
}

/// The keys of node records.
pub open spec fn node_keys(records: Seq<RecordView>) -> Seq<Seq<u8>> {
    Seq::new(records.len(), |i: int| node_key(records[i]))
}

/// The tables of node records, four bytes each.
pub open spec fn node_tables(records: Seq<RecordView>) -> Seq<Seq<u8>> {
    Seq::new(records.len(), |i: int| le_bytes(node_table(records[i]) as nat, 4))
}

/// The record of a node.
pub open spec fn node_record(at: nat, table: nat, key: Seq<u8>) -> RecordView {
    RecordView {
        key: be_bytes(at, 4),
        value: le_bytes(at, 4) + le_bytes(table, 4) + le_bytes(key.len(), 4) + key,
    }
}

/// Reading a node record gives back the node.
pub proof fn law_node_record_reads_back(at: nat, table: u32, key: Seq<u8>)
    requires
        at <= u32::MAX,
        key.len() <= u32::MAX,
        valid_utf8(key),
    ensures
        node_valid(node_record(at, table as nat, key), at as int),
        node_table(node_record(at, table as nat, key)) == table,
        node_key(node_record(at, table as nat, key)) == key,
{
    let record = node_record(at, table as nat, key);
    lemma_radix_values();
    lemma_be_len(at, 4);
    lemma_le_len(at, 4);
    lemma_le_len(table as nat, 4);
    lemma_le_len(key.len(), 4);
    law_be_read_gives_back_write(at, 4);
    law_le_read_gives_back_write(at, 4);
    law_le_read_gives_back_write(table as nat, 4);
    law_le_read_gives_back_write(key.len(), 4);
    assert(record.value.subrange(0, 4) =~= le_bytes(at, 4));
    assert(record.value.subrange(4, 8) =~= le_bytes(table as nat, 4));
    assert(record.value.subrange(8, 12) =~= le_bytes(key.len(), 4));
    assert(node_key(record) =~= key);
}

/// Builds the record of a node.
pub fn encode_node_record(at: u32, table: u32, key: &str) -> (result: GraphResult<RunRecord>)
    ensures
        match result {
            Ok(record) => {
                &&& vstd::utf8::encode_utf8(key@).len() <= u32::MAX
                &&& record@ == node_record(
                    at as nat,
                    table as nat,
                    vstd::utf8::encode_utf8(key@),
                )
            },
            Err(error) => vstd::utf8::encode_utf8(key@).len() > u32::MAX && error@
                == ErrorView::Internal("node primary key exceeds u32 bytes"@),
        },
{
    let bytes: &[u8] = key.as_bytes();
    if bytes.len() > u32::MAX as usize {
        return Err(internal("node primary key exceeds u32 bytes"));
    }
    let mut order: Vec<u8> = Vec::new();
    push_be(&mut order, at as u128, 4);
    let mut value: Vec<u8> = Vec::new();
    push_le(&mut value, at as u128, 4);
    push_le(&mut value, table as u128, 4);
    push_le(&mut value, bytes.len() as u128, 4);
    push_bytes(&mut value, bytes);
    proof {
        assert(order@ =~= be_bytes(at as nat, 4));
        assert(value@ =~= node_record(at as nat, table as nat, bytes@).value);
    }
    Ok(RunRecord::new(order, value))
}

/// The nodes of a run.
pub struct NodeRows<'a> {
    /// Table of each node.
    pub tables: Vec<u32>,
    /// Primary key of each node.
    pub keys: Vec<&'a [u8]>,
}

/// Whether one record is that of a node.
fn is_node(record: &RunRecord, at: u32) -> (result: bool)
    ensures
        result == node_valid(record@, at as int),
{
    proof {
        lemma_radix_values();
    }
    if record.key.len() != 4 || record.value.len() < 12 {
        return false;
    }
    let value: &[u8] = record.value.as_slice();
    let key_at: u32 = read_be(record.key.as_slice(), 0, 4) as u32;
    let node_at: u32 = read_le(value, 0, 4) as u32;
    let length: u64 = read_le(value, 8, 4) as u64;
    proof {
        assert(record.key@.subrange(0, 4) =~= record.key@);
    }
    if key_at != at || node_at != at || value.len() as u64 != 12 + length {
        return false;
    }
    utf8_text(slice_subrange(value, 12, value.len())).is_some()
}

/// Reads the nodes of a run.
pub fn decode_nodes<'a>(run: Option<&'a StagedRun>, node_count: u32) -> (result: GraphResult<
    NodeRows<'a>,
>)
    ensures
        result is Ok <==> nodes_valid(run_view(run), node_count as nat),
        result matches Ok(rows) ==> {
            &&& rows.tables@.len() == rows.keys@.len() == node_count
            &&& views(rows.keys@) == node_keys(run_view(run))
            &&& forall|i: int|
                0 <= i < node_count ==> #[trigger] rows.tables@[i] == node_table(run_view(run)[i])
        },
        result matches Err(error) ==> error@ is Internal,
{
    let mut tables: Vec<u32> = Vec::new();
    let mut keys: Vec<&'a [u8]> = Vec::new();
    let staged: &'a StagedRun = match run {
        Some(staged) => staged,
        None => {
            if node_count != 0 {
                return Err(internal("direct node run is missing"));
            }
            assert(views(keys@) =~= node_keys(Seq::empty()));
            return Ok(NodeRows { tables, keys });
        },
    };
    let records: &'a Vec<RunRecord> = staged.records();
    if records.len() as u64 != node_count as u64 {
        return Err(internal("direct node run ended early"));
    }
    let mut at: u32 = 0;
    while at < node_count
        invariant
            at <= node_count == records@.len(),
            run_view(run) == staged@,
            record_views(records@) == staged@,
            tables@.len() == keys@.len() == at,
            forall|i: int| 0 <= i < at ==> node_valid(#[trigger] staged@[i], i),
            forall|i: int| 0 <= i < at ==> #[trigger] tables@[i] == node_table(staged@[i]),
            forall|i: int| 0 <= i < at ==> (#[trigger] keys@[i])@ == node_key(staged@[i]),
        decreases node_count - at,
    {
        let record: &'a RunRecord = &records[at as usize];
        assert(staged@[at as int] == record@);
        if !is_node(record, at) {
            assert(!node_valid(staged@[at as int], at as int));
            return Err(internal("direct node records are not dense or have invalid lengths"));
        }
        proof {
            lemma_radix_values();
        }
        let value: &'a [u8] = record.value.as_slice();
        tables.push(read_le(value, 4, 4) as u32);
        keys.push(slice_subrange(value, 12, value.len()));
        at = at + 1;
    }
    assert(views(keys@) =~= node_keys(staged@));
    Ok(NodeRows { tables, keys })
}

/// Bits of the first nodes, all set: eight to a byte, the rest zero.
pub open spec fn active_bitmap(nodes: nat) -> Seq<u8> {
    Seq::new(
        ((nodes + 7) / 8) as nat,
        |byte: int| low_bits(
            if 8 * byte + 8 <= nodes {
                8
            } else {
                (nodes - 8 * byte) as nat
            },
        ),
    )
}

/// A byte whose low bits are set.
pub open spec fn low_bits(count: nat) -> u8 {
    if count >= 8 {
        255
    } else {
        ((1u16 << (count as u16)) - 1) as u8
    }
}

proof fn lemma_low_bits(count: u16, bit: u8)
    requires
        count <= 8,
        bit < 8,
    ensures
        bit_of(low_bits(count as nat), bit as int) == (bit < count),
{
    if count == 8 {
        assert((255u8 >> bit) & 1u8 == 1u8) by (bit_vector)
            requires
                bit < 8,
        ;
    } else {
        let low = (1u16 << count) - 1;
        assert(0 <= (1u16 << count) - 1 < 256) by (bit_vector)
            requires
                count < 8,
        ;
        let byte = low as u8;
        assert(((((1u16 << count) - 1) as u8) >> bit) & 1u8 == (if (bit as u16) < count {
            1u8
        } else {
            0u8
        })) by (bit_vector)
            requires
                count < 8,
                bit < 8,
        ;
    }
}

/// The active bitmap marks the nodes and nothing else.
pub proof fn law_every_node_is_active(nodes: nat, bit: int)
    requires
        0 <= bit < 8 * active_bitmap(nodes).len(),
    ensures
        bit_of(active_bitmap(nodes)[bit / 8], bit % 8) == (bit < nodes),
{
    let byte = bit / 8;
    let count: nat = if 8 * byte + 8 <= nodes {
        8
    } else {
        (nodes - 8 * byte) as nat
    };
    lemma_low_bits(count as u16, (bit % 8) as u8);
}

/// The active bitmap of nodes that are all active.
pub fn emit_active_bitmap(node_count: u32) -> (bytes: Vec<u8>)
    ensures
        bytes@ == active_bitmap(node_count as nat),
{
    let mut bytes: Vec<u8> = Vec::new();
    let full: u32 = node_count / 8;
    let mut at: u32 = 0;
    while at < full
        invariant
            at <= full == node_count / 8,
            bytes@ =~= active_bitmap(node_count as nat).take(at as int),
        decreases full - at,
    {
        bytes.push(255);
        at = at + 1;
    }
    let rest: u16 = (node_count % 8) as u16;
    if rest != 0 {
        proof {
            assert(1 <= (1u16 << rest) <= 128) by (bit_vector)
                requires
                    rest < 8,
            ;
        }
        bytes.push(((1u16 << rest) - 1) as u8);
    }
    proof {
        assert(bytes@ =~= active_bitmap(node_count as nat));
    }
    bytes
}

/// The tables of nodes.
pub(crate) fn emit_table_oids(rows: &NodeRows<'_>, Ghost(records): Ghost<Seq<RecordView>>) -> (bytes: Vec<
    u8,
>)
    requires
        rows.tables@.len() == records.len(),
        forall|i: int| 0 <= i < records.len() ==> #[trigger] rows.tables@[i] == node_table(
            records[i],
        ),
    ensures
        bytes@ == joined(node_tables(records)),
{
    let mut bytes: Vec<u8> = Vec::new();
    let ghost all = node_tables(records);
    let mut at: usize = 0;
    proof {
        assert(joined(all.take(0)) =~= Seq::<u8>::empty());
    }
    while at < rows.tables.len()
        invariant
            at <= rows.tables@.len() == records.len(),
            all == node_tables(records),
            forall|i: int| 0 <= i < records.len() ==> #[trigger] rows.tables@[i] == node_table(
                records[i],
            ),
            bytes@ == joined(all.take(at as int)),
        decreases rows.tables@.len() - at,
    {
        push_le(&mut bytes, rows.tables[at] as u128, 4);
        proof {
            crate::parts::lemma_joined_step(all, at as int);
        }
        at = at + 1;
    }
    assert(all.take(at as int) =~= all);
    bytes
}

/// The offsets of primary keys: where each starts, and where the last ends.
pub fn emit_primary_key_offsets(rows: &NodeRows<'_>) -> (result: GraphResult<Vec<u8>>)
    ensures
        match result {
            Ok(bytes) => joined(views(rows.keys@)).len() <= u64::MAX && bytes@ == end_table(
                views(rows.keys@),
                rows.keys@.len() + 1,
            ),
            Err(error) => joined(views(rows.keys@)).len() > u64::MAX && error@
                == ErrorView::Internal("primary key section exceeds u64"@),
        },
{
    match joined_len(&rows.keys) {
        Some(_) => {
            let mut bytes: Vec<u8> = Vec::new();
            push_end_table(&mut bytes, &rows.keys);
            assert(bytes@ =~= end_table(views(rows.keys@), rows.keys@.len() + 1));
            Ok(bytes)
        },
        None => Err(internal("primary key section exceeds u64")),
    }
}

/// The primary keys, one after the other.
pub fn emit_primary_keys(rows: &NodeRows<'_>) -> (bytes: Vec<u8>)
    ensures
        bytes@ == joined(views(rows.keys@)),
{
    let mut bytes: Vec<u8> = Vec::new();
    push_joined(&mut bytes, &rows.keys);
    assert(bytes@ =~= joined(views(rows.keys@)));
    bytes
}

} // verus!
