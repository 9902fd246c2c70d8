//! Relationship records as scanned, ordered by the relationship's identity,
//! and the oriented edges made of them.
use vstd::prelude::*;
use vstd::slice::slice_subrange;
use vstd::utf8::{encode_utf8, valid_utf8};

use crate::codec::{
    be_bytes, bytes_equal, law_be_read_gives_back_write, law_le_read_gives_back_write, le_bytes,
    lemma_be_bound, lemma_be_len, lemma_le_len, lemma_radix_values, lex_less, push_be, push_bytes,
    push_le, read_be, read_le,
};
use crate::direct_edges::{big_word, edge_record, encode_edge, DecodedEdge};
use crate::direct_sections::{encode_identity, identity_record};
use crate::errors::{corrupt, internal, ErrorView, GraphResult};
use crate::filter_column::word;
use crate::resource::{limit_error, ResourceGovernor, ResourceKind, ResourcePhase};
use crate::run_records::{
    keys_ordered, record_views, run_view, sorted_copy, RecordView, RunRecord, StagedRun,
};
use crate::scan_rows::lemma_views_push;
use crate::scan_sources::{collected, owned_view};
use crate::text::utf8_text;

verus! {

/// Bytes of a scanned relationship's value.
pub const RAW_FIXED_BYTES: usize = 18;

/// Bytes of the mapping and of the key's length.
pub const RAW_KEY_HEADER_BYTES: usize = 12;

/// A scanned relationship.
pub struct DecodedRaw<'a> {
    pub mapping_id: u64,
    pub source_key: &'a str,
    pub source: u32,
    pub target: u32,
    pub type_id: u8,
    pub weight: u32,
    pub bidirectional: bool,
    pub identity_key_len: usize,
}

/// What a scanned relationship says.
pub struct RawView {
    pub mapping: nat,
    pub key: Seq<u8>,
    pub source: u32,
    pub target: u32,
    pub type_id: u8,
    pub weight: u32,
    pub bidirectional: bool,
}

/// The record of a scanned relationship.
pub open spec fn raw_record(raw: RawView) -> RecordView {
    RecordView {
        key: be_bytes(raw.mapping, 8) + be_bytes(raw.key.len(), 4) + raw.key + be_bytes(
            raw.source as nat,
            4,
        ) + be_bytes(raw.target as nat, 4) + seq![raw.type_id],
        value: le_bytes(raw.source as nat, 4) + le_bytes(raw.target as nat, 4) + seq![raw.type_id]
            + le_bytes(raw.weight as nat, 4) + seq![
            if raw.bidirectional {
                1u8
            } else {
                0u8
            },
        ] + le_bytes(12 + raw.key.len(), 4),
    }
}

/// Length of the key's part that names the relationship.
pub open spec fn identity_len(record: RecordView) -> int {
    12int + big_word(record.key, 8, 4)
}

/// The key's part that names the relationship.
pub open spec fn identity_part(record: RecordView) -> Seq<u8> {
    record.key.subrange(0, identity_len(record))
}

/// Whether a record is that of a scanned relationship.
pub open spec fn raw_valid(record: RecordView) -> bool {
    &&& record.value.len() == 18
    &&& record.key.len() >= 12
    &&& record.key.len() == identity_len(record) + 9
    &&& valid_utf8(record.key.subrange(12, identity_len(record)))
}

/// The relationship of a record.
pub open spec fn raw_of(record: RecordView) -> RawView {
    RawView {
        mapping: big_word(record.key, 0, 8),
        key: record.key.subrange(12, identity_len(record)),
        source: word(record.value, 0, 4) as u32,
        target: word(record.value, 4, 4) as u32,
        type_id: record.value[8],
        weight: word(record.value, 9, 4) as u32,
        bidirectional: record.value[13] != 0,
    }
}

/// Reading a relationship's record gives back the relationship.
pub proof fn law_raw_record_reads_back(raw: RawView)
    requires
        raw.mapping <= u64::MAX,
        raw.key.len() <= u32::MAX,
        valid_utf8(raw.key),
    ensures
        raw_valid(raw_record(raw)),
        raw_of(raw_record(raw)) == raw,
{
    let record = raw_record(raw);
    lemma_radix_values();
    lemma_be_len(raw.mapping, 8);
    lemma_be_len(raw.key.len(), 4);
    lemma_be_len(raw.source as nat, 4);
    lemma_be_len(raw.target as nat, 4);
    lemma_le_len(raw.source as nat, 4);
    lemma_le_len(raw.target as nat, 4);
    lemma_le_len(raw.weight as nat, 4);
    lemma_le_len(12 + raw.key.len(), 4);
    law_be_read_gives_back_write(raw.mapping, 8);
    law_be_read_gives_back_write(raw.key.len(), 4);
    law_le_read_gives_back_write(raw.source as nat, 4);
    law_le_read_gives_back_write(raw.target as nat, 4);
    law_le_read_gives_back_write(raw.weight as nat, 4);
    assert(record.key.subrange(0, 8) =~= be_bytes(raw.mapping, 8));
    assert(record.key.subrange(8, 12) =~= be_bytes(raw.key.len(), 4));
    assert(record.key.subrange(12, 12int + raw.key.len()) =~= raw.key);
    assert(record.value.subrange(0, 4) =~= le_bytes(raw.source as nat, 4));
    assert(record.value.subrange(4, 8) =~= le_bytes(raw.target as nat, 4));
    assert(record.value.subrange(9, 13) =~= le_bytes(raw.weight as nat, 4));
}

/// Builds the record of a scanned relationship.
pub fn encode_raw_edge(
    mapping_id: u64,
    source_key: &str,
    source: u32,
    target: u32,
    type_id: u8,
    weight: Option<u32>,
    bidirectional: bool,
) -> (result: GraphResult<RunRecord>)
    ensures
        match result {
            Ok(record) => encode_utf8(source_key@).len() <= u32::MAX && record@ == raw_record(
                RawView {
                    mapping: mapping_id as nat,
                    key: encode_utf8(source_key@),
                    source,
                    target,
                    type_id,
                    weight: match weight {
                        Some(weight) => weight,
                        None => 0,
                    },
                    bidirectional,
                },
            ),
            Err(error) => encode_utf8(source_key@).len() > u32::MAX && error@
                == ErrorView::Internal("relationship key exceeds u32"@),
        },
{
    let bytes: &[u8] = source_key.as_bytes();
    let length: usize = bytes.len();
    if length > u32::MAX as usize {
        return Err(internal("relationship key exceeds u32"));
    }
    let mut key: Vec<u8> = Vec::new();
    push_be(&mut key, mapping_id as u128, 8);
    push_be(&mut key, length as u128, 4);
    push_bytes(&mut key, bytes);
    push_be(&mut key, source as u128, 4);
    push_be(&mut key, target as u128, 4);
    key.push(type_id);
    let weight: u32 = match weight {
        Some(weight) => weight,
        None => 0,
    };
    let mut value: Vec<u8> = Vec::new();
    push_le(&mut value, source as u128, 4);
    push_le(&mut value, target as u128, 4);
    value.push(type_id);
    push_le(&mut value, weight as u128, 4);
    value.push(
        if bidirectional {
            1
        } else {
            0
        },
    );
    push_le(&mut value, 12 + length as u128, 4);
    let ghost raw = RawView {
        mapping: mapping_id as nat,
        key: bytes@,
        source,
        target,
        type_id,
        weight,
        bidirectional,
    };
    proof {
        assert(key@ =~= raw_record(raw).key);
        assert(value@ =~= raw_record(raw).value);
    }
    Ok(RunRecord::new(key, value))
}

/// Reads a scanned relationship.
pub fn decode_raw_edge(record: &RunRecord) -> (result: GraphResult<DecodedRaw<'_>>)
    ensures
        match result {
            Ok(raw) => {
                let view = raw_of(record@);
                &&& raw_valid(record@)
                &&& raw.mapping_id == view.mapping
                &&& encode_utf8(raw.source_key@) == view.key
                &&& raw.source == view.source
                &&& raw.target == view.target
                &&& raw.type_id == view.type_id
                &&& raw.weight == view.weight
                &&& raw.bidirectional == view.bidirectional
                &&& raw.identity_key_len == identity_len(record@)
            },
            Err(error) => !raw_valid(record@) && error@ == ErrorView::CorruptFile(
                if record.value@.len() != 18 || record.key@.len() < 12 {
                    "raw relationship record has invalid width"@
                } else if record.key@.len() != identity_len(record@) + 9 {
                    "raw relationship key length mismatch"@
                } else {
                    "relationship key is not UTF-8"@
                },
            ),
        },
{
    if record.value.len() != RAW_FIXED_BYTES || record.key.len() < RAW_KEY_HEADER_BYTES {
        return Err(corrupt("raw relationship record has invalid width"));
    }
    proof {
        lemma_radix_values();
    }
    let key: &[u8] = record.key.as_slice();
    let value: &[u8] = record.value.as_slice();
    let mapping_id: u64 = read_be(key, 0, 8) as u64;
    let length: u64 = read_be(key, 8, 4) as u64;
    if key.len() as u64 != 12 + length + 9 {
        return Err(corrupt("raw relationship key length mismatch"));
    }
    let key_end: usize = (12 + length) as usize;
    let part: &[u8] = slice_subrange(key, 12, key_end);
    let source_key: &str = match utf8_text(part) {
        Some(source_key) => source_key,
        None => return Err(corrupt("relationship key is not UTF-8")),
    };
    proof {
        vstd::utf8::decode_utf8_encode_utf8(part@);
    }
    Ok(
        DecodedRaw {
            mapping_id,
            source_key,
            source: read_le(value, 0, 4) as u32,
            target: read_le(value, 4, 4) as u32,
            type_id: value[8],
            weight: read_le(value, 9, 4) as u32,
            bidirectional: value[13] != 0,
            identity_key_len: key_end,
        },
    )
}

/// Whether a relationship's record names another relationship than the record
/// before it.
pub open spec fn raw_fresh(records: Seq<RecordView>, at: int) -> bool {
    at == 0 || identity_part(records[at - 1]) != identity_part(records[at])
}

/// Number of a record's relationship, counted from one.
pub open spec fn relationship_of(records: Seq<RecordView>, at: nat) -> nat
    decreases at,
{
    if at == 0 {
        1
    } else if raw_fresh(records, at as int) {
        relationship_of(records, (at - 1) as nat) + 1
    } else {
        relationship_of(records, (at - 1) as nat)
    }
}

/// The identity records of the first relationship records.
pub open spec fn identity_list(records: Seq<RecordView>, count: nat) -> Seq<RecordView>
    decreases count,
{
    if count == 0 {
        Seq::empty()
    } else {
        let rest = identity_list(records, (count - 1) as nat);
        if raw_fresh(records, count - 1) {
            rest.push(
                identity_record(
                    relationship_of(records, (count - 1) as nat),
                    raw_of(records[count - 1]).mapping,
                    raw_of(records[count - 1]).key,
                ),
            )
        } else {
            rest
        }
    }
}

/// The edge of a record, in its own orientation or turned around.
pub open spec fn oriented(records: Seq<RecordView>, at: int, reversed: bool) -> DecodedEdge {
    let raw = raw_of(records[at]);
    DecodedEdge {
        source: if reversed {
            raw.target
        } else {
            raw.source
        },
        target: if reversed {
            raw.source
        } else {
            raw.target
        },
        type_id: raw.type_id,
        schema_reversed: if reversed {
            1
        } else {
            0
        },
        weight: raw.weight,
        relationship_id: relationship_of(records, at as nat) as u32,
    }
}

/// The outbound edges of the first records. A bidirectional relationship has
/// two.
pub open spec fn forward_list(records: Seq<RecordView>, count: nat) -> Seq<DecodedEdge>
    decreases count,
{
    if count == 0 {
        Seq::empty()
    } else {
        let rest = forward_list(records, (count - 1) as nat).push(
            oriented(records, count - 1, false),
        );
        if raw_of(records[count - 1]).bidirectional {
            rest.push(oriented(records, count - 1, true))
        } else {
            rest
        }
    }
}

/// An edge seen from its other end.
pub open spec fn mirrored(edge: DecodedEdge) -> DecodedEdge {
    DecodedEdge { source: edge.target, target: edge.source, ..edge }
}

/// Edges seen from their other ends.
pub open spec fn mirrored_all(edges: Seq<DecodedEdge>) -> Seq<DecodedEdge> {
    Seq::new(edges.len(), |i: int| mirrored(edges[i]))
}

/// The records of edges.
pub open spec fn edge_records(edges: Seq<DecodedEdge>) -> Seq<RecordView> {
    Seq::new(edges.len(), |i: int| edge_record(edges[i]))
}

/// Whether relationship records make edges that can be counted.
pub open spec fn raws_normal(records: Seq<RecordView>) -> bool {
    &&& forall|i: int| 0 <= i < records.len() ==> raw_valid(#[trigger] records[i])
    &&& forward_list(records, records.len()).len() <= u32::MAX
}

/// Which error comes when records make no edges that can be counted.
pub open spec fn raws_refused(records: Seq<RecordView>, error: ErrorView) -> bool {
    ||| error is CorruptFile && exists|i: int|
        0 <= i < records.len() && !raw_valid(#[trigger] records[i])
    ||| error is Internal && forward_list(records, records.len()).len() > u32::MAX
}

/// Ordered runs of relationships and the registry of their types.
pub struct PersistedEdgeRuns {
    pub forward: Option<StagedRun>,
    pub inbound: Option<StagedRun>,
    pub identities: Option<StagedRun>,
    pub edge_type_registry: Vec<String>,
    pub forward_edge_count: u32,
    pub inbound_edge_count: u32,
}

/// Whether runs are those of relationship records.
pub open spec fn edge_runs_of(runs: PersistedEdgeRuns, records: Seq<RecordView>) -> bool {
    let edges = forward_list(records, records.len());
    &&& sorted_copy(owned_view(runs.forward), edge_records(edges))
    &&& sorted_copy(owned_view(runs.inbound), edge_records(mirrored_all(edges)))
    &&& sorted_copy(owned_view(runs.identities), identity_list(records, records.len()))
    &&& runs.forward_edge_count == edges.len()
    &&& runs.inbound_edge_count == edges.len()
}

/// There are at least as many edges as relationship numbers.
pub proof fn lemma_numbers_small(records: Seq<RecordView>, at: nat)
    ensures
        1 <= relationship_of(records, at) <= at + 1,
        forward_list(records, at + 1).len() >= at + 1,
    decreases at,
{
    if at > 0 {
        lemma_numbers_small(records, (at - 1) as nat);
    }
}

/// More records make more edges.
pub proof fn lemma_forward_grows(records: Seq<RecordView>, small: nat, large: nat)
    requires
        small <= large,
    ensures
        forward_list(records, small).len() <= forward_list(records, large).len(),
    decreases large,
{
    if small < large {
        lemma_forward_grows(records, small, (large - 1) as nat);
    }
}

/// Adds the record of an edge, and that of the edge seen from its other end.
fn push_oriented(
    forward: &mut Vec<RunRecord>,
    inbound: &mut Vec<RunRecord>,
    edge: DecodedEdge,
    Ghost(edges): Ghost<Seq<DecodedEdge>>,
)
    requires
        record_views(old(forward)@) == edge_records(edges),
        record_views(old(inbound)@) == edge_records(mirrored_all(edges)),
    ensures
        record_views(final(forward)@) == edge_records(edges.push(edge)),
        record_views(final(inbound)@) == edge_records(mirrored_all(edges.push(edge))),
{
    let other = DecodedEdge {
        source: edge.target,
        target: edge.source,
        type_id: edge.type_id,
        schema_reversed: edge.schema_reversed,
        weight: edge.weight,
        relationship_id: edge.relationship_id,
    };
    let ghost before = forward@;
    let ghost before_in = inbound@;
    let record: RunRecord = encode_edge(&edge);
    let other_record: RunRecord = encode_edge(&other);
    forward.push(record);
    inbound.push(other_record);
    proof {
        lemma_views_push(before, record);
        lemma_views_push(before_in, other_record);
        assert(record_views(forward@) =~= edge_records(edges.push(edge)));
        assert(record_views(inbound@) =~= edge_records(mirrored_all(edges.push(edge))));
    }
}

/// Lists that are made of relationship records.
struct EdgeLists {
    forward: Vec<RunRecord>,
    inbound: Vec<RunRecord>,
    identities: Vec<RunRecord>,
    count: u32,
}

impl EdgeLists {
    spec fn holds(&self, records: Seq<RecordView>, count: nat) -> bool {
        let edges = forward_list(records, count);
        &&& record_views(self.forward@) == edge_records(edges)
        &&& record_views(self.inbound@) == edge_records(mirrored_all(edges))
        &&& record_views(self.identities@) == identity_list(records, count)
        &&& self.count == edges.len()
    }
}

/// Numbers relationships in order of their identities and orients their edges.
fn orient_relationships(records: &Vec<RunRecord>) -> (result: GraphResult<EdgeLists>)
    ensures
        match result {
            Ok(lists) => {
                let all = record_views(records@);
                &&& raws_normal(all)
                &&& lists.holds(all, all.len())
            },
            Err(error) => raws_refused(record_views(records@), error@),
        },
{
    let ghost all = record_views(records@);
    let mut lists = EdgeLists {
        forward: Vec::new(),
        inbound: Vec::new(),
        identities: Vec::new(),
        count: 0,
    };
    let mut relationship: u32 = 0;
    let mut at: usize = 0;
    proof {
        assert(record_views(lists.forward@) =~= edge_records(forward_list(all, 0)));
        assert(record_views(lists.inbound@) =~= edge_records(mirrored_all(forward_list(all, 0))));
        assert(record_views(lists.identities@) =~= identity_list(all, 0));
    }
    while at < records.len()
        invariant
            at <= records@.len(),
            all == record_views(records@),
            lists.holds(all, at as nat),
            at == 0 ==> relationship == 0,
            at > 0 ==> relationship == relationship_of(all, (at - 1) as nat),
            forall|i: int| 0 <= i < at ==> raw_valid(#[trigger] all[i]),
        decreases records@.len() - at,
    {
        assert(all[at as int] == records@[at as int]@);
        let ghost edges = forward_list(all, at as nat);
        let raw: DecodedRaw<'_> = match decode_raw_edge(&records[at]) {
            Ok(raw) => raw,
            Err(error) => {
                assert(!raw_valid(all[at as int]));
                return Err(error);
            },
        };
        let fresh: bool = if at == 0 {
            true
        } else {
            let before: &RunRecord = &records[at - 1];
            assert(all[at - 1] == before@);
            assert(raw_valid(all[at - 1]));
            let before_end: usize = before.key.len() - 9;
            !bytes_equal(
                slice_subrange(before.key.as_slice(), 0, before_end),
                slice_subrange(records[at].key.as_slice(), 0, raw.identity_key_len),
            )
        };
        assert(fresh == raw_fresh(all, at as int));
        proof {
            lemma_numbers_small(all, at as nat);
            lemma_forward_grows(all, (at + 1) as nat, all.len());
            lemma_radix_values();
            lemma_be_bound(all[at as int].key.subrange(8, 12));
        }
        if fresh {
            if relationship == u32::MAX {
                return Err(internal("relationship identity count exceeds u32"));
            }
            relationship = relationship + 1;
            let identity: RunRecord = match encode_identity(
                relationship,
                raw.mapping_id,
                raw.source_key,
            ) {
                Ok(identity) => identity,
                Err(error) => return Err(error),
            };
            let ghost before = lists.identities@;
            lists.identities.push(identity);
            proof {
                lemma_views_push(before, identity);
            }
        }
        let edge = DecodedEdge {
            source: raw.source,
            target: raw.target,
            type_id: raw.type_id,
            schema_reversed: 0,
            weight: raw.weight,
            relationship_id: relationship,
        };
        assert(edge == oriented(all, at as int, false));
        push_oriented(&mut lists.forward, &mut lists.inbound, edge, Ghost(edges));
        if lists.count == u32::MAX {
            return Err(internal("edge count exceeds u32"));
        }
        lists.count = lists.count + 1;
        if raw.bidirectional {
            let edge = DecodedEdge {
                source: raw.target,
                target: raw.source,
                type_id: raw.type_id,
                schema_reversed: 1,
                weight: raw.weight,
                relationship_id: relationship,
            };
            assert(edge == oriented(all, at as int, true));
            push_oriented(
                &mut lists.forward,
                &mut lists.inbound,
                edge,
                Ghost(edges.push(oriented(all, at as int, false))),
            );
            if lists.count == u32::MAX {
                return Err(internal("edge count exceeds u32"));
            }
            lists.count = lists.count + 1;
        }
        at = at + 1;
    }
    Ok(lists)
}

/// Makes runs of edges and identities out of relationship records.
pub fn normalize_relationships(
    raw: Option<&StagedRun>,
    edge_type_registry: Vec<String>,
    governor: &mut ResourceGovernor,
    max_record_bytes: usize,
) -> (result: GraphResult<PersistedEdgeRuns>)
    ensures
        final(governor)@ == old(governor)@,
        result is Ok <==> old(governor)@.admits_memory(max_record_bytes as int) && raws_normal(
            run_view(raw),
        ),
        result matches Ok(runs) ==> edge_runs_of(runs, run_view(raw)) && runs.edge_type_registry
            == edge_type_registry,
        result matches Err(error) ==> if old(governor)@.admits_memory(max_record_bytes as int) {
            raws_refused(run_view(raw), error@)
        } else {
            error@ == limit_error(ResourcePhase::EdgeResolve, ResourceKind::Memory)
        },
{
    if let Err(error) = governor.reserve_memory(
        ResourcePhase::EdgeResolve,
        max_record_bytes as u64,
    ) {
        return Err(error);
    }
    let none: Vec<RunRecord> = Vec::new();
    let records: &Vec<RunRecord> = match raw {
        Some(run) => run.records(),
        None => &none,
    };
    assert(record_views(records@) =~= run_view(raw));
    let oriented: GraphResult<EdgeLists> = orient_relationships(records);
    governor.release_memory(max_record_bytes as u64);
    match oriented {
        Ok(lists) => Ok(
            PersistedEdgeRuns {
                forward: collected(lists.forward),
                inbound: collected(lists.inbound),
                identities: collected(lists.identities),
                edge_type_registry,
                forward_edge_count: lists.count,
                inbound_edge_count: lists.count,
            },
        ),
        Err(error) => Err(error),
    }
}

/// Bytes between two that share a start share it too.
proof fn lemma_between_shares_start(start: Seq<u8>, low: Seq<u8>, middle: Seq<u8>, high: Seq<u8>)
    requires
        start.is_prefix_of(low),
        start.is_prefix_of(high),
        !lex_less(middle, low),
        !lex_less(high, middle),
    ensures
        start.is_prefix_of(middle),
    decreases start.len(),
{
    if start.len() > 0 {
        assert(low[0] == start[0] && high[0] == start[0]);
        assert(middle.len() > 0 && middle[0] == start[0]);
        assert(start.drop_first() =~= low.drop_first().take(start.len() - 1));
        assert(start.drop_first() =~= high.drop_first().take(start.len() - 1));
        lemma_between_shares_start(
            start.drop_first(),
            low.drop_first(),
            middle.drop_first(),
            high.drop_first(),
        );
        assert(start =~= middle.take(start.len() as int)) by {
            assert forall|i: int| 0 <= i < start.len() implies start[i] == middle[i] by {
                if i > 0 {
                    assert(start.drop_first()[i - 1] == middle.drop_first()[i - 1]);
                }
            }
        }
    }
}

/// A key that starts with another record's identity names that relationship.
proof fn lemma_start_is_identity(record: RecordView, other: RecordView)
    requires
        raw_valid(record),
        raw_valid(other),
        identity_part(record).is_prefix_of(other.key),
    ensures
        identity_part(other) == identity_part(record),
{
    let part = identity_part(record);
    assert(record.key.subrange(8, 12) =~= part.subrange(8, 12));
    assert(other.key.subrange(8, 12) =~= part.subrange(8, 12));
    assert(identity_part(other) =~= part);
}

/// Numbers grow along the records.
proof fn lemma_numbers_grow(records: Seq<RecordView>, low: nat, high: nat)
    requires
        low <= high,
    ensures
        relationship_of(records, low) <= relationship_of(records, high),
    decreases high,
{
    if low < high {
        lemma_numbers_grow(records, low, (high - 1) as nat);
    }
}

/// Records of equal identity between which none has another are of one number.
proof fn lemma_same_number(records: Seq<RecordView>, low: nat, high: nat)
    requires
        low <= high < records.len(),
        forall|i: int|
            low <= i <= high ==> identity_part(#[trigger] records[i]) == identity_part(
                records[low as int],
            ),
    ensures
        relationship_of(records, low) == relationship_of(records, high),
    decreases high,
{
    if low < high {
        lemma_same_number(records, low, (high - 1) as nat);
        assert(identity_part(records[high - 1]) == identity_part(records[high as int]));
    }
}

/// Records of one number have one identity.
proof fn lemma_number_keeps_identity(records: Seq<RecordView>, low: nat, high: nat)
    requires
        low <= high < records.len(),
        relationship_of(records, low) == relationship_of(records, high),
    ensures
        identity_part(records[low as int]) == identity_part(records[high as int]),
    decreases high,
{
    if low < high {
        lemma_numbers_grow(records, low, (high - 1) as nat);
        lemma_number_keeps_identity(records, low, (high - 1) as nat);
    }
}

/// Among ordered relationship records, two have the same number exactly when
/// they name the same relationship.
pub proof fn law_number_is_identity(records: Seq<RecordView>, low: nat, high: nat)
    requires
        low <= high < records.len(),
        keys_ordered(records),
        forall|i: int| 0 <= i < records.len() ==> raw_valid(#[trigger] records[i]),
    ensures
        relationship_of(records, low) == relationship_of(records, high) <==> identity_part(
            records[low as int],
        ) == identity_part(records[high as int]),
{
    let first = records[low as int];
    let last = records[high as int];
    if identity_part(first) == identity_part(last) {
        assert forall|i: int| low <= i <= high implies identity_part(#[trigger] records[i])
            == identity_part(first) by {
            if low < i < high {
                assert(identity_part(first) =~= first.key.take(identity_len(first)));
                assert(identity_part(last) =~= last.key.take(identity_len(last)));
                lemma_between_shares_start(
                    identity_part(first),
                    first.key,
                    records[i].key,
                    last.key,
                );
                lemma_start_is_identity(first, records[i]);
            }
        }
        lemma_same_number(records, low, high);
    }
    if relationship_of(records, low) == relationship_of(records, high) {
        lemma_number_keeps_identity(records, low, high);
    }
}

/// The edges of at most half as many records as can be counted can be counted.
pub proof fn law_edges_are_countable(records: Seq<RecordView>)
    requires
        2 * records.len() <= u32::MAX,
        forall|i: int| 0 <= i < records.len() ==> raw_valid(#[trigger] records[i]),
    ensures
        raws_normal(records),
{
    lemma_forward_bound(records, records.len());
}

/// A record makes at most two edges.
proof fn lemma_forward_bound(records: Seq<RecordView>, count: nat)
    ensures
        forward_list(records, count).len() <= 2 * count,
    decreases count,
{
    if count > 0 {
        lemma_forward_bound(records, (count - 1) as nat);
    }
}

} // verus!
