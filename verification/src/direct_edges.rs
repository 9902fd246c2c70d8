//! Edge sections of a directly built artifact: adjacency in rows of nodes.
use vstd::prelude::*;

use crate::codec::{
    be_bytes, be_value, law_be_order_is_numeric, law_be_read_gives_back_write,
    law_le_read_gives_back_write, le_bytes, lemma_be_bound, lemma_be_len, lemma_le_len,
    lemma_radix_values, lex_less, push_be, push_le, read_be, read_le,
};
use crate::errors::{internal, ErrorView, GraphResult};
use crate::filter_column::word;
use crate::parts::{joined, lemma_joined_step};
use crate::run_records::{
    keys_ordered, record_views, run_view, RecordView, RunRecord, StagedRun,
};

verus! {

/// Bytes of an edge record's key.
pub const EDGE_RECORD_KEY_BYTES: usize = 14;

/// Bytes of an edge record's value.
pub const EDGE_RECORD_VALUE_BYTES: usize = 14;

/// An edge of a run. A weight of zero stands for none.
#[derive(Debug, Clone, Copy, PartialEq, Eq, Structural)]
pub struct DecodedEdge {
    pub source: u32,
    pub target: u32,
    pub type_id: u8,
    pub schema_reversed: u8,
    pub weight: u32,
    pub relationship_id: u32,
}

/// The big-endian number at a position.
pub open spec fn big_word(bytes: Seq<u8>, at: int, width: int) -> nat {
    be_value(bytes.subrange(at, at + width))
}

/// The edge of a record.
pub open spec fn edge_of(record: RecordView) -> DecodedEdge {
    DecodedEdge {
        source: big_word(record.key, 0, 4) as u32,
        target: word(record.value, 0, 4) as u32,
        type_id: record.value[4],
        schema_reversed: record.value[5],
        weight: word(record.value, 6, 4) as u32,
        relationship_id: word(record.value, 10, 4) as u32,
    }
}

/// Whether a record is that of an edge: the key repeats the value's fields in
/// an order that sorts.
pub open spec fn edge_valid(record: RecordView) -> bool {
    let edge = edge_of(record);
    &&& record.key.len() == 14
    &&& record.value.len() == 14
    &&& big_word(record.key, 4, 4) == edge.target
    &&& record.key[8] == edge.type_id
    &&& record.key[9] == edge.schema_reversed
    &&& big_word(record.key, 10, 4) == edge.relationship_id
    &&& edge.schema_reversed <= 1
}

/// Whether records are those of edges between nodes.
pub open spec fn edges_valid(records: Seq<RecordView>, nodes: nat, count: nat) -> bool {
    &&& records.len() == count
    &&& forall|i: int|
        0 <= i < count ==> edge_valid(#[trigger] records[i]) && edge_of(records[i]).source < nodes
            && edge_of(records[i]).target < nodes
}

/// The edges of records.
pub open spec fn edges_of(records: Seq<RecordView>) -> Seq<DecodedEdge> {
    Seq::new(records.len(), |i: int| edge_of(records[i]))
}

/// The record of an edge.
pub open spec fn edge_record(edge: DecodedEdge) -> RecordView {
    RecordView {
        key: be_bytes(edge.source as nat, 4) + be_bytes(edge.target as nat, 4) + seq![
            edge.type_id,
            edge.schema_reversed,
        ] + be_bytes(edge.relationship_id as nat, 4),
        value: le_bytes(edge.target as nat, 4) + seq![edge.type_id, edge.schema_reversed]
            + le_bytes(edge.weight as nat, 4) + le_bytes(edge.relationship_id as nat, 4),
    }
}

/// Reading an edge record gives back the edge.
pub proof fn law_edge_record_reads_back(edge: DecodedEdge)
    requires
        edge.schema_reversed <= 1,
    ensures
        edge_valid(edge_record(edge)),
        edge_of(edge_record(edge)) == edge,
{
    let record = edge_record(edge);
    let s = edge.source as nat;
    let t = edge.target as nat;
    let w = edge.weight as nat;
    let r = edge.relationship_id as nat;
    lemma_radix_values();
    lemma_be_len(s, 4);
    lemma_be_len(t, 4);
    lemma_be_len(r, 4);
    lemma_le_len(t, 4);
    lemma_le_len(w, 4);
    lemma_le_len(r, 4);
    law_be_read_gives_back_write(s, 4);
    law_be_read_gives_back_write(t, 4);
    law_be_read_gives_back_write(r, 4);
    law_le_read_gives_back_write(t, 4);
    law_le_read_gives_back_write(w, 4);
    law_le_read_gives_back_write(r, 4);
    assert(record.key.subrange(0, 4) =~= be_bytes(s, 4));
    assert(record.key.subrange(4, 8) =~= be_bytes(t, 4));
    assert(record.key.subrange(10, 14) =~= be_bytes(r, 4));
    assert(record.value.subrange(0, 4) =~= le_bytes(t, 4));
    assert(record.value.subrange(6, 10) =~= le_bytes(w, 4));
    assert(record.value.subrange(10, 14) =~= le_bytes(r, 4));
}

/// Builds the record of an edge.
pub fn encode_edge(edge: &DecodedEdge) -> (record: RunRecord)
    ensures
        record@ == edge_record(*edge),
{
    let mut key: Vec<u8> = Vec::new();
    push_be(&mut key, edge.source as u128, 4);
    push_be(&mut key, edge.target as u128, 4);
    key.push(edge.type_id);
    key.push(edge.schema_reversed);
    push_be(&mut key, edge.relationship_id as u128, 4);
    let mut value: Vec<u8> = Vec::new();
    push_le(&mut value, edge.target as u128, 4);
    value.push(edge.type_id);
    value.push(edge.schema_reversed);
    push_le(&mut value, edge.weight as u128, 4);
    push_le(&mut value, edge.relationship_id as u128, 4);
    proof {
        assert(key@ =~= edge_record(*edge).key);
        assert(value@ =~= edge_record(*edge).value);
    }
    RunRecord::new(key, value)
}

/// Reads an edge record.
pub fn decode_edge(record: &RunRecord) -> (result: GraphResult<DecodedEdge>)
    ensures
        match result {
            Ok(edge) => edge_valid(record@) && edge == edge_of(record@),
            Err(error) => !edge_valid(record@) && error@ == ErrorView::Internal(
                if record.key@.len() != 14 || record.value@.len() != 14 {
                    "invalid direct edge record shape"@
                } else {
                    "direct edge key/value mismatch"@
                },
            ),
        },
{
    if record.key.len() != EDGE_RECORD_KEY_BYTES || record.value.len() != EDGE_RECORD_VALUE_BYTES {
        return Err(internal("invalid direct edge record shape"));
    }
    proof {
        lemma_radix_values();
    }
    let key: &[u8] = record.key.as_slice();
    let value: &[u8] = record.value.as_slice();
    let edge = DecodedEdge {
        source: read_be(key, 0, 4) as u32,
        target: read_le(value, 0, 4) as u32,
        type_id: value[4],
        schema_reversed: value[5],
        weight: read_le(value, 6, 4) as u32,
        relationship_id: read_le(value, 10, 4) as u32,
    };
    if read_be(key, 4, 4) as u32 != edge.target || key[8] != edge.type_id || key[9]
        != edge.schema_reversed || read_be(key, 10, 4) as u32 != edge.relationship_id
        || edge.schema_reversed > 1 {
        return Err(internal("direct edge key/value mismatch"));
    }
    Ok(edge)
}

/// Reads the edges of a run.
pub fn replay_edges(run: Option<&StagedRun>, node_count: u32, edge_count: u32) -> (result:
    GraphResult<Vec<DecodedEdge>>)
    ensures
        result is Ok <==> edges_valid(run_view(run), node_count as nat, edge_count as nat),
        result matches Ok(edges) ==> edges@ == edges_of(run_view(run)) && sources_ordered(edges@),
        result matches Err(error) ==> error@ is Internal,
{
    let mut edges: Vec<DecodedEdge> = Vec::new();
    let staged: &StagedRun = match run {
        Some(staged) => staged,
        None => {
            if edge_count != 0 {
                return Err(internal("direct edge run is missing"));
            }
            assert(edges@ =~= edges_of(Seq::empty()));
            return Ok(edges);
        },
    };
    let records: &Vec<RunRecord> = staged.records();
    if records.len() as u64 != edge_count as u64 {
        return Err(internal("direct edge run count changed"));
    }
    let mut at: usize = 0;
    while at < records.len()
        invariant
            at <= records@.len(),
            run_view(run) == staged@,
            record_views(records@) == staged@,
            edges@.len() == at,
            forall|i: int|
                0 <= i < at ==> edge_valid(#[trigger] staged@[i]) && edge_of(staged@[i]).source
                    < node_count && edge_of(staged@[i]).target < node_count,
            forall|i: int| 0 <= i < at ==> #[trigger] edges@[i] == edge_of(staged@[i]),
        decreases records@.len() - at,
    {
        assert(staged@[at as int] == records@[at as int]@);
        let edge: DecodedEdge = match decode_edge(&records[at]) {
            Ok(edge) => edge,
            Err(error) => {
                assert(!edge_valid(staged@[at as int]));
                return Err(error);
            },
        };
        if edge.source >= node_count || edge.target >= node_count {
            assert(!(edge_of(staged@[at as int]).source < node_count && edge_of(
                staged@[at as int],
            ).target < node_count));
            return Err(internal("direct edge endpoint is out of bounds"));
        }
        edges.push(edge);
        at = at + 1;
    }
    proof {
        assert(edges@ =~= edges_of(staged@));
        lemma_sources_ordered(staged@);
    }
    Ok(edges)
}

/// Whether edges are in order of their sources.
pub open spec fn sources_ordered(edges: Seq<DecodedEdge>) -> bool {
    forall|i: int, j: int| 0 <= i < j < edges.len() ==> edges[i].source <= edges[j].source
}

/// Edges in order of their keys are in order of their sources.
proof fn lemma_sources_ordered(records: Seq<RecordView>)
    requires
        keys_ordered(records),
        forall|i: int| 0 <= i < records.len() ==> edge_valid(#[trigger] records[i]),
    ensures
        sources_ordered(edges_of(records)),
{
    lemma_radix_values();
    assert forall|i: int, j: int| 0 <= i < j < records.len() implies edge_of(records[i]).source
        <= edge_of(records[j]).source by {
        let left = records[i].key;
        let right = records[j].key;
        assert(edge_valid(records[i]) && edge_valid(records[j]));
        assert(!lex_less(right, left));
        let a = big_word(left, 0, 4);
        let b = big_word(right, 0, 4);
        lemma_be_bound(left.subrange(0, 4));
        lemma_be_bound(right.subrange(0, 4));
        lemma_be_inverse(left.subrange(0, 4));
        lemma_be_inverse(right.subrange(0, 4));
        assert(left =~= be_bytes(a, 4) + left.subrange(4, 14));
        assert(right =~= be_bytes(b, 4) + right.subrange(4, 14));
        law_be_order_is_numeric(b, a, 4, right.subrange(4, 14), left.subrange(4, 14));
    }
}

/// Bytes are those of the number that they denote.
pub proof fn lemma_be_inverse(bytes: Seq<u8>)
    ensures
        be_bytes(be_value(bytes), bytes.len()) == bytes,
    decreases bytes.len(),
{
    if bytes.len() > 0 {
        lemma_be_inverse(bytes.drop_last());
        let value = be_value(bytes);
        let head = be_value(bytes.drop_last());
        assert(value / 256 == head && value % 256 == bytes.last());
        assert(be_bytes(value, bytes.len()) =~= bytes);
    } else {
        assert(be_bytes(0, 0) =~= bytes);
    }
}

/// Number of edges whose source is below a node.
pub open spec fn edges_before(edges: Seq<DecodedEdge>, node: int) -> nat
    decreases edges.len(),
{
    if edges.len() == 0 {
        0
    } else {
        edges_before(edges.drop_last(), node) + if edges.last().source < node {
            1nat
        } else {
            0nat
        }
    }
}

proof fn lemma_edges_before(edges: Seq<DecodedEdge>, node: int, at: int)
    requires
        0 <= at <= edges.len(),
        forall|i: int| 0 <= i < at ==> (#[trigger] edges[i]).source < node,
        forall|i: int| at <= i < edges.len() ==> (#[trigger] edges[i]).source >= node,
    ensures
        edges_before(edges, node) == at,
    decreases edges.len(),
{
    if edges.len() > 0 {
        let rest = edges.drop_last();
        assert forall|i: int| 0 <= i < rest.len() implies #[trigger] rest[i] == edges[i] by {}
        if at == edges.len() {
            lemma_edges_before(rest, node, at - 1);
        } else {
            lemma_edges_before(rest, node, at);
        }
    }
}

/// The edges of a node stand between its offset and the next node's.
pub proof fn law_row_holds_the_nodes_edges(edges: Seq<DecodedEdge>, node: int, at: int)
    requires
        sources_ordered(edges),
        0 <= at < edges.len(),
    ensures
        edges_before(edges, node) <= at < edges_before(edges, node + 1) <==> edges[at].source
            == node,
{
    lemma_position(edges, node, at);
    lemma_position(edges, node + 1, at);
}

/// An edge stands before an offset exactly if its source is below the node.
proof fn lemma_position(edges: Seq<DecodedEdge>, node: int, at: int)
    requires
        sources_ordered(edges),
        0 <= at < edges.len(),
    ensures
        at < edges_before(edges, node) <==> edges[at].source < node,
    decreases edges.len(),
{
    let rest = edges.drop_last();
    let last = edges.len() - 1;
    assert forall|i: int, j: int| 0 <= i < j < rest.len() implies rest[i].source
        <= rest[j].source by {
        assert(edges[i].source <= edges[j].source);
    }
    lemma_edges_before_bound(rest, node);
    if at < last {
        lemma_position(rest, node, at);
        if edges[last].source < node {
            assert(edges[at].source <= edges[last].source);
        }
    } else {
        if edges[last].source < node {
            assert forall|i: int| 0 <= i < rest.len() implies (#[trigger] rest[i]).source
                < node by {
                assert(edges[i].source <= edges[last].source);
            }
            lemma_edges_before(rest, node, rest.len() as int);
        }
    }
}

/// No more edges come before a node than there are.
pub proof fn lemma_edges_before_bound(edges: Seq<DecodedEdge>, node: int)
    ensures
        edges_before(edges, node) <= edges.len(),
    decreases edges.len(),
{
    if edges.len() > 0 {
        lemma_edges_before_bound(edges.drop_last(), node);
    }
}

/// The offsets of all rows, and the end of the last.
pub open spec fn offset_parts(edges: Seq<DecodedEdge>, nodes: nat) -> Seq<Seq<u8>> {
    Seq::new(nodes + 1, |node: int| le_bytes(edges_before(edges, node), 4))
}

/// One four-byte number per edge.
pub open spec fn number_parts(edges: Seq<DecodedEdge>, field: spec_fn(DecodedEdge) -> u32) -> Seq<
    Seq<u8>,
> {
    Seq::new(edges.len(), |i: int| le_bytes(field(edges[i]) as nat, 4))
}

/// The weight of an edge; one that has none weighs one.
pub open spec fn edge_weight(edge: DecodedEdge) -> u32 {
    if edge.weight == 0 {
        1
    } else {
        edge.weight
    }
}

/// The six sections of adjacency.
#[verifier::ext_equal]
pub struct CsrView {
    pub offsets: Seq<u8>,
    pub targets: Seq<u8>,
    pub types: Seq<u8>,
    pub reversed: Seq<u8>,
    pub weights: Seq<u8>,
    pub identities: Seq<u8>,
}

/// What the six sections hold for edges.
pub open spec fn csr_of(edges: Seq<DecodedEdge>, nodes: nat, weighted: bool) -> CsrView {
    CsrView {
        offsets: joined(offset_parts(edges, nodes)),
        targets: joined(number_parts(edges, |edge: DecodedEdge| edge.target)),
        types: Seq::new(edges.len(), |i: int| edges[i].type_id),
        reversed: Seq::new(edges.len(), |i: int| edges[i].schema_reversed),
        weights: if weighted {
            joined(number_parts(edges, |edge: DecodedEdge| edge_weight(edge)))
        } else {
            Seq::empty()
        },
        identities: joined(number_parts(edges, |edge: DecodedEdge| edge.relationship_id)),
    }
}

/// The six sections of adjacency.
pub struct CsrSections {
    pub offsets: Vec<u8>,
    pub targets: Vec<u8>,
    pub types: Vec<u8>,
    pub reversed: Vec<u8>,
    pub weights: Vec<u8>,
    pub identities: Vec<u8>,
}

impl View for CsrSections {
    type V = CsrView;

    open spec fn view(&self) -> CsrView {
        CsrView {
            offsets: self.offsets@,
            targets: self.targets@,
            types: self.types@,
            reversed: self.reversed@,
            weights: self.weights@,
            identities: self.identities@,
        }
    }
}

fn emit_offsets(edges: &Vec<DecodedEdge>, node_count: u32) -> (bytes: Vec<u8>)
    requires
        sources_ordered(edges@),
        edges@.len() <= u32::MAX,
    ensures
        bytes@ == joined(offset_parts(edges@, node_count as nat)),
{
    let ghost all = offset_parts(edges@, node_count as nat);
    let mut bytes: Vec<u8> = Vec::new();
    let mut at: usize = 0;
    let mut node: u64 = 0;
    proof {
        assert(joined(all.take(0)) =~= Seq::<u8>::empty());
    }
    while node <= node_count as u64
        invariant
            node <= node_count + 1,
            at <= edges@.len() <= u32::MAX,
            sources_ordered(edges@),
            all == offset_parts(edges@, node_count as nat),
            bytes@ == joined(all.take(node as int)),
            forall|i: int| 0 <= i < at ==> (#[trigger] edges@[i]).source < node,
        decreases node_count + 1 - node,
    {
        while at < edges.len() && (edges[at].source as u64) < node
            invariant
                at <= edges@.len(),
                forall|i: int| 0 <= i < at ==> (#[trigger] edges@[i]).source < node,
            decreases edges@.len() - at,
        {
            at = at + 1;
        }
        proof {
            assert forall|i: int| at <= i < edges@.len() implies (#[trigger] edges@[i]).source
                >= node by {
                if i > at {
                    assert(edges@[at as int].source <= edges@[i].source);
                }
            }
            lemma_edges_before(edges@, node as int, at as int);
            lemma_joined_step(all, node as int);
        }
        push_le(&mut bytes, at as u128, 4);
        node = node + 1;
    }
    assert(all.take(node as int) =~= all);
    bytes
}

/// Writes the six sections of adjacency.
pub fn emit_csr(edges: &Vec<DecodedEdge>, node_count: u32, has_weights: bool) -> (sections:
    CsrSections)
    requires
        sources_ordered(edges@),
        edges@.len() <= u32::MAX,
    ensures
        sections@ == csr_of(edges@, node_count as nat, has_weights),
{
    let offsets: Vec<u8> = emit_offsets(edges, node_count);
    let ghost target_parts = number_parts(edges@, |edge: DecodedEdge| edge.target);
    let ghost weight_parts = number_parts(edges@, |edge: DecodedEdge| edge_weight(edge));
    let ghost identity_parts = number_parts(edges@, |edge: DecodedEdge| edge.relationship_id);
    let mut targets: Vec<u8> = Vec::new();
    let mut types: Vec<u8> = Vec::new();
    let mut reversed: Vec<u8> = Vec::new();
    let mut weights: Vec<u8> = Vec::new();
    let mut identities: Vec<u8> = Vec::new();
    let mut at: usize = 0;
    proof {
        assert(joined(target_parts.take(0)) =~= Seq::<u8>::empty());
        assert(joined(weight_parts.take(0)) =~= Seq::<u8>::empty());
        assert(joined(identity_parts.take(0)) =~= Seq::<u8>::empty());
    }
    while at < edges.len()
        invariant
            at <= edges@.len(),
            target_parts == number_parts(edges@, |edge: DecodedEdge| edge.target),
            weight_parts == number_parts(edges@, |edge: DecodedEdge| edge_weight(edge)),
            identity_parts == number_parts(edges@, |edge: DecodedEdge| edge.relationship_id),
            targets@ == joined(target_parts.take(at as int)),
            types@ =~= Seq::new(at as nat, |i: int| edges@[i].type_id),
            reversed@ =~= Seq::new(at as nat, |i: int| edges@[i].schema_reversed),
            weights@ == (if has_weights {
                joined(weight_parts.take(at as int))
            } else {
                Seq::empty()
            }),
            identities@ == joined(identity_parts.take(at as int)),
        decreases edges@.len() - at,
    {
        let edge: DecodedEdge = edges[at];
        proof {
            lemma_joined_step(target_parts, at as int);
            lemma_joined_step(weight_parts, at as int);
            lemma_joined_step(identity_parts, at as int);
        }
        push_le(&mut targets, edge.target as u128, 4);
        types.push(edge.type_id);
        reversed.push(edge.schema_reversed);
        if has_weights {
            let weight: u32 = if edge.weight == 0 {
                1
            } else {
                edge.weight
            };
            push_le(&mut weights, weight as u128, 4);
        }
        push_le(&mut identities, edge.relationship_id as u128, 4);
        at = at + 1;
    }
    proof {
        assert(target_parts.take(at as int) =~= target_parts);
        assert(weight_parts.take(at as int) =~= weight_parts);
        assert(identity_parts.take(at as int) =~= identity_parts);
    }
    CsrSections { offsets, targets, types, reversed, weights, identities }
}

} // verus!
