//! What the resumable path searches share: pages of candidates that a caller
//! decides the visibility of, and the protocol of asking and answering.
use roaring::RoaringBitmap;
use std::collections::VecDeque;
use vstd::prelude::*;
use vstd::string::StringExecFns;
use vstd::utf8::encode_utf8;

use crate::bitmap::bitmap_contents;
use crate::errors::{internal, invalid_filter, ErrorView, GraphError, GraphResult};
use crate::neighbors::{
    least, page_of, Neighbor, NeighborSource, OwnedNeighborCursor, WeightedNeighbor,
};
use crate::node_store::{NodeStore, NodeView};
use crate::resource::{
    charged, limit_error, GovernorView, ResourceGovernor, ResourceKind, ResourcePhase,
};
use crate::rooms::{adds, lemma_adds, push_list, push_text, text_need, Need, Room};
use crate::text::{decimal, decimal_text};
use crate::types::EdgeTypeId;

verus! {

/// Most candidates that a page may hold.
pub const RESUMABLE_BFS_PAGE_CAPACITY: usize = 256;

/// Bytes that are reserved for each node that a search discovers.
pub const PATH_STATE_BYTES_PER_VISIT: u64 = 512;

/// Limits of a page of candidates.
#[derive(Debug, Clone, Copy, PartialEq, Eq, Structural)]
pub struct BfsCandidateLimits {
    pub max_candidates: usize,
    pub max_key_bytes: usize,
}

/// The state of the projection that a search was started on.
#[derive(Debug, Clone, Copy, PartialEq, Eq, Structural)]
pub struct BfsProjectionEpoch {
    pub generation_id: Option<u64>,
    pub applied_sync_id: i64,
    pub node_count: u32,
    pub edge_count: u32,
    pub relationship_identity_count: usize,
    pub edge_buffer_len: usize,
    pub edge_buffer_revision: u64,
    pub tx_topology_revision: u64,
    pub tx_added_nodes: usize,
    pub tx_added_edges: usize,
    pub tx_deleted_nodes: usize,
    pub tx_deleted_edges: usize,
}

/// Fails unless the projection is the one that was bound.
pub fn require_path_epoch(expected: Option<BfsProjectionEpoch>, actual: BfsProjectionEpoch) -> (result:
    GraphResult<()>)
    ensures
        result is Ok <==> expected == Some(actual),
        result matches Err(error) ==> error@ == ErrorView::Internal(
            "projection changed while path visibility was being resolved; retry the graph query"@,
        ),
{
    if let Some(epoch) = expected {
        if epoch == actual {
            return Ok(());
        }
    }
    Err(
        internal(
            "projection changed while path visibility was being resolved; retry the graph query",
        ),
    )
}

/// The source row of a relationship.
#[derive(Debug)]
pub struct RelationshipIdentity {
    pub mapping_id: u64,
    pub source_key: String,
}

/// The source rows of relationships: those of the projection by number, then
/// those that the running transaction has added.
#[derive(Debug)]
pub struct RelationshipIdentities {
    pub stored: Vec<Option<RelationshipIdentity>>,
    pub pending: Vec<RelationshipIdentity>,
}

impl RelationshipIdentities {
    /// The identity of a relationship.
    pub open spec fn identity(&self, id: u32) -> Option<(u64, Seq<char>)> {
        if id < self.stored@.len() && self.stored@[id as int] is Some {
            let found = self.stored@[id as int]->Some_0;
            Some((found.mapping_id, found.source_key@))
        } else if id >= self.stored@.len() && id - self.stored@.len() < self.pending@.len() {
            let found = self.pending@[id - self.stored@.len()];
            Some((found.mapping_id, found.source_key@))
        } else {
            None
        }
    }

    /// What the first stored identities' keys take.
    pub open spec fn key_needs(&self, count: nat) -> Seq<Need>
        decreases count,
    {
        if count == 0 {
            Seq::empty()
        } else {
            let rest = self.key_needs((count - 1) as nat);
            match self.stored@[count - 1] {
                Some(identity) => rest + seq![text_need(identity.source_key@)],
                None => rest,
            }
        }
    }

    /// What the identities have to hold: a list of the stored ones, one of the
    /// pending ones, and the stored ones' keys.
    pub open spec fn needs(&self) -> Seq<Need> {
        seq![
            Need::Items {
                count: self.stored@.len(),
                unit: vstd::layout::size_of::<Option<RelationshipIdentity>>(),
            },
            Need::Items {
                count: self.pending@.len(),
                unit: vstd::layout::size_of::<RelationshipIdentity>(),
            },
        ] + self.key_needs(self.stored@.len())
    }

    /// Adds what the identities have allocated.
    pub fn push_rooms(&self, rooms: &mut Vec<Room>)
        ensures
            adds(old(rooms)@, final(rooms)@, self.needs()),
    {
        let ghost start = rooms@;
        let ghost first = seq![
            Need::Items {
                count: self.stored@.len(),
                unit: vstd::layout::size_of::<Option<RelationshipIdentity>>(),
            },
        ];
        let ghost second = seq![
            Need::Items {
                count: self.pending@.len(),
                unit: vstd::layout::size_of::<RelationshipIdentity>(),
            },
        ];
        let ghost head = first + second;
        push_list(rooms, &self.stored);
        let ghost middle = rooms@;
        push_list(rooms, &self.pending);
        proof {
            lemma_adds(start, middle, rooms@, first, second);
            assert(head + self.key_needs(0) =~= head);
        }
        let mut at: usize = 0;
        while at < self.stored.len()
            invariant
                at <= self.stored@.len(),
                adds(start, rooms@, head + self.key_needs(at as nat)),
            decreases self.stored@.len() - at,
        {
            let ghost before = rooms@;
            let ghost taken = head + self.key_needs(at as nat);
            if let Some(identity) = &self.stored[at] {
                push_text(rooms, &identity.source_key);
                proof {
                    let own = seq![text_need(identity.source_key@)];
                    lemma_adds(start, before, rooms@, taken, own);
                    assert(head + self.key_needs((at + 1) as nat) =~= taken + own);
                }
            }
            at = at + 1;
        }
        assert(head + self.key_needs(at as nat) =~= self.needs());
    }

    /// No identities.
    pub fn empty() -> (identities: Self)
        ensures
            forall|id: u32| #[trigger] identities.identity(id) is None,
    {
        RelationshipIdentities { stored: Vec::new(), pending: Vec::new() }
    }

    /// Reads the identity of a relationship.
    pub fn path_relationship_identity(&self, id: u32) -> (found: Option<&RelationshipIdentity>)
        ensures
            match found {
                Some(found) => self.identity(id) == Some((found.mapping_id, found.source_key@)),
                None => self.identity(id) is None,
            },
    {
        let count: usize = self.stored.len();
        if (id as usize) < count {
            return match &self.stored[id as usize] {
                Some(found) => Some(found),
                None => None,
            };
        }
        let offset: usize = id as usize - count;
        if offset < self.pending.len() {
            Some(&self.pending[offset])
        } else {
            None
        }
    }
}

/// An edge, or an endpoint, whose visibility is asked for.
#[derive(Debug)]
pub struct BfsAdjacencyCandidate {
    pub sequence: u32,
    pub parent_node: u32,
    pub parent_depth: i32,
    pub target_node: u32,
    pub target_table_oid: u32,
    pub target_source_key: String,
    pub edge_type: EdgeTypeId,
    pub schema_reversed: bool,
    pub relationship_id: Option<u32>,
    pub relationship_mapping_id: Option<u64>,
    pub relationship_source_key: Option<String>,
}

/// A page of candidates.
#[derive(Debug)]
pub struct BfsAdjacencyCandidateBatch {
    pub candidates: Vec<BfsAdjacencyCandidate>,
    /// Whether the page ends the list that it is taken from.
    pub exhausted_current: bool,
}

/// The answer to a candidate.
#[derive(Debug, Clone, Copy, PartialEq, Eq, Structural)]
pub struct BfsAdjacencyVerdict {
    pub sequence: u32,
    pub node_visible: bool,
    pub relationship_visible: bool,
}

impl BfsAdjacencyVerdict {
    /// Whether the edge may be followed.
    pub open spec fn shown(&self) -> bool {
        self.node_visible && self.relationship_visible
    }

    /// Whether the edge may be followed.
    pub fn visible(&self) -> (visible: bool)
        ensures
            visible == self.shown(),
    {
        self.node_visible && self.relationship_visible
    }
}

impl BfsAdjacencyCandidate {
    /// The edge that a candidate stands for.
    pub open spec fn edge(&self) -> Neighbor {
        Neighbor {
            target: self.target_node,
            type_id: self.edge_type,
            schema_reversed: self.schema_reversed,
            relationship_id: self.relationship_id,
        }
    }

    /// The edge that a candidate stands for.
    pub fn to_edge(&self) -> (edge: Neighbor)
        ensures
            edge == self.edge(),
    {
        Neighbor {
            target: self.target_node,
            type_id: self.edge_type,
            schema_reversed: self.schema_reversed,
            relationship_id: self.relationship_id,
        }
    }

    /// Bytes of the candidate's keys.
    pub open spec fn key_bytes(&self) -> nat {
        encode_utf8(self.target_source_key@).len() + match self.relationship_source_key {
            Some(key) => encode_utf8(key@).len(),
            None => 0,
        }
    }
}

/// Bytes of the keys of the first candidates.
pub open spec fn page_key_bytes(candidates: Seq<BfsAdjacencyCandidate>) -> nat
    decreases candidates.len(),
{
    if candidates.len() == 0 {
        0
    } else {
        page_key_bytes(candidates.drop_last()) + candidates.last().key_bytes()
    }
}

/// Whether a page stays within its limits.
pub open spec fn page_fits(
    candidates: Seq<BfsAdjacencyCandidate>,
    limits: BfsCandidateLimits,
) -> bool {
    &&& candidates.len() <= limits.max_candidates
    &&& page_key_bytes(candidates) <= limits.max_key_bytes
}

/// The edges that candidates stand for.
pub open spec fn candidate_edges(candidates: Seq<BfsAdjacencyCandidate>) -> Seq<Neighbor> {
    Seq::new(candidates.len(), |i: int| candidates[i].edge())
}

/// The edges that a page asked for, and the node and depth that they start at.
#[derive(Debug)]
pub struct AskedEdges {
    pub parent: u32,
    pub depth: i32,
    pub edges: Vec<Neighbor>,
}

impl AskedEdges {
    /// Whether a page asks for these.
    pub open spec fn in_page(&self, batch: BfsAdjacencyCandidateBatch) -> bool {
        &&& candidate_edges(batch.candidates@) == self.edges@
        &&& forall|i: int|
            0 <= i < batch.candidates@.len() ==> (#[trigger] batch.candidates@[i]).parent_node
                == self.parent && batch.candidates@[i].parent_depth == self.depth
    }

    /// No edges.
    pub fn none() -> (asked: Self)
        ensures
            asked.edges@.len() == 0,
    {
        AskedEdges { parent: 0, depth: 0, edges: Vec::new() }
    }

    /// The edges of candidates.
    pub fn of(candidates: &Vec<BfsAdjacencyCandidate>, parent: u32, depth: i32) -> (asked: Self)
        ensures
            asked.parent == parent,
            asked.depth == depth,
            asked.edges@ == candidate_edges(candidates@),
    {
        let mut edges: Vec<Neighbor> = Vec::new();
        let mut at: usize = 0;
        while at < candidates.len()
            invariant
                at <= candidates@.len(),
                edges@ =~= candidate_edges(candidates@).take(at as int),
            decreases candidates@.len() - at,
        {
            edges.push(candidates[at].to_edge());
            at = at + 1;
        }
        assert(edges@ =~= candidate_edges(candidates@));
        AskedEdges { parent, depth, edges }
    }

    /// Whether a page asks for these.
    pub fn is_in_page(&self, batch: &BfsAdjacencyCandidateBatch) -> (same: bool)
        ensures
            same == self.in_page(*batch),
    {
        let ghost edges = candidate_edges(batch.candidates@);
        if batch.candidates.len() != self.edges.len() {
            assert(edges.len() != self.edges@.len());
            return false;
        }
        let mut at: usize = 0;
        while at < batch.candidates.len()
            invariant
                at <= batch.candidates@.len() == self.edges@.len(),
                edges == candidate_edges(batch.candidates@),
                forall|i: int| 0 <= i < at ==> #[trigger] edges[i] == self.edges@[i],
                forall|i: int|
                    0 <= i < at ==> (#[trigger] batch.candidates@[i]).parent_node == self.parent
                        && batch.candidates@[i].parent_depth == self.depth,
            decreases batch.candidates@.len() - at,
        {
            let candidate: &BfsAdjacencyCandidate = &batch.candidates[at];
            if candidate.parent_node != self.parent || candidate.parent_depth != self.depth
                || candidate.to_edge() != self.edges[at] {
                assert(edges[at as int] == candidate.edge());
                return false;
            }
            at = at + 1;
        }
        assert(edges =~= self.edges@);
        true
    }
}

/// Whether a candidate is that of an edge.
pub open spec fn candidate_for(
    candidate: BfsAdjacencyCandidate,
    parent: u32,
    depth: i32,
    edge: Neighbor,
    nodes: Seq<NodeView>,
    relationships: RelationshipIdentities,
) -> bool {
    &&& candidate.edge() == edge
    &&& candidate.parent_node == parent
    &&& candidate.parent_depth == depth
    &&& edge.target < nodes.len()
    &&& candidate.target_table_oid == nodes[edge.target as int].table_oid
    &&& candidate.target_source_key@ == nodes[edge.target as int].key
    &&& match edge_identity(edge, relationships) {
        Some((mapping, key)) => candidate.relationship_mapping_id == Some(mapping)
            && candidate.relationship_source_key is Some
            && candidate.relationship_source_key->Some_0@ == key,
        None => candidate.relationship_mapping_id is None
            && candidate.relationship_source_key is None,
    }
}

/// The identity of an edge's relationship.
pub open spec fn edge_identity(edge: Neighbor, relationships: RelationshipIdentities) -> Option<
    (u64, Seq<char>),
> {
    match edge.relationship_id {
        Some(id) => relationships.identity(id),
        None => None,
    }
}

/// Bytes of the keys that an edge's candidate holds.
pub open spec fn edge_key_bytes(
    edge: Neighbor,
    nodes: Seq<NodeView>,
    relationships: RelationshipIdentities,
) -> nat {
    encode_utf8(nodes[edge.target as int].key).len() + match edge_identity(edge, relationships) {
        Some((_, key)) => encode_utf8(key).len(),
        None => 0,
    }
}

/// What is proposed when a page is asked for.
#[derive(Debug)]
pub enum ResumablePathMaterialization {
    Batch(BfsAdjacencyCandidateBatch),
    Progress,
    Complete,
}

/// What a search waits for.
#[derive(Debug, Clone, Copy, PartialEq, Eq, Structural)]
pub enum ResumablePathState {
    NeedEndpoints,
    NeedCandidates,
    NeedVisibility,
    Complete,
}

/// What the candidates of a page are.
#[derive(Debug, Clone, Copy, PartialEq, Eq, Structural)]
pub enum PendingPathBatch {
    Endpoints,
    Adjacency,
}

/// Whether limits are positive and bounded.
pub open spec fn limits_valid(limits: BfsCandidateLimits) -> bool {
    &&& 0 < limits.max_candidates <= 256
    &&& limits.max_key_bytes > 0
}

/// Fails unless a page may be asked for now, with these limits.
pub fn validate_path_materialization(state: ResumablePathState, limits: BfsCandidateLimits) -> (result:
    GraphResult<()>)
    ensures
        match result {
            Ok(_) => (state is NeedEndpoints || state is NeedCandidates) && limits_valid(limits),
            Err(error) => if state is NeedEndpoints || state is NeedCandidates {
                !limits_valid(limits) && error@ == ErrorView::InvalidFilter(
                    "path visibility candidate limits must be positive and bounded"@,
                )
            } else {
                error@ == ErrorView::Internal(
                    "path candidate materialization requires a candidate state"@,
                )
            },
        },
{
    if state != ResumablePathState::NeedEndpoints && state != ResumablePathState::NeedCandidates {
        return Err(internal("path candidate materialization requires a candidate state"));
    }
    if limits.max_candidates == 0 || limits.max_candidates > RESUMABLE_BFS_PAGE_CAPACITY
        || limits.max_key_bytes == 0 {
        return Err(
            invalid_filter("path visibility candidate limits must be positive and bounded"),
        );
    }
    Ok(())
}

/// The number after a sequence number.
pub fn next_path_sequence(sequence: u32) -> (result: GraphResult<u32>)
    ensures
        match result {
            Ok(next) => next == sequence + 1,
            Err(error) => sequence == u32::MAX && error@ == ErrorView::Internal(
                "path visibility sequence overflow"@,
            ),
        },
{
    match sequence.checked_add(1) {
        Some(next) => Ok(next),
        None => Err(internal("path visibility sequence overflow")),
    }
}

/// Charges one unit of path work.
pub fn consume_path_work_without_interrupt(governor: &mut ResourceGovernor) -> (result: GraphResult<
    (),
>)
    ensures
        charged(old(governor)@, final(governor)@, 1),
        result is Ok <==> old(governor)@.admits_work(1),
        result is Ok ==> final(governor)@ == old(governor)@.after_work(1),
        result matches Err(error) ==> error@ == limit_error(
            ResourcePhase::QueryPaths,
            ResourceKind::Work,
        ) && final(governor)@ == old(governor)@,
{
    governor.consume_work(ResourcePhase::QueryPaths, 1)
}

/// Bytes that a page reserves while it is made.
pub open spec fn page_workspace(limits: BfsCandidateLimits) -> nat {
    let count = limits.max_candidates as nat;
    count * vstd::layout::size_of::<BfsAdjacencyCandidate>() + count * vstd::layout::size_of::<
        Neighbor,
    >() + count * vstd::layout::size_of::<WeightedNeighbor>() + limits.max_key_bytes as nat
}

/// Bytes that a page reserves while it is made, if they can be counted.
pub fn page_workspace_bytes(limits: BfsCandidateLimits) -> (bytes: Option<u64>)
    requires
        limits_valid(limits),
    ensures
        match bytes {
            Some(bytes) => bytes == page_workspace(limits),
            None => page_workspace(limits) > u64::MAX,
        },
{
    let count: usize = limits.max_candidates;
    let first: usize = core::mem::size_of::<BfsAdjacencyCandidate>();
    let second: usize = core::mem::size_of::<Neighbor>();
    let third: usize = core::mem::size_of::<WeightedNeighbor>();
    proof {
        assert(count * first <= 256 * 0xffff_ffff_ffff_ffff) by (nonlinear_arith)
            requires
                0 <= count <= 256,
                0 <= first <= 0xffff_ffff_ffff_ffff,
        ;
        assert(count * second <= 256 * 0xffff_ffff_ffff_ffff) by (nonlinear_arith)
            requires
                0 <= count <= 256,
                0 <= second <= 0xffff_ffff_ffff_ffff,
        ;
        assert(count * third <= 256 * 0xffff_ffff_ffff_ffff) by (nonlinear_arith)
            requires
                0 <= count <= 256,
                0 <= third <= 0xffff_ffff_ffff_ffff,
        ;
    }
    let total: u128 = count as u128 * first as u128 + count as u128 * second as u128 + count
        as u128 * third as u128 + limits.max_key_bytes as u128;
    if total > u64::MAX as u128 {
        return None;
    }
    Some(total as u64)
}

/// Reserves what a page takes while it is made. Returns the reserved bytes.
pub fn reserve_path_page_workspace(
    governor: &mut ResourceGovernor,
    limits: BfsCandidateLimits,
) -> (result: GraphResult<u64>)
    requires
        limits_valid(limits),
    ensures
        result is Ok <==> page_workspace(limits) <= u64::MAX && old(governor)@.admits_memory(
            page_workspace(limits) as int,
        ),
        result matches Ok(bytes) ==> bytes == page_workspace(limits) && final(governor)@ == old(
            governor,
        )@.after_memory(bytes as int) && old(governor)@.memory_used >= 0,
        result matches Err(error) ==> final(governor)@ == old(governor)@ && error@ == if
            page_workspace(limits) > u64::MAX {
            ErrorView::InvalidFilter("path visibility candidate allocation estimate overflow"@)
        } else {
            limit_error(ResourcePhase::QueryVisibility, ResourceKind::Memory)
        },
{
    let bytes: u64 = match page_workspace_bytes(limits) {
        Some(bytes) => bytes,
        None => return Err(
            invalid_filter("path visibility candidate allocation estimate overflow"),
        ),
    };
    match governor.reserve_memory(ResourcePhase::QueryVisibility, bytes) {
        Ok(_) => Ok(bytes),
        Err(error) => Err(error),
    }
}

/// Whether an edge type passes a filter.
pub open spec fn filter_passes(filter: Option<&RoaringBitmap>, type_id: EdgeTypeId) -> bool {
    match filter {
        Some(filter) => bitmap_contents(*filter).contains(type_id.0),
        None => true,
    }
}

/// Whether an edge type passes a filter.
pub fn passes_filter(filter: Option<&RoaringBitmap>, type_id: EdgeTypeId) -> (passes: bool)
    ensures
        passes == filter_passes(filter, type_id),
{
    match filter {
        Some(filter) => filter.contains(type_id.get()),
        None => true,
    }
}

/// Whether edges pass a filter, each of them.
pub open spec fn all_pass(edges: Seq<Neighbor>, filter: Option<&RoaringBitmap>) -> bool {
    forall|i: int|
        0 <= i < edges.len() ==> filter_passes(filter, (#[trigger] edges[i]).type_id)
}

/// The edges that pass a filter.
pub open spec fn passing(edges: Seq<Neighbor>, filter: Option<&RoaringBitmap>) -> Seq<Neighbor>
    decreases edges.len(),
{
    if edges.len() == 0 {
        Seq::empty()
    } else {
        let rest = passing(edges.drop_last(), filter);
        if filter_passes(filter, edges.last().type_id) {
            rest.push(edges.last())
        } else {
            rest
        }
    }
}

/// Bytes of the keys that edges' candidates hold.
pub open spec fn edges_key_bytes(
    edges: Seq<Neighbor>,
    nodes: Seq<NodeView>,
    relationships: RelationshipIdentities,
) -> nat
    decreases edges.len(),
{
    if edges.len() == 0 {
        0
    } else {
        edges_key_bytes(edges.drop_last(), nodes, relationships) + edge_key_bytes(
            edges.last(),
            nodes,
            relationships,
        )
    }
}

/// Whether a page ends with an edge: it passes the filter and leads to `stop`.
pub open spec fn ends_page(
    edge: Neighbor,
    filter: Option<&RoaringBitmap>,
    stop: Option<u32>,
) -> bool {
    filter_passes(filter, edge.type_id) && stop == Some(edge.target)
}

/// Whether the last of the first `count` edges ends a page.
pub open spec fn stopped_after(
    edges: Seq<Neighbor>,
    count: int,
    filter: Option<&RoaringBitmap>,
    stop: Option<u32>,
) -> bool {
    count > 0 && ends_page(edges[count - 1], filter, stop)
}

/// How many of the edges that were read ahead a page looks at, after keys of
/// this many bytes: up to one that ends it, or until one that passes the filter
/// does not fit or leads nowhere.
pub open spec fn page_work(
    ahead: Seq<Neighbor>,
    bytes: nat,
    filter: Option<&RoaringBitmap>,
    stop: Option<u32>,
    limits: BfsCandidateLimits,
    nodes: Seq<NodeView>,
    relationships: RelationshipIdentities,
) -> nat
    decreases ahead.len(),
{
    let edge = ahead[0];
    let more = bytes + edge_key_bytes(edge, nodes, relationships);
    let rest = ahead.drop_first();
    if ahead.len() == 0 {
        0
    } else if !filter_passes(filter, edge.type_id) {
        1 + page_work(rest, bytes, filter, stop, limits, nodes, relationships)
    } else if edge.target >= nodes.len() || more > limits.max_key_bytes {
        0
    } else if stop == Some(edge.target) {
        1
    } else {
        1 + page_work(rest, more, filter, stop, limits, nodes, relationships)
    }
}

/// Looking at one more edge.
pub proof fn lemma_page_work_next(
    ahead: Seq<Neighbor>,
    at: int,
    bytes: nat,
    filter: Option<&RoaringBitmap>,
    stop: Option<u32>,
    limits: BfsCandidateLimits,
    nodes: Seq<NodeView>,
    relationships: RelationshipIdentities,
)
    requires
        0 <= at < ahead.len(),
    ensures
        ({
            let edge = ahead[at];
            let more = bytes + edge_key_bytes(edge, nodes, relationships);
            let rest = ahead.skip(at + 1);
            page_work(ahead.skip(at), bytes, filter, stop, limits, nodes, relationships) == if
                !filter_passes(filter, edge.type_id) {
                1 + page_work(rest, bytes, filter, stop, limits, nodes, relationships)
            } else if edge.target >= nodes.len() || more > limits.max_key_bytes {
                0
            } else if stop == Some(edge.target) {
                1
            } else {
                1 + page_work(rest, more, filter, stop, limits, nodes, relationships)
            }
        }),
{
    assert(ahead.skip(at)[0] == ahead[at]);
    assert(ahead.skip(at).drop_first() =~= ahead.skip(at + 1));
}

/// A page looks at no more edges than there are.
pub proof fn lemma_page_work_fits(
    ahead: Seq<Neighbor>,
    bytes: nat,
    filter: Option<&RoaringBitmap>,
    stop: Option<u32>,
    limits: BfsCandidateLimits,
    nodes: Seq<NodeView>,
    relationships: RelationshipIdentities,
)
    ensures
        page_work(ahead, bytes, filter, stop, limits, nodes, relationships) <= ahead.len(),
    decreases ahead.len(),
{
    if ahead.len() > 0 {
        let more = bytes + edge_key_bytes(ahead[0], nodes, relationships);
        lemma_page_work_fits(
            ahead.drop_first(),
            bytes,
            filter,
            stop,
            limits,
            nodes,
            relationships,
        );
        lemma_page_work_fits(
            ahead.drop_first(),
            more,
            filter,
            stop,
            limits,
            nodes,
            relationships,
        );
    }
}

/// The edges that pass a filter do pass it.
pub proof fn lemma_passing_passes(edges: Seq<Neighbor>, filter: Option<&RoaringBitmap>)
    ensures
        all_pass(passing(edges, filter), filter),
    decreases edges.len(),
{
    if edges.len() > 0 {
        lemma_passing_passes(edges.drop_last(), filter);
    }
}

/// More edges have no fewer that pass.
pub proof fn lemma_passing_grows(
    edges: Seq<Neighbor>,
    filter: Option<&RoaringBitmap>,
    small: int,
    large: int,
)
    requires
        0 <= small <= large <= edges.len(),
    ensures
        passing(edges.take(small), filter).len() <= passing(edges.take(large), filter).len(),
    decreases large - small,
{
    if small < large {
        lemma_passing_grows(edges, filter, small, large - 1);
        assert(edges.take(large).drop_last() =~= edges.take(large - 1));
    }
}

/// Whether a page takes the first `count` of the edges that were read ahead.
/// Those that pass the filter fit, and none before the last ends the page.
/// Unless the last one does, either no edge is left or the next one, which
/// passes, does not fit any more.
pub open spec fn page_takes(
    ahead: Seq<Neighbor>,
    count: int,
    filter: Option<&RoaringBitmap>,
    stop: Option<u32>,
    limits: BfsCandidateLimits,
    nodes: Seq<NodeView>,
    relationships: RelationshipIdentities,
) -> bool {
    let bytes = edges_key_bytes(passing(ahead.take(count), filter), nodes, relationships);
    &&& 0 <= count <= ahead.len()
    &&& count == page_work(ahead, 0, filter, stop, limits, nodes, relationships)
    &&& bytes <= limits.max_key_bytes
    &&& forall|i: int| 0 <= i < count - 1 ==> !ends_page(#[trigger] ahead[i], filter, stop)
    &&& count < ahead.len() && !stopped_after(ahead, count, filter, stop) ==> filter_passes(
        filter,
        ahead[count].type_id,
    ) && bytes + edge_key_bytes(ahead[count], nodes, relationships) > limits.max_key_bytes
}

/// Whether a page asks for a node's edges.
pub open spec fn page_asks(
    batch: BfsAdjacencyCandidateBatch,
    edges: Seq<Neighbor>,
    exhausted: bool,
    sequence: u32,
    parent: u32,
    depth: int,
    nodes: Seq<NodeView>,
    relationships: RelationshipIdentities,
) -> bool {
    &&& candidate_edges(batch.candidates@) == edges
    &&& batch.exhausted_current == exhausted
    &&& candidates_from(
        batch.candidates@,
        sequence as int,
        parent,
        depth as i32,
        nodes,
        relationships,
    )
}

/// The error for a node that the store does not know.
pub open spec fn missing_identity(node: u32) -> ErrorView {
    ErrorView::CorruptFile("node "@ + decimal(node as nat) + " has no source identity"@)
}

/// The error for a candidate whose keys are larger than a whole page.
pub open spec fn oversized_candidate() -> ErrorView {
    ErrorView::InvalidFilter("one path visibility candidate exceeds the key-byte limit"@)
}

/// Whether one more candidate stays within the page's key bytes. The first
/// candidate of a page must.
pub fn path_candidate_fits(
    candidates: &Vec<BfsAdjacencyCandidate>,
    key_bytes: &mut usize,
    neighbor: Neighbor,
    limits: BfsCandidateLimits,
    node_store: &NodeStore,
    relationships: &RelationshipIdentities,
) -> (result: GraphResult<bool>)
    requires
        node_store.wf(),
        *old(key_bytes) <= limits.max_key_bytes,
    ensures
        ({
            let next = *old(key_bytes) + edge_key_bytes(
                neighbor,
                node_store.nodes(),
                *relationships,
            );
            if neighbor.target >= node_store.nodes().len() {
                &&& result is Err
                &&& result->Err_0@ == missing_identity(neighbor.target)
            } else if next <= limits.max_key_bytes {
                &&& result == Ok::<bool, GraphError>(true)
                &&& *final(key_bytes) == next
            } else {
                &&& *final(key_bytes) == *old(key_bytes)
                &&& candidates@.len() == 0 ==> result is Err && result->Err_0@ is InvalidFilter
                &&& candidates@.len() == 0 && next <= usize::MAX ==> result->Err_0@
                    == oversized_candidate()
                &&& candidates@.len() > 0 ==> (result == Ok::<bool, GraphError>(false) || (next
                    > usize::MAX && result is Err && result->Err_0@ == ErrorView::InvalidFilter(
                    "path visibility candidate key bytes overflow"@,
                )))
            }
        }),
{
    let key: &str = match node_store.primary_key(neighbor.target) {
        Some(key) => key,
        None => return Err(
            GraphError::CorruptFile {
                reason: "node ".to_owned().concat(
                    decimal_text(neighbor.target as u64).as_str(),
                ).concat(" has no source identity"),
            },
        ),
    };
    let relationship_bytes: usize = match neighbor.relationship_id {
        Some(id) => match relationships.path_relationship_identity(id) {
            Some(identity) => identity.source_key.as_str().as_bytes().len(),
            None => 0,
        },
        None => 0,
    };
    let own: usize = key.as_bytes().len();
    let candidate_bytes: usize = match own.checked_add(relationship_bytes) {
        Some(bytes) => bytes,
        None => return Err(invalid_filter("path visibility candidate key bytes overflow")),
    };
    let next: usize = match key_bytes.checked_add(candidate_bytes) {
        Some(bytes) => bytes,
        None => return Err(invalid_filter("path visibility candidate key bytes overflow")),
    };
    if next > limits.max_key_bytes {
        if candidates.len() == 0 {
            return Err(
                invalid_filter("one path visibility candidate exceeds the key-byte limit"),
            );
        }
        return Ok(false);
    }
    *key_bytes = next;
    Ok(true)
}

/// Makes the candidate of an edge.
pub fn path_candidate(
    sequence: u32,
    current: u32,
    current_depth: i32,
    neighbor: Neighbor,
    node_store: &NodeStore,
    relationships: &RelationshipIdentities,
) -> (result: GraphResult<BfsAdjacencyCandidate>)
    requires
        node_store.wf(),
    ensures
        match result {
            Ok(candidate) => candidate.sequence == sequence && candidate_for(
                candidate,
                current,
                current_depth,
                neighbor,
                node_store.nodes(),
                *relationships,
            ),
            Err(error) => neighbor.target >= node_store.nodes().len() && error@
                == ErrorView::CorruptFile(
                "node "@ + decimal(neighbor.target as nat) + " has no table identity"@,
            ),
        },
{
    let target_table_oid: u32 = match node_store.table_oid(neighbor.target) {
        Some(oid) => oid,
        None => return Err(
            GraphError::CorruptFile {
                reason: "node ".to_owned().concat(
                    decimal_text(neighbor.target as u64).as_str(),
                ).concat(" has no table identity"),
            },
        ),
    };
    let target_source_key: &str = match node_store.primary_key(neighbor.target) {
        Some(key) => key,
        None => return Err(
            GraphError::CorruptFile {
                reason: "node ".to_owned().concat(
                    decimal_text(neighbor.target as u64).as_str(),
                ).concat(" has no source identity"),
            },
        ),
    };
    let mut relationship_mapping_id: Option<u64> = None;
    let mut relationship_source_key: Option<String> = None;
    if let Some(id) = neighbor.relationship_id {
        if let Some(identity) = relationships.path_relationship_identity(id) {
            relationship_mapping_id = Some(identity.mapping_id);
            relationship_source_key = Some(identity.source_key.as_str().to_owned());
        }
    }
    Ok(
        BfsAdjacencyCandidate {
            sequence,
            parent_node: current,
            parent_depth: current_depth,
            target_node: neighbor.target,
            target_table_oid,
            target_source_key: target_source_key.to_owned(),
            edge_type: neighbor.type_id,
            schema_reversed: neighbor.schema_reversed,
            relationship_id: neighbor.relationship_id,
            relationship_mapping_id,
            relationship_source_key,
        },
    )
}

/// Where a search stands in a node's edges, and the edges that were read ahead.
#[derive(Debug)]
pub struct RowPager {
    pub cursor: OwnedNeighborCursor,
    pub pending: VecDeque<Neighbor>,
    pub exhausts_node: bool,
}

impl RowPager {
    /// How many of the node's edges have been handed out.
    pub open spec fn taken(&self) -> int {
        self.cursor.position - self.pending@.len()
    }

    /// Whether the pager stands in this row.
    pub open spec fn in_row(&self, row: Seq<Neighbor>) -> bool {
        &&& 0 <= self.taken()
        &&& self.cursor.position <= row.len()
        &&& self.pending@ == row.subrange(self.taken(), self.cursor.position as int)
        &&& self.exhausts_node ==> self.cursor.position == row.len()
        &&& self.pending@.len() > 0 && self.cursor.position == row.len() ==> self.exhausts_node
    }

    /// Up to where a row of this length is read ahead.
    pub open spec fn ahead(&self, length: int, limit: int) -> int {
        if self.pending@.len() > 0 {
            self.cursor.position as int
        } else {
            least(self.cursor.position + limit, length)
        }
    }

    /// Before the first edge.
    pub fn start() -> (pager: Self)
        ensures
            pager.taken() == 0,
            forall|row: Seq<Neighbor>| #[trigger] pager.in_row(row),
            !pager.exhausts_node,
            pager.pending@.len() == 0,
    {
        let pager = RowPager {
            cursor: OwnedNeighborCursor::start(),
            pending: VecDeque::new(),
            exhausts_node: false,
        };
        assert forall|row: Seq<Neighbor>| #[trigger] pager.in_row(row) by {
            assert(pager.pending@ =~= row.subrange(0, 0));
        }
        pager
    }

    /// Reads ahead if nothing is left of what was read before.
    pub fn fill_path_raw_page<N: NeighborSource>(
        &mut self,
        current: u32,
        neighbors: &N,
        limit: usize,
    )
        requires
            old(self).in_row(neighbors.adjacency(current)),
            limit > 0,
        ensures
            final(self).in_row(neighbors.adjacency(current)),
            final(self).taken() == old(self).taken(),
            final(self).cursor.position == old(self).ahead(
                neighbors.adjacency(current).len() as int,
                limit as int,
            ),
            final(self).exhausts_node == (final(self).cursor.position == neighbors.adjacency(
                current,
            ).len()),
            final(self).pending@.len() == 0 ==> final(self).taken() == neighbors.adjacency(
                current,
            ).len(),
            old(self).pending@.len() <= limit ==> final(self).pending@.len() <= limit,
    {
        if self.pending.len() == 0 {
            let ghost row = neighbors.adjacency(current);
            let ghost before = self.taken();
            let mut page: Vec<Neighbor> = Vec::new();
            self.exhausts_node = neighbors.fill_neighbors(
                current,
                &mut self.cursor,
                limit,
                &mut page,
            );
            let mut at: usize = 0;
            proof {
                assert(page@ =~= page_of(row, before, limit as int));
                assert(self.pending@ =~= page@.take(0));
            }
            while at < page.len()
                invariant
                    at <= page@.len(),
                    self.pending@ == page@.take(at as int),
                    self.cursor.position == least(before + limit, row.len() as int),
                    self.exhausts_node == (self.cursor.position == row.len()),
                decreases page@.len() - at,
            {
                self.pending.push_back(page[at]);
                proof {
                    assert(self.pending@ =~= page@.take(at + 1));
                }
                at = at + 1;
            }
            assert(page@.take(at as int) =~= page@);
            assert(self.pending@ =~= row.subrange(self.taken(), self.cursor.position as int));
        }
    }
}

/// Whether candidates are those of a node's edges, numbered in order.
pub open spec fn candidates_from(
    candidates: Seq<BfsAdjacencyCandidate>,
    sequence: int,
    parent: u32,
    depth: i32,
    nodes: Seq<NodeView>,
    relationships: RelationshipIdentities,
) -> bool {
    forall|i: int|
        0 <= i < candidates.len() ==> {
            &&& (#[trigger] candidates[i]).sequence == sequence + i
            &&& candidate_for(
                candidates[i],
                parent,
                depth,
                candidates[i].edge(),
                nodes,
                relationships,
            )
        }
}

/// Whether an error is one that making a page can report: of work that the
/// governor does not afford, of numbers that run out, or of the edge that the
/// page ends before, which leads nowhere or has larger keys than any page.
pub open spec fn page_error(
    error: ErrorView,
    limits: BfsCandidateLimits,
    governor: GovernorView,
    sequence: u32,
    ahead: Seq<Neighbor>,
    filter: Option<&RoaringBitmap>,
    stop: Option<u32>,
    nodes: Seq<NodeView>,
    relationships: RelationshipIdentities,
) -> bool {
    let count = page_work(ahead, 0, filter, stop, limits, nodes, relationships) as int;
    let asked = passing(ahead.take(count), filter);
    let bytes = edges_key_bytes(asked, nodes, relationships);
    let next = ahead[count];
    let more = bytes + edge_key_bytes(next, nodes, relationships);
    ||| error == limit_error(ResourcePhase::QueryPaths, ResourceKind::Work) && !governor.affords(
        count,
    )
    ||| error == ErrorView::Internal("path visibility sequence overflow"@) && sequence
        + asked.len() > u32::MAX
    ||| count < ahead.len() && !stopped_after(ahead, count, filter, stop) && {
        ||| next.target >= nodes.len() && error == missing_identity(next.target)
        ||| next.target < nodes.len() && asked.len() == 0 && error is InvalidFilter && (more
            <= usize::MAX ==> error == oversized_candidate())
        ||| next.target < nodes.len() && asked.len() > 0 && more > usize::MAX && error
            == ErrorView::InvalidFilter("path visibility candidate key bytes overflow"@)
    }
}

/// Makes candidates of the edges that were read ahead, as many as fit, up to
/// and with one that leads to `stop`. Edges that a filter keeps out make none.
/// Work is charged per edge.
pub(crate) fn gather_candidates(
    pager: &mut RowPager,
    sequence: &mut u32,
    parent: u32,
    depth: i32,
    stop: Option<u32>,
    filter: Option<&RoaringBitmap>,
    limits: BfsCandidateLimits,
    node_store: &NodeStore,
    relationships: &RelationshipIdentities,
    governor: &mut ResourceGovernor,
    Ghost(row): Ghost<Seq<Neighbor>>,
) -> (result: GraphResult<(Vec<BfsAdjacencyCandidate>, bool)>)
    requires
        old(pager).in_row(row),
        node_store.wf(),
    ensures
        charged(
            old(governor)@,
            final(governor)@,
            page_work(
                row.subrange(old(pager).taken(), old(pager).cursor.position as int),
                0,
                filter,
                stop,
                limits,
                node_store.nodes(),
                *relationships,
            ) as int,
        ),
        result matches Ok((candidates, stopped)) ==> {
            let first = old(pager).taken();
            let next = final(pager).taken();
            &&& final(pager).in_row(row)
            &&& first <= next
            &&& final(pager).exhausts_node == old(pager).exhausts_node
            &&& final(pager).cursor == old(pager).cursor
            &&& candidate_edges(candidates@) == passing(row.subrange(first, next), filter)
            &&& candidates_from(
                candidates@,
                *old(sequence) as int,
                parent,
                depth,
                node_store.nodes(),
                *relationships,
            )
            &&& *final(sequence) == *old(sequence) + candidates@.len()
            &&& page_key_bytes(candidates@) <= limits.max_key_bytes
            &&& candidates@.len() <= next - first
            &&& page_takes(
                row.subrange(first, old(pager).cursor.position as int),
                next - first,
                filter,
                stop,
                limits,
                node_store.nodes(),
                *relationships,
            )
            &&& stopped == (first < next && ends_page(row[next - 1], filter, stop))
            &&& old(governor)@.affords(next - first)
            &&& final(governor)@ == old(governor)@.after_work(next - first)
            &&& candidates@.len() == 0 ==> final(pager).pending@.len() == 0
            &&& old(pager).pending@.len() > 0 ==> first < next
        },
        result matches Err(error) ==> page_error(
            error@,
            limits,
            old(governor)@,
            *old(sequence),
            row.subrange(old(pager).taken(), old(pager).cursor.position as int),
            filter,
            stop,
            node_store.nodes(),
            *relationships,
        ),
{
    let ghost first = pager.taken();
    let ghost ahead = row.subrange(first, pager.cursor.position as int);
    let ghost start = *sequence;
    let ghost nodes = node_store.nodes();
    let ghost work = page_work(ahead, 0, filter, stop, limits, nodes, *relationships) as int;
    let mut candidates: Vec<BfsAdjacencyCandidate> = Vec::new();
    let mut key_bytes: usize = 0;
    proof {
        assert(row.subrange(first, first) =~= Seq::<Neighbor>::empty());
        assert(ahead.skip(0) =~= ahead);
        lemma_page_work_fits(ahead, 0, filter, stop, limits, nodes, *relationships);
        assert(candidate_edges(candidates@) =~= passing(row.subrange(first, first), filter));
    }
    while pager.pending.len() > 0
        invariant
            node_store.wf(),
            0 <= first == old(pager).taken(),
            start == *old(sequence),
            ahead == row.subrange(first, pager.cursor.position as int),
            pager.cursor == old(pager).cursor,
            pager.exhausts_node == old(pager).exhausts_node,
            pager.in_row(row),
            first <= pager.taken(),
            governor@ == old(governor)@.after_work(pager.taken() - first),
            old(governor)@.affords(pager.taken() - first),
            nodes == node_store.nodes(),
            work == page_work(ahead, 0, filter, stop, limits, nodes, *relationships),
            work <= ahead.len(),
            work == pager.taken() - first + page_work(
                ahead.skip(pager.taken() - first),
                key_bytes as nat,
                filter,
                stop,
                limits,
                nodes,
                *relationships,
            ),
            candidate_edges(candidates@) == passing(row.subrange(first, pager.taken()), filter),
            key_bytes == edges_key_bytes(
                candidate_edges(candidates@),
                node_store.nodes(),
                *relationships,
            ),
            forall|i: int|
                0 <= i < pager.taken() - first ==> !ends_page(#[trigger] ahead[i], filter, stop),
            candidates_from(
                candidates@,
                start as int,
                parent,
                depth,
                node_store.nodes(),
                *relationships,
            ),
            *sequence == start + candidates@.len(),
            key_bytes == page_key_bytes(candidates@),
            key_bytes <= limits.max_key_bytes,
            candidates@.len() <= pager.taken() - first,
            old(pager).pending@.len() > 0 ==> first < pager.taken() || candidates@.len() == 0,
        decreases pager.pending@.len(),
    {
        let ghost here = pager.taken();
        let ghost waiting = pager.pending@;
        let neighbor: Neighbor = match pager.pending.pop_front() {
            Some(neighbor) => neighbor,
            None => return Ok((candidates, false)),
        };
        proof {
            assert(neighbor == row[here]);
            assert(ahead[here - first] == neighbor);
            assert(pager.pending@ =~= row.subrange(here + 1, pager.cursor.position as int));
            assert(row.subrange(first, here + 1).drop_last() =~= row.subrange(first, here));
            assert(row.subrange(first, here + 1).last() == neighbor);
            assert(ahead.take(here - first) =~= row.subrange(first, here));
            assert(ahead.take(here + 1 - first) =~= row.subrange(first, here + 1));
            assert(here > first ==> ahead[here - first - 1] == row[here - 1]);
            lemma_page_work_next(
                ahead,
                here - first,
                key_bytes as nat,
                filter,
                stop,
                limits,
                nodes,
                *relationships,
            );
        }
        if !passes_filter(filter, neighbor.type_id) {
            if let Err(error) = consume_path_work_without_interrupt(governor) {
                return Err(error);
            }
            continue ;
        }
        let fits: bool = match path_candidate_fits(
            &candidates,
            &mut key_bytes,
            neighbor,
            limits,
            node_store,
            relationships,
        ) {
            Ok(fits) => fits,
            Err(error) => return Err(error),
        };
        if !fits {
            pager.pending.push_front(neighbor);
            proof {
                assert(pager.pending@ =~= row.subrange(here, pager.cursor.position as int));
            }
            return Ok((candidates, false));
        }
        let candidate: BfsAdjacencyCandidate = match path_candidate(
            *sequence,
            parent,
            depth,
            neighbor,
            node_store,
            relationships,
        ) {
            Ok(candidate) => candidate,
            Err(error) => return Err(error),
        };
        let ghost before = candidates@;
        candidates.push(candidate);
        proof {
            assert(candidates@.drop_last() =~= before);
            assert(candidate_edges(candidates@) =~= candidate_edges(before).push(neighbor));
            assert(candidate_edges(candidates@).drop_last() =~= candidate_edges(before));
        }
        if let Err(error) = consume_path_work_without_interrupt(governor) {
            return Err(error);
        }
        *sequence = match next_path_sequence(*sequence) {
            Ok(next) => next,
            Err(error) => {
                proof {
                    lemma_passing_grows(ahead, filter, here + 1 - first, work);
                }
                return Err(error);
            },
        };
        if stop == Some(neighbor.target) {
            return Ok((candidates, true));
        }
    }
    proof {
        let next = pager.taken();
        assert(ahead.take(next - first) =~= row.subrange(first, next));
        assert(next > first ==> ahead[next - first - 1] == row[next - 1]);
        assert(ahead.skip(next - first).len() == 0);
    }
    Ok((candidates, false))
}

/// Whether an error is one that asking for a page can report. The page may
/// take these edges.
pub open spec fn materialize_error(
    error: ErrorView,
    state: ResumablePathState,
    sequence: u32,
    limits: BfsCandidateLimits,
    before: GovernorView,
    ahead: Seq<Neighbor>,
    filter: Option<&RoaringBitmap>,
    stop: Option<u32>,
    nodes: Seq<NodeView>,
    relationships: RelationshipIdentities,
) -> bool {
    if !(state is NeedEndpoints || state is NeedCandidates) {
        error == ErrorView::Internal("path candidate materialization requires a candidate state"@)
    } else if !limits_valid(limits) {
        error == ErrorView::InvalidFilter(
            "path visibility candidate limits must be positive and bounded"@,
        )
    } else if page_workspace(limits) > u64::MAX {
        error == ErrorView::InvalidFilter(
            "path visibility candidate allocation estimate overflow"@,
        )
    } else if !before.admits_memory(page_workspace(limits) as int) {
        error == limit_error(ResourcePhase::QueryVisibility, ResourceKind::Memory)
    } else {
        state is NeedCandidates && search_page_error(
            error,
            limits,
            before,
            sequence,
            ahead,
            filter,
            stop,
            nodes,
            relationships,
        )
    }
}

/// Whether an error is one that asking for edges can report: besides those of
/// making the page, that it has more candidates than it may.
pub open spec fn search_page_error(
    error: ErrorView,
    limits: BfsCandidateLimits,
    governor: GovernorView,
    sequence: u32,
    ahead: Seq<Neighbor>,
    filter: Option<&RoaringBitmap>,
    stop: Option<u32>,
    nodes: Seq<NodeView>,
    relationships: RelationshipIdentities,
) -> bool {
    let count = page_work(ahead, 0, filter, stop, limits, nodes, relationships) as int;
    ||| page_error(
        error,
        limits,
        governor,
        sequence,
        ahead,
        filter,
        stop,
        nodes,
        relationships,
    )
    ||| error == ErrorView::InvalidFilter("path visibility candidate page exceeds its limits"@)
        && passing(ahead.take(count), filter).len() > limits.max_candidates
}

} // verus!
