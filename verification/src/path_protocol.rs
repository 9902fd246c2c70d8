//! The protocol between a resumable path search and its caller: endpoints and
//! edges are asked for in pages, and answered page by page.
use vstd::prelude::*;
use vstd::string::StringExecFns;
use vstd::utf8::encode_utf8;

use crate::errors::{internal, invalid_filter, ErrorView, GraphError, GraphResult};
use crate::node_store::{NodeStore, NodeView};
use crate::path_machine::{
    limits_valid, next_path_sequence, page_fits, page_key_bytes, require_path_epoch,
    BfsAdjacencyCandidate, BfsAdjacencyCandidateBatch, BfsAdjacencyVerdict, BfsCandidateLimits,
    BfsProjectionEpoch, PendingPathBatch, ResumablePathState,
};
use crate::text::decimal_text;
use crate::types::EdgeTypeId;

verus! {

/// What a search asks for and has been told.
#[derive(Debug)]
pub struct PathProtocol {
    pub source: u32,
    pub target: u32,
    pub endpoint_cursor: usize,
    pub source_visible: Option<bool>,
    pub target_visible: Option<bool>,
    pub state: ResumablePathState,
    pub pending_kind: Option<PendingPathBatch>,
    pub pending_batch: Option<(Option<u32>, usize)>,
    pub next_sequence: u32,
    pub projection_epoch: Option<BfsProjectionEpoch>,
}

/// What the answers about the endpoints come to.
#[derive(Debug, Clone, Copy, PartialEq, Eq, Structural)]
pub enum EndpointOutcome {
    /// Some endpoint has not been asked for yet.
    More,
    /// Some endpoint may not be seen.
    Hidden,
    /// Both endpoints may be seen.
    Ready,
}

/// The nodes whose visibility is asked for first.
pub open spec fn endpoints(source: u32, target: u32) -> Seq<u32> {
    if source == target {
        seq![source]
    } else {
        seq![source, target]
    }
}

/// How many nodes' visibility is asked for first.
pub fn endpoint_count(source: u32, target: u32) -> (count: usize)
    ensures
        count == endpoints(source, target).len(),
{
    if source == target {
        1
    } else {
        2
    }
}

/// The first number and the length of a page.
pub open spec fn page_mark(batch: BfsAdjacencyCandidateBatch) -> (Option<u32>, usize) {
    (
        if batch.candidates@.len() > 0 {
            Some(batch.candidates@[0].sequence)
        } else {
            None
        },
        batch.candidates@.len() as usize,
    )
}

/// Whether verdicts answer the candidates of a page one by one.
pub open spec fn answers(
    batch: BfsAdjacencyCandidateBatch,
    verdicts: Seq<BfsAdjacencyVerdict>,
) -> bool {
    &&& verdicts.len() == batch.candidates@.len()
    &&& forall|i: int|
        0 <= i < verdicts.len() ==> (#[trigger] verdicts[i]).sequence
            == batch.candidates@[i].sequence
}

/// Whether verdicts say of each candidate's node what a rule says.
pub open spec fn nodes_answered(
    batch: BfsAdjacencyCandidateBatch,
    verdicts: Seq<BfsAdjacencyVerdict>,
    shows: spec_fn(u32) -> bool,
) -> bool {
    forall|i: int|
        0 <= i < verdicts.len() ==> (#[trigger] verdicts[i]).node_visible == shows(
            batch.candidates@[i].target_node,
        )
}

impl PathProtocol {
    /// How many endpoints have been answered.
    pub open spec fn resolved(&self) -> nat {
        if self.source_visible is None {
            0
        } else if self.target_visible is None {
            1
        } else {
            endpoints(self.source, self.target).len()
        }
    }

    /// Whether the answers so far are those of a rule.
    pub open spec fn agrees(&self, shows: spec_fn(u32) -> bool) -> bool {
        &&& self.source_visible matches Some(visible) ==> visible == shows(self.source)
        &&& self.target_visible matches Some(visible) ==> visible == shows(self.target)
    }

    /// What always holds of the protocol.
    pub open spec fn wf(&self) -> bool {
        let count = endpoints(self.source, self.target).len();
        &&& self.endpoint_cursor <= count
        &&& self.source_visible is None ==> self.target_visible is None
        &&& self.source == self.target ==> self.source_visible == self.target_visible
        &&& self.state is NeedEndpoints ==> self.resolved() == self.endpoint_cursor
            && self.endpoint_cursor < count
        &&& self.state is NeedCandidates ==> self.source_visible == Some(true)
            && self.target_visible == Some(true)
        &&& self.state is NeedVisibility ==> match self.pending_kind {
            Some(PendingPathBatch::Endpoints) => self.resolved() < self.endpoint_cursor,
            Some(PendingPathBatch::Adjacency) => self.source_visible == Some(true)
                && self.target_visible == Some(true),
            None => false,
        }
        &&& self.state is NeedVisibility ==> self.pending_batch is Some
    }

    /// Whether a page of endpoints is the one that was asked for.
    pub open spec fn asks_endpoints(&self, batch: BfsAdjacencyCandidateBatch) -> bool {
        let asked = endpoints(self.source, self.target).subrange(
            self.resolved() as int,
            self.endpoint_cursor as int,
        );
        &&& self.state is NeedVisibility
        &&& self.pending_kind == Some(PendingPathBatch::Endpoints)
        &&& batch.candidates@.len() == asked.len()
        &&& forall|i: int|
            0 <= i < asked.len() ==> (#[trigger] batch.candidates@[i]).target_node == asked[i]
    }

    /// Whether only the protocol's cursor, number and pending page may differ.
    pub open spec fn same_answers(&self, other: &Self) -> bool {
        &&& self.source == other.source
        &&& self.target == other.target
        &&& self.source_visible == other.source_visible
        &&& self.target_visible == other.target_visible
        &&& self.projection_epoch == other.projection_epoch
    }

    /// Nothing asked yet. A search between nodes that do not exist is over.
    pub fn new(source: u32, target: u32, valid: bool) -> (protocol: Self)
        ensures
            protocol.wf(),
            protocol.source == source,
            protocol.target == target,
            protocol.endpoint_cursor == 0,
            protocol.source_visible is None,
            protocol.target_visible is None,
            protocol.next_sequence == 0,
            protocol.projection_epoch is None,
            protocol.state == if valid {
                ResumablePathState::NeedEndpoints
            } else {
                ResumablePathState::Complete
            },
            forall|shows: spec_fn(u32) -> bool| #[trigger] protocol.agrees(shows),
    {
        PathProtocol {
            source,
            target,
            endpoint_cursor: 0,
            source_visible: None,
            target_visible: None,
            state: if valid {
                ResumablePathState::NeedEndpoints
            } else {
                ResumablePathState::Complete
            },
            pending_kind: None,
            pending_batch: None,
            next_sequence: 0,
            projection_epoch: None,
        }
    }

    /// Fails unless the projection is the one that was bound.
    pub fn require_projection_epoch(&self, actual: BfsProjectionEpoch) -> (result: GraphResult<()>)
        ensures
            result is Ok <==> self.projection_epoch == Some(actual),
            result matches Err(error) ==> error@ == ErrorView::Internal(
                "projection changed while path visibility was being resolved; retry the graph query"@,
            ),
    {
        require_path_epoch(self.projection_epoch, actual)
    }

    /// Hands a page out and waits for its answers.
    pub fn finish_path_batch(
        &mut self,
        candidates: Vec<BfsAdjacencyCandidate>,
        exhausted_current: bool,
        limits: BfsCandidateLimits,
    ) -> (result: GraphResult<BfsAdjacencyCandidateBatch>)
        ensures
            final(self).same_answers(old(self)),
            final(self).endpoint_cursor == old(self).endpoint_cursor,
            final(self).next_sequence == old(self).next_sequence,
            match result {
                Ok(batch) => {
                    &&& page_fits(candidates@, limits)
                    &&& batch.candidates == candidates
                    &&& batch.exhausted_current == exhausted_current
                    &&& final(self).state is NeedVisibility
                    &&& final(self).pending_kind == Some(PendingPathBatch::Adjacency)
                    &&& final(self).pending_batch == Some(page_mark(batch))
                },
                Err(error) => {
                    &&& !page_fits(candidates@, limits)
                    &&& *final(self) == *old(self)
                    &&& error@ == ErrorView::InvalidFilter(
                        "path visibility candidate page exceeds its limits"@,
                    )
                },
            },
    {
        let mut at: usize = 0;
        let mut bytes: usize = 0;
        let ghost all = candidates@;
        proof {
            assert(all.take(0) =~= Seq::<BfsAdjacencyCandidate>::empty());
        }
        while at < candidates.len()
            invariant
                at <= candidates@.len(),
                all == candidates@,
                bytes == page_key_bytes(all.take(at as int)),
                *self == *old(self),
            decreases candidates@.len() - at,
        {
            let own: usize = candidates[at].target_source_key.as_str().as_bytes().len();
            let other: usize = match &candidates[at].relationship_source_key {
                Some(key) => key.as_str().as_bytes().len(),
                None => 0,
            };
            proof {
                assert(all.take(at + 1).drop_last() =~= all.take(at as int));
                lemma_key_bytes_grow(all, at + 1, all.len() as int);
                assert(all.take(all.len() as int) =~= all);
            }
            let total: u128 = bytes as u128 + own as u128 + other as u128;
            if total > limits.max_key_bytes as u128 {
                return Err(invalid_filter("path visibility candidate page exceeds its limits"));
            }
            bytes = total as usize;
            at = at + 1;
        }
        assert(all.take(at as int) =~= all);
        if candidates.len() > limits.max_candidates || bytes > limits.max_key_bytes {
            return Err(invalid_filter("path visibility candidate page exceeds its limits"));
        }
        let first: Option<u32> = if candidates.len() > 0 {
            Some(candidates[0].sequence)
        } else {
            None
        };
        self.pending_batch = Some((first, candidates.len()));
        self.pending_kind = Some(PendingPathBatch::Adjacency);
        self.state = ResumablePathState::NeedVisibility;
        Ok(BfsAdjacencyCandidateBatch { candidates, exhausted_current })
    }

    /// Asks for endpoints, as many as fit a page.
    pub fn materialize_endpoint_batch(
        &mut self,
        node_store: &NodeStore,
        limits: BfsCandidateLimits,
    ) -> (result: GraphResult<BfsAdjacencyCandidateBatch>)
        requires
            old(self).wf(),
            old(self).state is NeedEndpoints,
            limits_valid(limits),
            node_store.wf(),
        ensures
            result matches Ok(batch) ==> {
                &&& final(self).wf()
                &&& final(self).same_answers(old(self))
                &&& final(self).asks_endpoints(batch)
                &&& final(self).pending_batch == Some(page_mark(batch))
                &&& page_fits(batch.candidates@, limits)
                &&& batch.candidates@.len() > 0
            },
            result matches Err(error) ==> endpoint_error(
                error@,
                limits,
                old(self).next_sequence,
                old(self).source,
                old(self).target,
                node_store.nodes(),
            ),
    {
        let count: usize = endpoint_count(self.source, self.target);
        let ghost asked = endpoints(self.source, self.target);
        let ghost first = self.endpoint_cursor as int;
        let ghost start = self.next_sequence;
        let mut candidates: Vec<BfsAdjacencyCandidate> = Vec::new();
        let mut key_bytes: usize = 0;
        let mut full: bool = false;
        while !full && self.endpoint_cursor < count && candidates.len() < limits.max_candidates
            invariant
                count == asked.len(),
                asked == endpoints(self.source, self.target),
                node_store.wf(),
                limits_valid(limits),
                0 <= first <= self.endpoint_cursor <= count <= 2,
                first < count,
                first == old(self).endpoint_cursor,
                start == old(self).next_sequence,
                self.same_answers(old(self)),
                self.resolved() == first,
                self.next_sequence == start + candidates@.len(),
                candidates@.len() == self.endpoint_cursor - first,
                candidates@.len() <= limits.max_candidates,
                forall|i: int|
                    0 <= i < candidates@.len() ==> (#[trigger] candidates@[i]).target_node
                        == asked[first + i],
                key_bytes == page_key_bytes(candidates@),
                key_bytes <= limits.max_key_bytes,
                full ==> candidates@.len() > 0,
            decreases count - self.endpoint_cursor,
                if full {
                    0int
                } else {
                    1
                },
        {
            let node: u32 = if self.endpoint_cursor == 0 {
                self.source
            } else {
                self.target
            };
            assert(node == asked[self.endpoint_cursor as int]);
            let (table_oid, key): (u32, &str) = match (
                node_store.table_oid(node),
                node_store.primary_key(node),
            ) {
                (Some(table_oid), Some(key)) => (table_oid, key),
                (None, _) => return Err(
                    GraphError::CorruptFile {
                        reason: "path endpoint ".to_owned().concat(
                            decimal_text(node as u64).as_str(),
                        ).concat(" has no table identity"),
                    },
                ),
                (_, None) => return Err(
                    GraphError::CorruptFile {
                        reason: "path endpoint ".to_owned().concat(
                            decimal_text(node as u64).as_str(),
                        ).concat(" has no source identity"),
                    },
                ),
            };
            let length: usize = key.as_bytes().len();
            let next: usize = match key_bytes.checked_add(length) {
                Some(next) => next,
                None => return Err(invalid_filter("path endpoint key bytes overflow")),
            };
            if next > limits.max_key_bytes {
                if candidates.len() == 0 {
                    return Err(invalid_filter("one path endpoint exceeds the key-byte limit"));
                }
                full = true;
            } else {
                let ghost before = candidates@;
                candidates.push(
                    BfsAdjacencyCandidate {
                        sequence: self.next_sequence,
                        parent_node: node,
                        parent_depth: 0,
                        target_node: node,
                        target_table_oid: table_oid,
                        target_source_key: key.to_owned(),
                        edge_type: EdgeTypeId::untyped(),
                        schema_reversed: false,
                        relationship_id: None,
                        relationship_mapping_id: None,
                        relationship_source_key: None,
                    },
                );
                assert(candidates@.drop_last() =~= before);
                self.next_sequence = match next_path_sequence(self.next_sequence) {
                    Ok(next) => next,
                    Err(error) => return Err(error),
                };
                self.endpoint_cursor = self.endpoint_cursor + 1;
                key_bytes = next;
            }
        }
        let complete: bool = self.endpoint_cursor >= count;
        let batch: BfsAdjacencyCandidateBatch = match self.finish_path_batch(
            candidates,
            complete,
            limits,
        ) {
            Ok(batch) => batch,
            Err(error) => return Err(error),
        };
        self.pending_kind = Some(PendingPathBatch::Endpoints);
        Ok(batch)
    }

    /// Says what a page of answers is for, or that the answers are not those of
    /// the page that was asked for.
    pub fn validate_path_verdicts(
        &self,
        batch: &BfsAdjacencyCandidateBatch,
        verdicts: &Vec<BfsAdjacencyVerdict>,
    ) -> (result: GraphResult<PendingPathBatch>)
        ensures
            match result {
                Ok(kind) => {
                    &&& self.state is NeedVisibility
                    &&& answers(*batch, verdicts@)
                    &&& self.pending_batch == Some(page_mark(*batch))
                    &&& self.pending_kind == Some(kind)
                },
                Err(error) => if self.state !is NeedVisibility {
                    error@ == ErrorView::Internal(
                        "path machine received verdicts outside its visibility state"@,
                    )
                } else if !answers(*batch, verdicts@) || self.pending_batch != Some(
                    page_mark(*batch),
                ) {
                    error@ == ErrorView::Internal(
                        "path machine received mismatched visibility verdicts"@,
                    )
                } else {
                    self.pending_kind is None && error@ == ErrorView::Internal(
                        "path batch kind is missing"@,
                    )
                },
            },
    {
        if self.state != ResumablePathState::NeedVisibility {
            return Err(internal("path machine received verdicts outside its visibility state"));
        }
        let first: Option<u32> = if batch.candidates.len() > 0 {
            Some(batch.candidates[0].sequence)
        } else {
            None
        };
        let expected: bool = match self.pending_batch {
            Some((mark, length)) => mark == first && length == batch.candidates.len(),
            None => false,
        };
        if verdicts.len() != batch.candidates.len() || !expected {
            return Err(internal("path machine received mismatched visibility verdicts"));
        }
        let mut at: usize = 0;
        while at < verdicts.len()
            invariant
                at <= verdicts@.len() == batch.candidates@.len(),
                self.state is NeedVisibility,
                self.pending_batch == Some(page_mark(*batch)),
                forall|i: int|
                    0 <= i < at ==> (#[trigger] verdicts@[i]).sequence
                        == batch.candidates@[i].sequence,
            decreases verdicts@.len() - at,
        {
            if batch.candidates[at].sequence != verdicts[at].sequence {
                assert(verdicts@[at as int].sequence != batch.candidates@[at as int].sequence);
                assert(!answers(*batch, verdicts@));
                return Err(internal("path machine received mismatched visibility verdicts"));
            }
            at = at + 1;
        }
        match self.pending_kind {
            Some(kind) => Ok(kind),
            None => Err(internal("path batch kind is missing")),
        }
    }

    /// Whether a page of endpoints is the one that was asked for.
    pub fn is_asking(&self, batch: &BfsAdjacencyCandidateBatch) -> (asking: bool)
        requires
            self.wf(),
            self.state is NeedVisibility,
            self.pending_kind == Some(PendingPathBatch::Endpoints),
        ensures
            asking == self.asks_endpoints(*batch),
    {
        let ghost asked = endpoints(self.source, self.target).subrange(
            self.resolved() as int,
            self.endpoint_cursor as int,
        );
        let first: usize = if self.source_visible.is_none() {
            0
        } else if self.target_visible.is_none() {
            1
        } else {
            endpoint_count(self.source, self.target)
        };
        if batch.candidates.len() != self.endpoint_cursor - first {
            return false;
        }
        let mut at: usize = 0;
        while at < batch.candidates.len()
            invariant
                at <= batch.candidates@.len() == asked.len(),
                first == self.resolved(),
                first + asked.len() == self.endpoint_cursor,
                self.wf(),
                asked == endpoints(self.source, self.target).subrange(
                    first as int,
                    self.endpoint_cursor as int,
                ),
                forall|i: int|
                    0 <= i < at ==> (#[trigger] batch.candidates@[i]).target_node == asked[i],
            decreases batch.candidates@.len() - at,
        {
            let node: u32 = if first + at == 0 {
                self.source
            } else {
                self.target
            };
            assert(node == asked[at as int]);
            if batch.candidates[at].target_node != node {
                return false;
            }
            at = at + 1;
        }
        true
    }

    /// Takes the answers about endpoints.
    pub fn apply_endpoint_verdicts(
        &mut self,
        batch: &BfsAdjacencyCandidateBatch,
        verdicts: &Vec<BfsAdjacencyVerdict>,
    ) -> (outcome: EndpointOutcome)
        requires
            old(self).wf(),
            old(self).state is NeedVisibility,
            answers(*batch, verdicts@),
        ensures
            final(self).source == old(self).source,
            final(self).target == old(self).target,
            final(self).endpoint_cursor == old(self).endpoint_cursor,
            final(self).next_sequence == old(self).next_sequence,
            final(self).projection_epoch == old(self).projection_epoch,
            forall|shows: spec_fn(u32) -> bool| #[trigger]
                old(self).agrees(shows) && nodes_answered(*batch, verdicts@, shows)
                    ==> final(self).agrees(shows),
            final(self).pending_kind is None,
            final(self).pending_batch is None,
            match outcome {
                EndpointOutcome::More => final(self).state is NeedEndpoints,
                EndpointOutcome::Hidden => final(self).state is Complete && (
                final(self).source_visible != Some(true) || final(self).target_visible != Some(
                    true,
                )),
                EndpointOutcome::Ready => final(self).state is NeedCandidates
                    && final(self).source_visible == Some(true) && final(self).target_visible
                    == Some(true),
            },
            old(self).asks_endpoints(*batch) ==> {
                &&& final(self).wf()
                &&& outcome == if final(self).endpoint_cursor < endpoints(
                    final(self).source,
                    final(self).target,
                ).len() {
                    EndpointOutcome::More
                } else if final(self).source_visible == Some(true) && final(self).target_visible
                    == Some(true) {
                    EndpointOutcome::Ready
                } else {
                    EndpointOutcome::Hidden
                }
                &&& outcome is Hidden ==> final(self).source_visible == Some(false)
                    || final(self).target_visible == Some(false)
            },
    {
        let ghost asked = endpoints(self.source, self.target);
        let ghost first = self.resolved() as int;
        let mut at: usize = 0;
        while at < verdicts.len()
            invariant
                at <= verdicts@.len() == batch.candidates@.len(),
                asked == endpoints(self.source, self.target),
                first == old(self).resolved(),
                old(self).wf(),
                old(self).state is NeedVisibility,
                self.source == old(self).source,
                self.target == old(self).target,
                self.endpoint_cursor == old(self).endpoint_cursor,
                self.next_sequence == old(self).next_sequence,
                self.projection_epoch == old(self).projection_epoch,
                forall|shows: spec_fn(u32) -> bool| #[trigger]
                    old(self).agrees(shows) && nodes_answered(*batch, verdicts@, shows)
                        ==> self.agrees(shows),
                old(self).asks_endpoints(*batch) ==> {
                    &&& self.resolved() == first + at
                    &&& self.source_visible is None ==> self.target_visible is None
                    &&& self.source == self.target ==> self.source_visible == self.target_visible
                },
            decreases verdicts@.len() - at,
        {
            let node: u32 = batch.candidates[at].target_node;
            let visible: bool = verdicts[at].node_visible;
            proof {
                if old(self).asks_endpoints(*batch) {
                    assert(node == asked[first + at]);
                }
                assert forall|shows: spec_fn(u32) -> bool| #[trigger]
                    old(self).agrees(shows) && nodes_answered(
                        *batch,
                        verdicts@,
                        shows,
                    ) implies visible == shows(node) by {
                    assert(verdicts@[at as int].node_visible == shows(
                        batch.candidates@[at as int].target_node,
                    ));
                }
            }
            if node == self.source && self.source_visible.is_none() {
                self.source_visible = Some(visible);
                if self.source == self.target {
                    self.target_visible = Some(visible);
                }
            } else if node == self.target {
                self.target_visible = Some(visible);
            }
            at = at + 1;
        }
        self.pending_kind = None;
        self.pending_batch = None;
        if self.endpoint_cursor < endpoint_count(self.source, self.target) {
            self.state = ResumablePathState::NeedEndpoints;
            EndpointOutcome::More
        } else if self.source_visible == Some(true) && self.target_visible == Some(true) {
            self.state = ResumablePathState::NeedCandidates;
            EndpointOutcome::Ready
        } else {
            self.state = ResumablePathState::Complete;
            EndpointOutcome::Hidden
        }
    }
}

/// The error for answers that are not those of the page that was asked for.
pub open spec fn refused_answers(state: ResumablePathState) -> ErrorView {
    if state is NeedVisibility {
        ErrorView::Internal("path machine received mismatched visibility verdicts"@)
    } else {
        ErrorView::Internal("path machine received verdicts outside its visibility state"@)
    }
}

/// Whether an error is one that asking for endpoints can report.
pub open spec fn endpoint_error(
    error: ErrorView,
    limits: BfsCandidateLimits,
    sequence: u32,
    source: u32,
    target: u32,
    nodes: Seq<NodeView>,
) -> bool {
    ||| error is CorruptFile && (source >= nodes.len() || target >= nodes.len())
    ||| error is InvalidFilter && source < nodes.len() && encode_utf8(
        nodes[source as int].key,
    ).len() > limits.max_key_bytes
    ||| error is InvalidFilter && target < nodes.len() && encode_utf8(
        nodes[target as int].key,
    ).len() > limits.max_key_bytes
    ||| error == ErrorView::InvalidFilter("path endpoint key bytes overflow"@) && (
    limits.max_key_bytes + encode_utf8(nodes[source as int].key).len() > usize::MAX
        || limits.max_key_bytes + encode_utf8(nodes[target as int].key).len() > usize::MAX)
    ||| error == ErrorView::Internal("path visibility sequence overflow"@) && sequence + 2
        > u32::MAX
}

/// More candidates have more key bytes.
proof fn lemma_key_bytes_grow(candidates: Seq<BfsAdjacencyCandidate>, small: int, large: int)
    requires
        0 <= small <= large <= candidates.len(),
    ensures
        page_key_bytes(candidates.take(small)) <= page_key_bytes(candidates.take(large)),
    decreases large,
{
    if small < large {
        lemma_key_bytes_grow(candidates, small, large - 1);
        assert(candidates.take(large).drop_last() =~= candidates.take(large - 1));
    }
}

} // verus!
