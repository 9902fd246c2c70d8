//! Weighted path search that pauses whenever it needs to know whether edges
//! may be seen.
use roaring::RoaringBitmap;
use std::collections::HashMap;
use vstd::prelude::*;
use vstd::utf8::encode_utf8;

use crate::cost_heap::{is_least, CostHeap};
use crate::edge_labels::EdgeTypeLabels;
use crate::errors::{internal, ErrorView, GraphResult};
use crate::neighbors::{least, strip_weights, Neighbor, WeightedNeighbor, WeightedNeighborSource};
use crate::node_store::{NodeStore, NodeView};
use crate::path_machine::{
    all_pass, candidate_edges, lemma_passing_passes, limits_valid, materialize_error, page_asks,
    page_fits, page_takes, page_work, reserve_path_page_workspace, search_page_error,
    validate_path_materialization, AskedEdges, BfsAdjacencyCandidate, BfsAdjacencyCandidateBatch,
    BfsAdjacencyVerdict, BfsCandidateLimits, BfsProjectionEpoch, PendingPathBatch,
    RelationshipIdentities, ResumablePathMaterialization, ResumablePathState,
    PATH_STATE_BYTES_PER_VISIT,
};
use crate::path_protocol::{
    answers, endpoint_error, nodes_answered, page_mark, refused_answers, EndpointOutcome,
    PathProtocol,
};
use crate::path_world::{followed, is_followed, outcomes};
use crate::relaxation::{
    complete_inv, final_frontier, frontier_inv, is_over, least_entry, lemma_closed_fit,
    lemma_frontier_shape, lemma_least_unique, lemma_reached, lemma_run_is_final, lemma_run_split,
    lemma_settle, lemma_start, lemma_take_fresh, lineage, rank, relax, run, settle, start_frontier,
    take_entry, weighted_bounded, Frontier, WeightedParentStep, UNREACHED,
};
use crate::resource::{
    charged, grown, limit_error, GovernorView, ResourceGovernor, ResourceKind, ResourcePhase,
};
use crate::text::same_text;
use crate::types::{EdgeTypeId, WeightedPathStep};
use crate::visibility::QueryExecutionContext;
use crate::weighted_page::{
    gather_weighted_candidates, lemma_page_relaxed, lemma_passing_stripped, lemma_queued_grows,
    lemma_queued_next, lemma_relaxed_next, lemma_relaxed_relaxes, newly_queued, passing_weighted,
    relaxed_by, weighted_query_world, weights_of, WeightedRowPager, WeightedWorld,
};
use crate::weighted_path::{
    lemma_lineage_recorded, lemma_weighted_bounded, weighted_path, weighted_path_steps,
    weighted_path_view, weighted_path_views, weighted_step_views,
};

verus! {

broadcast use vstd::std_specs::hash::group_hash_axioms;

/// A weighted search that holds no borrow of the graph between pages.
pub struct ResumableDijkstra {
    pub protocol: PathProtocol,
    pub dist: Vec<u64>,
    pub parent: HashMap<u32, WeightedParentStep>,
    pub heap: CostHeap,
    pub active: Option<(u64, u32)>,
    pub pager: WeightedRowPager,
    pub pending_weights: Vec<u32>,
    /// The edges that were asked for last.
    pub page: AskedEdges,
    /// The state of the search.
    pub state: Ghost<Frontier>,
    /// How many entries have been settled.
    pub steps: Ghost<nat>,
    /// Whether the next one is being settled.
    pub open: Ghost<bool>,
    /// The entry that is being settled.
    pub opened: Ghost<(u64, u32)>,
    /// How many of its node's edges have been answered.
    pub resolved: Ghost<nat>,
    /// How many of its node's edges have been asked for.
    pub upto: Ghost<nat>,
    /// The edges of the page that waits for answers.
    pub asked: Ghost<Seq<WeightedNeighbor>>,
}

/// What is next for a weighted search.
pub enum NextEntry {
    /// A node whose edges are to be read.
    Node((u64, u32)),
    /// Entries were dropped, and there may be more.
    Dropped,
    /// The target is next, or nothing is.
    Over,
}

/// Whether the entry that is next is stale: its node has a lower cost.
pub open spec fn next_is_stale(state: Frontier) -> bool {
    let entry = least_entry(state.queue);
    state.queue.len() > 0 && entry.0 > state.dist[entry.1 as int]
}

/// How many stale entries are next, counted up to a limit.
pub open spec fn stale_entries(state: Frontier, limit: nat) -> nat
    decreases limit,
{
    if limit > 0 && next_is_stale(state) {
        1 + stale_entries(take_entry(state, least_entry(state.queue)), (limit - 1) as nat)
    } else {
        0
    }
}

/// The state once stale entries that are next have been dropped, up to a limit.
pub open spec fn skimmed(state: Frontier, limit: nat) -> Frontier
    decreases limit,
{
    if limit > 0 && next_is_stale(state) {
        skimmed(take_entry(state, least_entry(state.queue)), (limit - 1) as nat)
    } else {
        state
    }
}

/// The first answer, from a place on, that follows an edge whose identity has
/// changed; the number of answers if there is none.
pub open spec fn kept_answers(
    ok: Seq<bool>,
    candidates: Seq<BfsAdjacencyCandidate>,
    relationships: RelationshipIdentities,
    from: int,
) -> int
    decreases ok.len() - from,
{
    if from >= ok.len() || ok[from] && !identity_kept(candidates[from], relationships) {
        from
    } else {
        kept_answers(ok, candidates, relationships, from + 1)
    }
}

proof fn lemma_kept_answers(
    ok: Seq<bool>,
    candidates: Seq<BfsAdjacencyCandidate>,
    relationships: RelationshipIdentities,
    from: int,
)
    requires
        0 <= from <= ok.len(),
    ensures
        from <= kept_answers(ok, candidates, relationships, from) <= ok.len(),
    decreases ok.len() - from,
{
    if from < ok.len() {
        lemma_kept_answers(ok, candidates, relationships, from + 1);
    }
}

impl ResumableDijkstra {
    /// Whether edges are being searched.
    pub open spec fn started(&self) -> bool {
        ||| self.protocol.state is NeedCandidates
        ||| self.protocol.state is NeedVisibility && self.protocol.pending_kind == Some(
            PendingPathBatch::Adjacency,
        )
    }

    /// What always holds of the search.
    pub open spec fn wf(&self) -> bool {
        let state = self.state@;
        let count = self.dist@.len();
        &&& self.protocol.wf()
        &&& self.heap.wf()
        &&& self.protocol.source < count
        &&& self.protocol.target < count
        &&& self.dist@ == state.dist
        &&& self.parent@ == state.parent
        &&& !(self.protocol.state is Complete) ==> self.heap@ == state.queue
        &&& self.protocol.state is Complete ==> self.protocol.source_visible == Some(false)
            || self.protocol.target_visible == Some(false) || (self.protocol.source_visible == Some(
            true,
        ) && self.protocol.target_visible == Some(true))
        &&& forall|entry: (u64, u32)| #[trigger]
            state.queue.contains(entry) ==> entry.1 < count && state.dist[entry.1 as int]
                <= entry.0
        &&& !(self.protocol.state is Complete) && !self.started() ==> {
            &&& state == start_frontier(count, self.protocol.source)
            &&& self.steps@ == 0
            &&& !self.open@
            &&& self.active is None
        }
        &&& self.started() ==> {
            &&& self.active matches Some(entry) ==> self.open@ && entry == self.opened@
            &&& self.open@ ==> {
                &&& self.opened@.1 < count
                &&& self.opened@.0 == state.dist[self.opened@.1 as int]
                &&& self.opened@.1 != self.protocol.target
            }
        }
        &&& self.protocol.state is NeedCandidates ==> {
            &&& self.open@ == (self.active is Some)
            &&& self.open@ ==> self.pager.taken() == self.resolved@
        }
        &&& self.protocol.state is NeedVisibility && self.started() ==> {
            &&& self.open@
            &&& self.resolved@ <= self.upto@
            &&& self.active is Some ==> self.pager.taken() == self.upto@
            &&& self.pending_weights@ == weights_of(self.asked@)
            &&& self.asked@.len() > 0
            &&& self.page.edges@ == strip_weights(self.asked@)
            &&& self.page.parent == self.opened@.1
            &&& self.page.depth == 0
        }
    }

    /// Whether the row that is being read is one of these.
    pub open spec fn reads<W: WeightedNeighborSource>(&self, neighbors: &W) -> bool {
        self.active matches Some((_, node)) ==> self.pager.in_row(
            neighbors.weighted_adjacency(node),
        )
    }

    /// Whether the search is right about a world so far.
    pub open spec fn tracks(&self, world: WeightedWorld) -> bool {
        let g = world.graph;
        let source = self.protocol.source;
        let target = self.protocol.target;
        let state = self.state@;
        let base = run(g, start_frontier(world.nodes, source), target, self.steps@);
        let row = (g.adjacency)(self.opened@.1);
        let taken = take_entry(base, self.opened@);
        &&& self.protocol.agrees(world.shows)
        &&& weighted_bounded(g, world.nodes)
        &&& self.dist@.len() == world.nodes
        &&& self.protocol.state is Complete && self.protocol.source_visible == Some(true)
            && self.protocol.target_visible == Some(true) ==> {
            let end = final_frontier(g, world.nodes, source, target);
            &&& state == (Frontier { queue: state.queue, ..end })
            &&& complete_inv(g, end, world.nodes, source)
        }
        &&& self.started() ==> {
            &&& complete_inv(g, base, world.nodes, source)
            &&& !base.closed.contains(target)
            &&& !self.open@ ==> state == base
            &&& self.open@ ==> {
                &&& base.queue.len() > 0
                &&& least_entry(base.queue) == self.opened@
                &&& self.opened@.0 == base.dist[self.opened@.1 as int]
                &&& self.opened@.1 != target
                &&& self.resolved@ <= row.len()
                &&& state == relax(
                    g,
                    taken,
                    self.opened@.1,
                    self.opened@.0,
                    row.take(self.resolved@ as int),
                )
            }
        }
        &&& self.started() && self.protocol.state is NeedVisibility ==> {
            &&& self.upto@ <= row.len()
            &&& self.active is None ==> self.upto@ == row.len()
            &&& relax(g, state, self.opened@.1, self.opened@.0, self.asked@) == relax(
                g,
                taken,
                self.opened@.1,
                self.opened@.0,
                row.take(self.upto@ as int),
            )
        }
    }

    /// What is next: the node that is being settled, or that of the next entry
    /// once stale ones, at most `limit`, have been dropped.
    pub open spec fn next_step(&self, limit: nat) -> NextEntry {
        let state = skimmed(self.state@, limit);
        match self.active {
            Some(entry) => NextEntry::Node(entry),
            None => if stale_entries(self.state@, limit) >= limit {
                NextEntry::Dropped
            } else if is_over(state, self.protocol.target) {
                NextEntry::Over
            } else {
                NextEntry::Node(least_entry(state.queue))
            },
        }
    }

    /// The state while the next node is being settled.
    pub open spec fn next_state(&self, limit: nat) -> Frontier {
        let state = skimmed(self.state@, limit);
        if self.active is Some {
            self.state@
        } else {
            match self.next_step(limit) {
                NextEntry::Node(entry) => take_entry(state, entry),
                _ => state,
            }
        }
    }

    /// How many of the next node's edges earlier pages have taken.
    pub open spec fn page_start(&self) -> int {
        if self.active is Some {
            self.resolved@ as int
        } else {
            0
        }
    }

    /// The edges that the next page may take.
    pub open spec fn edges_ahead<W: WeightedNeighborSource>(
        &self,
        neighbors: &W,
        limits: BfsCandidateLimits,
    ) -> Seq<Neighbor> {
        match self.next_step(limits.max_candidates as nat) {
            NextEntry::Node(entry) => {
                let row = strip_weights(neighbors.weighted_adjacency(entry.1));
                if self.active is Some {
                    row.subrange(
                        self.resolved@ as int,
                        self.pager.ahead(row.len() as int, limits.max_candidates as int),
                    )
                } else {
                    row.subrange(0, least(limits.max_candidates as int, row.len() as int))
                }
            },
            _ => Seq::empty(),
        }
    }

    /// Whether asking for a page of edges leads to this. The page takes edges
    /// of the next node, as many as fit, and each of them costs a unit of work.
    /// A page without candidates is not handed out: the search has gone on, as
    /// it has when only stale entries were dropped. It is over when the target
    /// is next, or nothing is.
    pub open spec fn paged<W: WeightedNeighborSource>(
        &self,
        after: Self,
        outcome: ResumablePathMaterialization,
        node_store: &NodeStore,
        neighbors: &W,
        relationships: RelationshipIdentities,
        filter: Option<&RoaringBitmap>,
        limits: BfsCandidateLimits,
        governor: GovernorView,
        spent: GovernorView,
    ) -> bool {
        let most = limits.max_candidates as nat;
        &&& after.state@ == self.next_state(most)
        &&& match self.next_step(most) {
            NextEntry::Dropped => {
                &&& outcome is Progress
                &&& after.active is None
                &&& after.protocol.next_sequence == self.protocol.next_sequence
                &&& spent == governor
            },
            NextEntry::Over => {
                &&& outcome is Complete
                &&& after.protocol.next_sequence == self.protocol.next_sequence
                &&& spent == governor
            },
            NextEntry::Node(entry) => {
                let nodes = node_store.nodes();
                let row = neighbors.weighted_adjacency(entry.1);
                let ahead = self.edges_ahead(neighbors, limits);
                let next = after.upto@ as int;
                let count = next - self.page_start();
                let edges = passing_weighted(row.subrange(self.page_start(), next), filter);
                let exhausted = next == row.len();
                &&& page_takes(ahead, count, filter, None, limits, nodes, relationships)
                &&& governor.affords(count)
                &&& spent == governor.after_work(count)
                &&& after.opened@ == entry
                &&& after.protocol.next_sequence == self.protocol.next_sequence + edges.len()
                &&& after.active == if exhausted {
                    None
                } else {
                    Some(entry)
                }
                &&& !exhausted ==> after.pager.cursor.position == self.page_start() + ahead.len()
                &&& match outcome {
                    ResumablePathMaterialization::Batch(batch) => {
                        &&& edges.len() > 0
                        &&& after.resolved@ == self.page_start()
                        &&& after.asked@ == edges
                        &&& page_asks(
                            batch,
                            strip_weights(edges),
                            exhausted,
                            self.protocol.next_sequence,
                            entry.1,
                            0,
                            nodes,
                            relationships,
                        )
                    },
                    ResumablePathMaterialization::Progress => {
                        &&& edges.len() == 0
                        &&& after.resolved@ == after.upto@
                    },
                    ResumablePathMaterialization::Complete => false,
                }
            },
        }
    }

    /// Whether a page is the one that waits for answers.
    pub open spec fn awaits(&self, batch: BfsAdjacencyCandidateBatch) -> bool {
        &&& self.protocol.state is NeedVisibility
        &&& self.protocol.pending_batch == Some(page_mark(batch))
        &&& self.started() ==> {
            &&& batch.candidates@.len() > 0
            &&& candidate_edges(batch.candidates@) == strip_weights(self.asked@)
            &&& forall|i: int|
                0 <= i < batch.candidates@.len() ==> (#[trigger] batch.candidates@[i]).parent_node
                    == self.opened@.1 && batch.candidates@[i].parent_depth == 0
        }
        &&& !self.started() ==> self.protocol.asks_endpoints(batch)
    }

    /// How many answers are taken: those before the first edge that is followed
    /// and whose identity has changed.
    pub open spec fn answers_taken(
        &self,
        node_store: &NodeStore,
        deleted: RoaringBitmap,
        batch: BfsAdjacencyCandidateBatch,
        verdicts: Seq<BfsAdjacencyVerdict>,
        relationships: RelationshipIdentities,
    ) -> int {
        kept_answers(
            outcomes(node_store, deleted, batch, verdicts),
            batch.candidates@,
            relationships,
            0,
        )
    }

    /// Bytes that taking answers reserves: for each entry that they add.
    pub open spec fn answer_bytes(
        &self,
        node_store: &NodeStore,
        deleted: RoaringBitmap,
        batch: BfsAdjacencyCandidateBatch,
        verdicts: Seq<BfsAdjacencyVerdict>,
        relationships: RelationshipIdentities,
    ) -> int {
        let taken = self.answers_taken(node_store, deleted, batch, verdicts, relationships);
        if self.started() {
            512 * newly_queued(
                self.state@,
                self.opened@.1,
                self.opened@.0,
                self.asked@.take(taken),
                outcomes(node_store, deleted, batch, verdicts),
            )
        } else {
            0
        }
    }

    /// Whether verdicts about the edges that were asked for are those of a world.
    pub open spec fn judged_by(
        &self,
        world: WeightedWorld,
        node_store: &NodeStore,
        deleted: RoaringBitmap,
        batch: BfsAdjacencyCandidateBatch,
        verdicts: Seq<BfsAdjacencyVerdict>,
    ) -> bool {
        forall|i: int|
            0 <= i < verdicts.len() ==> followed(
                node_store,
                deleted,
                batch.candidates@[i],
                #[trigger] verdicts[i],
            ) == (world.graph.allows)(self.asked@[i])
    }

    /// Whether nothing has been asked yet: the search is right about every
    /// graph.
    pub open spec fn begins(&self, node_count: nat, source: u32, target: u32) -> bool {
        &&& self.wf()
        &&& self.dist@.len() == node_count
        &&& self.protocol.source == source
        &&& self.protocol.target == target
        &&& self.active is None
        &&& self.protocol.projection_epoch is None
        &&& self.protocol.state is NeedEndpoints
        &&& forall|world: WeightedWorld|
            world.nodes == node_count && weighted_bounded(world.graph, world.nodes)
                ==> #[trigger] self.tracks(world)
    }

    /// Whether the search goes on rightly when a page is asked for: whatever it
    /// was right about, it still is.
    pub open spec fn asked_on<W: WeightedNeighborSource>(
        &self,
        after: Self,
        node_store: &NodeStore,
        neighbors: &W,
        filter: Option<&RoaringBitmap>,
    ) -> bool {
        &&& after.wf()
        &&& after.reads(neighbors)
        &&& after.protocol.same_answers(&self.protocol)
        &&& after.dist@.len() == self.dist@.len()
        &&& after.protocol.state is NeedVisibility && after.started() ==> all_pass(
            after.page.edges@,
            filter,
        )
        &&& forall|world: WeightedWorld|
            #![trigger self.tracks(world)]
            self.tracks(world) && world.fits(node_store, neighbors, filter) ==> after.tracks(world)
    }

    /// Whether the search goes on rightly when answers are taken: whatever it
    /// was right about, it still is if the answers are right.
    pub open spec fn answered_on(
        &self,
        after: Self,
        node_store: &NodeStore,
        deleted: RoaringBitmap,
        batch: BfsAdjacencyCandidateBatch,
        verdicts: Seq<BfsAdjacencyVerdict>,
    ) -> bool {
        &&& after.wf()
        &&& !(after.protocol.state is NeedVisibility)
        &&& after.pager == self.pager
        &&& after.active == self.active
        &&& after.protocol.source == self.protocol.source
        &&& after.protocol.target == self.protocol.target
        &&& after.dist@.len() == self.dist@.len()
        &&& after.protocol.projection_epoch == self.protocol.projection_epoch
        &&& forall|world: WeightedWorld|
            #![trigger self.tracks(world)]
            self.tracks(world) && (if self.started() {
                self.judged_by(world, node_store, deleted, batch, verdicts)
            } else {
                nodes_answered(batch, verdicts, world.shows)
            }) ==> after.tracks(world)
    }

    /// A search that has asked nothing yet.
    pub fn try_new(node_count: usize, source: u32, target: u32) -> (result: GraphResult<Self>)
        ensures
            match result {
                Ok(machine) => {
                    &&& source < node_count && target < node_count
                    &&& machine.begins(node_count as nat, source, target)
                },
                Err(error) => {
                    &&& source >= node_count || target >= node_count
                    &&& error@ == ErrorView::Internal(
                        "resumable weighted path received an invalid endpoint index"@,
                    )
                },
            },
    {
        if source as usize >= node_count || target as usize >= node_count {
            return Err(internal("resumable weighted path received an invalid endpoint index"));
        }
        let mut dist: Vec<u64> = Vec::new();
        dist.resize(node_count, UNREACHED);
        dist[source as usize] = 0;
        let mut parent: HashMap<u32, WeightedParentStep> = HashMap::new();
        parent.insert(
            source,
            WeightedParentStep { parent: source, edge_type: EdgeTypeId::untyped(), edge_weight: 0 },
        );
        let mut heap = CostHeap::new();
        heap.push((0, source));
        let ghost start = start_frontier(node_count as nat, source);
        let machine = ResumableDijkstra {
            protocol: PathProtocol::new(source, target, true),
            dist,
            parent,
            heap,
            active: None,
            pager: WeightedRowPager::start(),
            pending_weights: Vec::new(),
            page: AskedEdges::none(),
            state: Ghost(start),
            steps: Ghost(0),
            open: Ghost(false),
            opened: Ghost((0u64, source)),
            resolved: Ghost(0),
            upto: Ghost(0),
            asked: Ghost(Seq::empty()),
        };
        proof {
            broadcast use vstd::multiset::group_multiset_axioms;

            assert(machine.dist@ =~= start.dist);
            assert(machine.parent@ =~= start.parent);
            assert(machine.heap@ =~= start.queue);
        }
        Ok(machine)
    }

    /// Ties the search to a state of the projection.
    pub fn bind_projection_epoch(&mut self, epoch: BfsProjectionEpoch)
        ensures
            final(self).protocol == (PathProtocol {
                projection_epoch: Some(epoch),
                ..old(self).protocol
            }),
            old(self).wf() ==> final(self).wf(),
            forall|world: WeightedWorld| #[trigger]
                old(self).tracks(world) ==> final(self).tracks(world),
            forall|batch: BfsAdjacencyCandidateBatch| #[trigger]
                old(self).awaits(batch) ==> final(self).awaits(batch),
            final(self).active == old(self).active,
            final(self).pager == old(self).pager,
            final(self).dist == old(self).dist,
    {
        self.protocol.projection_epoch = Some(epoch);
        proof {
            assert forall|batch: BfsAdjacencyCandidateBatch| #[trigger]
                old(self).awaits(batch) implies self.awaits(batch) by {
                if !self.started() {
                    assert(old(self).protocol.asks_endpoints(batch));
                    assert(self.protocol.resolved() == old(self).protocol.resolved());
                }
            }
        }
    }

    /// Fails unless the projection is the one that the search was tied to.
    pub fn require_projection_epoch(&self, actual: BfsProjectionEpoch) -> (result: GraphResult<()>)
        ensures
            result is Ok <==> self.protocol.projection_epoch == Some(actual),
            result matches Err(error) ==> error@ == ErrorView::Internal(
                "projection changed while path visibility was being resolved; retry the graph query"@,
            ),
    {
        self.protocol.require_projection_epoch(actual)
    }

    /// Whether the search is over.
    pub fn is_complete(&self) -> (complete: bool)
        ensures
            complete == (self.protocol.state is Complete),
    {
        self.protocol.state == ResumablePathState::Complete
    }
}

/// Settling an entry of another node than the target goes one step on.
proof fn lemma_step(
    world: WeightedWorld,
    source: u32,
    target: u32,
    steps: nat,
)
    requires
        weighted_bounded(world.graph, world.nodes),
        ({
            let base = run(world.graph, start_frontier(world.nodes, source), target, steps);
            &&& complete_inv(world.graph, base, world.nodes, source)
            &&& base.queue.len() > 0
            &&& least_entry(base.queue).1 != target
            &&& !base.closed.contains(target)
        }),
    ensures
        ({
            let start = start_frontier(world.nodes, source);
            let base = run(world.graph, start, target, steps);
            let next = run(world.graph, start, target, (steps + 1) as nat);
            &&& next == settle(world.graph, base)
            &&& complete_inv(world.graph, next, world.nodes, source)
            &&& !next.closed.contains(target)
        }),
{
    let g = world.graph;
    let start = start_frontier(world.nodes, source);
    let base = run(g, start, target, steps);
    lemma_run_split(g, start, target, steps, 1);
    assert(run(g, settle(g, base), target, 0) == settle(g, base));
    assert(run(g, base, target, 1) == settle(g, base));
    lemma_settle(g, base, world.nodes, source);
    let entry = least_entry(base.queue);
    let taken = take_entry(base, entry);
    if entry.0 <= base.dist[entry.1 as int] {
        lemma_take_fresh(g, base, world.nodes, source);
        assert(taken.closed.last() == entry.1);
        let row = (g.adjacency)(entry.1);
        lemma_relax_keeps_closed(g, taken, entry.1, entry.0, row);
        assert(!taken.closed.contains(target)) by {
            if taken.closed.contains(target) {
                let i = choose|i: int| 0 <= i < taken.closed.len() && taken.closed[i] == target;
                if i < base.closed.len() {
                    assert(base.closed[i] == target);
                }
            }
        }
    }
}

/// Relaxing edges settles nothing.
proof fn lemma_relax_keeps_closed(
    g: crate::relaxation::WeightedGraph,
    state: Frontier,
    node: u32,
    cost: u64,
    edges: Seq<WeightedNeighbor>,
)
    ensures
        relax(g, state, node, cost, edges).closed == state.closed,
    decreases edges.len(),
{
    if edges.len() > 0 {
        lemma_relax_keeps_closed(g, state, node, cost, edges.drop_last());
    }
}

/// An entry of a target that has not been settled is not stale when it is next.
proof fn lemma_target_fresh(
    g: crate::relaxation::WeightedGraph,
    state: Frontier,
    node_count: nat,
    source: u32,
    target: u32,
)
    requires
        complete_inv(g, state, node_count, source),
        !state.closed.contains(target),
        target < node_count,
        state.queue.len() > 0,
        is_least(state.queue, least_entry(state.queue)),
        least_entry(state.queue).1 == target,
    ensures
        least_entry(state.queue).0 <= state.dist[target as int],
{
    reveal(frontier_inv);
    if state.dist[target as int] < UNREACHED {
        assert(state.queue.contains((state.dist[target as int], target)));
    }
}

impl ResumableDijkstra {
    /// The node to read edges of. Stale entries are dropped, at most `limit` at
    /// a time.
    #[verifier::spinoff_prover]
    #[verifier::rlimit(60)]
    fn next_entry(&mut self, limit: usize) -> (next: NextEntry)
        requires
            old(self).wf(),
            old(self).protocol.state is NeedCandidates,
            limit > 0,
        ensures
            final(self).wf(),
            final(self).protocol.same_answers(&old(self).protocol),
            final(self).protocol.next_sequence == old(self).protocol.next_sequence,
            final(self).dist == old(self).dist,
            next == old(self).next_step(limit as nat),
            final(self).state@ == old(self).next_state(limit as nat),
            next is Node ==> final(self).resolved@ == old(self).page_start(),
            old(self).active is Some ==> *final(self) == *old(self) && next is Node,
            old(self).active is None ==> final(self).pager.pending@.len() == 0 && final(
                self).pager.cursor.position == 0 && forall|row: Seq<WeightedNeighbor>| #[trigger]
                final(self).pager.in_row(row),
            forall|world: WeightedWorld| #[trigger]
                old(self).tracks(world) ==> final(self).tracks(world),
            match next {
                NextEntry::Node(entry) => final(self).active == Some(entry) && final(
                    self).protocol == old(self).protocol,
                NextEntry::Dropped => final(self).active is None && final(self).protocol == old(
                    self,
                ).protocol,
                NextEntry::Over => final(self).active is None && final(
                    self).protocol.state is Complete,
            },
    {
        if let Some(active) = self.active {
            return NextEntry::Node(active);
        }
        self.pager = WeightedRowPager::start();
        let mut dropped: usize = 0;
        while dropped < limit
            invariant
                self.wf(),
                self.protocol == old(self).protocol,
                self.protocol.state is NeedCandidates,
                self.dist == old(self).dist,
                self.active is None,
                old(self).active is None,
                self.pager.taken() == 0,
                self.pager.pending@.len() == 0,
                dropped <= limit,
                skimmed(self.state@, (limit - dropped) as nat) == skimmed(
                    old(self).state@,
                    limit as nat,
                ),
                dropped + stale_entries(self.state@, (limit - dropped) as nat) == stale_entries(
                    old(self).state@,
                    limit as nat,
                ),
                forall|row: Seq<WeightedNeighbor>| #[trigger] self.pager.in_row(row),
                forall|world: WeightedWorld| #[trigger]
                    old(self).tracks(world) ==> self.tracks(world),
            decreases limit - dropped,
        {
            let ghost before = *self;
            let ghost state = self.state@;
            let ghost source = self.protocol.source;
            let ghost target = self.protocol.target;
            let popped: Option<(u64, u32)> = self.heap.pop();
            let entry: (u64, u32) = match popped {
                Some(entry) => entry,
                None => {
                    self.protocol.state = ResumablePathState::Complete;
                    proof {
                        assert forall|world: WeightedWorld| #[trigger]
                            before.tracks(world) implies self.tracks(world) by {
                            assert(is_over(state, target));
                            lemma_run_is_final(
                                world.graph,
                                world.nodes,
                                source,
                                target,
                                before.steps@,
                            );
                        }
                    }
                    return NextEntry::Over;
                },
            };
            proof {
                lemma_least_unique(state.queue, entry);
                lemma_entry_counts(state.queue, entry);
                assert(state.queue.contains(entry));
            }
            if entry.0 > self.dist[entry.1 as usize] {
                let ghost taken = take_entry(state, entry);
                self.state = Ghost(taken);
                self.steps = Ghost((before.steps@ + 1) as nat);
                proof {
                    lemma_rest_contained(state.queue, entry);
                    assert forall|world: WeightedWorld| #[trigger]
                        before.tracks(world) implies self.tracks(world) by {
                        if entry.1 == target {
                            lemma_target_fresh(world.graph, state, world.nodes, source, target);
                        }
                        lemma_step(world, source, target, before.steps@);
                    }
                }
                dropped = dropped + 1;
                continue ;
            }
            if entry.1 == self.protocol.target {
                self.protocol.state = ResumablePathState::Complete;
                proof {
                    assert forall|world: WeightedWorld| #[trigger]
                        before.tracks(world) implies self.tracks(world) by {
                        assert(is_over(state, target));
                        lemma_run_is_final(
                            world.graph,
                            world.nodes,
                            source,
                            target,
                            before.steps@,
                        );
                    }
                }
                return NextEntry::Over;
            }
            self.active = Some(entry);
            self.opened = Ghost(entry);
            self.open = Ghost(true);
            self.resolved = Ghost(0);
            let ghost taken = take_entry(state, entry);
            self.state = Ghost(taken);
            proof {
                lemma_rest_contained(state.queue, entry);
                assert forall|world: WeightedWorld| #[trigger]
                    before.tracks(world) implies self.tracks(world) by {
                    let row = (world.graph.adjacency)(entry.1);
                    assert(row.take(0) =~= Seq::<WeightedNeighbor>::empty());
                }
            }
            return NextEntry::Node(entry);
        }
        NextEntry::Dropped
    }
}

/// A queue with an entry is not empty.
proof fn lemma_entry_counts(queue: vstd::multiset::Multiset<(u64, u32)>, entry: (u64, u32))
    requires
        queue.contains(entry),
    ensures
        queue.len() > 0,
{
    broadcast use vstd::multiset::group_multiset_axioms;

    assert(queue.remove(entry).len() == queue.len() - 1);
}

/// What is left of a queue was in it.
proof fn lemma_rest_contained(queue: vstd::multiset::Multiset<(u64, u32)>, entry: (u64, u32))
    ensures
        forall|other: (u64, u32)| #[trigger]
            queue.remove(entry).contains(other) ==> queue.contains(other),
{
    broadcast use vstd::multiset::group_multiset_axioms;
}

impl ResumableDijkstra {
    /// Asks for edges of the next node, as many as fit a page.
    #[verifier::spinoff_prover]
    #[verifier::rlimit(60)]
    fn search_page<W: WeightedNeighborSource>(
        &mut self,
        node_store: &NodeStore,
        neighbors: &W,
        relationships: &RelationshipIdentities,
        edge_type_filter: Option<&RoaringBitmap>,
        limits: BfsCandidateLimits,
        governor: &mut ResourceGovernor,
    ) -> (result: GraphResult<ResumablePathMaterialization>)
        requires
            old(self).wf(),
            old(self).protocol.state is NeedCandidates,
            old(self).reads(neighbors),
            limits_valid(limits),
            node_store.wf(),
        ensures
            charged(
                old(governor)@,
                final(governor)@,
                page_work(
                    old(self).edges_ahead(neighbors, limits),
                    0,
                    edge_type_filter,
                    None,
                    limits,
                    node_store.nodes(),
                    *relationships,
                ) as int,
            ),
            result is Ok ==> {
                &&& final(self).wf()
                &&& final(self).reads(neighbors)
                &&& final(self).protocol.same_answers(&old(self).protocol)
                &&& final(self).dist@.len() == old(self).dist@.len()
                &&& forall|world: WeightedWorld|
                    #![trigger old(self).tracks(world)]
                    old(self).tracks(world) && world.fits(
                        node_store,
                        neighbors,
                        edge_type_filter,
                    ) ==> final(self).tracks(world)
            },
            result matches Ok(ResumablePathMaterialization::Batch(batch)) ==> {
                &&& final(self).awaits(batch)
                &&& page_fits(batch.candidates@, limits)
                &&& batch.candidates@.len() > 0
            },
            result matches Ok(ResumablePathMaterialization::Progress) ==> final(
                self).protocol.state is NeedCandidates,
            result matches Ok(ResumablePathMaterialization::Complete) ==> final(
                self).protocol.state is Complete,
            result matches Ok(outcome) ==> old(self).paged(
                *final(self),
                outcome,
                node_store,
                neighbors,
                *relationships,
                edge_type_filter,
                limits,
                old(governor)@,
                final(governor)@,
            ),
            result matches Err(error) ==> search_page_error(
                error@,
                limits,
                old(governor)@,
                old(self).protocol.next_sequence,
                old(self).edges_ahead(neighbors, limits),
                edge_type_filter,
                None,
                node_store.nodes(),
                *relationships,
            ),
    {
        let (cost, current): (u64, u32) = match self.next_entry(limits.max_candidates) {
            NextEntry::Node(entry) => entry,
            NextEntry::Dropped => return Ok(ResumablePathMaterialization::Progress),
            NextEntry::Over => return Ok(ResumablePathMaterialization::Complete),
        };
        let ghost chosen = *self;
        let ghost row = neighbors.weighted_adjacency(current);
        let ghost first = self.resolved@;
        let ghost steps = self.steps@;
        let ghost source = self.protocol.source;
        let ghost target = self.protocol.target;
        self.pager.fill_weighted_page(current, neighbors, limits.max_candidates);
        let ghost ahead = strip_weights(row).subrange(
            first as int,
            self.pager.cursor.position as int,
        );
        assert(ahead == old(self).edges_ahead(neighbors, limits));
        let gathered: GraphResult<(Vec<BfsAdjacencyCandidate>, Vec<u32>)> =
            gather_weighted_candidates(
            &mut self.pager,
            &mut self.protocol.next_sequence,
            current,
            edge_type_filter,
            limits,
            node_store,
            relationships,
            governor,
            Ghost(row),
        );
        let (candidates, weights): (Vec<BfsAdjacencyCandidate>, Vec<u32>) = match gathered {
            Ok(gathered) => gathered,
            Err(error) => return Err(error),
        };
        let ghost next = self.pager.taken() as nat;
        let ghost edges = passing_weighted(
            row.subrange(first as int, next as int),
            edge_type_filter,
        );
        let exhausted: bool = self.pager.pending.len() == 0 && self.pager.exhausts_node;
        self.upto = Ghost(next);
        assert(candidate_edges(candidates@).len() == strip_weights(edges).len());
        if candidates.len() == 0 {
            self.resolved = Ghost(next);
            if exhausted {
                self.active = None;
                self.pager = WeightedRowPager::start();
                self.open = Ghost(false);
                self.steps = Ghost((steps + 1) as nat);
            }
            proof {
                assert(strip_weights(edges).len() == 0);
                assert(edges =~= Seq::<WeightedNeighbor>::empty());
                assert forall|world: WeightedWorld|
                    #![trigger chosen.tracks(world)]
                    chosen.tracks(world) && world.fits(
                        node_store,
                        neighbors,
                        edge_type_filter,
                    ) implies self.tracks(world) by {
                    let g = world.graph;
                    let base = run(g, start_frontier(world.nodes, source), target, steps);
                    assert((g.adjacency)(current) == row);
                    lemma_page_relaxed(
                        g,
                        take_entry(base, (cost, current)),
                        current,
                        cost,
                        row,
                        first as int,
                        next as int,
                        edge_type_filter,
                    );
                    assert(row.take(row.len() as int) =~= row);
                    lemma_step(world, source, target, steps);
                }
            }
            return Ok(ResumablePathMaterialization::Progress);
        }
        self.asked = Ghost(edges);
        self.page = AskedEdges::of(&candidates, current, 0);
        self.pending_weights = weights;
        if exhausted {
            self.active = None;
            self.pager = WeightedRowPager::start();
        }
        let batch: BfsAdjacencyCandidateBatch = match self.protocol.finish_path_batch(
            candidates,
            exhausted,
            limits,
        ) {
            Ok(batch) => batch,
            Err(error) => return Err(error),
        };
        proof {
            assert forall|world: WeightedWorld|
                #![trigger chosen.tracks(world)]
                chosen.tracks(world) && world.fits(
                    node_store,
                    neighbors,
                    edge_type_filter,
                ) implies self.tracks(world) by {
                let g = world.graph;
                let base = run(g, start_frontier(world.nodes, source), target, steps);
                assert((g.adjacency)(current) == row);
                lemma_page_relaxed(
                    g,
                    take_entry(base, (cost, current)),
                    current,
                    cost,
                    row,
                    first as int,
                    next as int,
                    edge_type_filter,
                );
            }
        }
        Ok(ResumablePathMaterialization::Batch(batch))
    }
}

/// Asks for the next page: endpoints first, then edges. Memory for the page is
/// reserved while it is made; work is charged per edge.
pub fn materialize_resumable_dijkstra_batch<W: WeightedNeighborSource>(
    machine: &mut ResumableDijkstra,
    node_store: &NodeStore,
    neighbors: &W,
    relationships: &RelationshipIdentities,
    edge_type_filter: Option<&RoaringBitmap>,
    limits: BfsCandidateLimits,
    governor: &mut ResourceGovernor,
) -> (result: GraphResult<ResumablePathMaterialization>)
    requires
        old(machine).wf(),
        old(machine).reads(neighbors),
        node_store.wf(),
    ensures
        charged(
            old(governor)@,
            final(governor)@,
            page_work(
                old(machine).edges_ahead(neighbors, limits),
                0,
                edge_type_filter,
                None,
                limits,
                node_store.nodes(),
                *relationships,
            ) as int,
        ),
        result is Ok ==> old(machine).asked_on(
            *final(machine),
            node_store,
            neighbors,
            edge_type_filter,
        ),
        result matches Ok(ResumablePathMaterialization::Batch(batch)) ==> {
            &&& final(machine).awaits(batch)
            &&& page_fits(batch.candidates@, limits)
            &&& batch.candidates@.len() > 0
        },
        result matches Ok(ResumablePathMaterialization::Progress) ==> final(
            machine).protocol.state is NeedCandidates,
        result matches Ok(ResumablePathMaterialization::Complete) ==> final(
            machine).protocol.state is Complete,
        result matches Ok(outcome) ==> old(machine).protocol.state is NeedEndpoints || old(
            machine,
        ).paged(
            *final(machine),
            outcome,
            node_store,
            neighbors,
            *relationships,
            edge_type_filter,
            limits,
            old(governor)@,
            final(governor)@,
        ),
        result matches Err(error) ==> {
            ||| materialize_error(
                error@,
                old(machine).protocol.state,
                old(machine).protocol.next_sequence,
                limits,
                old(governor)@,
                old(machine).edges_ahead(neighbors, limits),
                edge_type_filter,
                None,
                node_store.nodes(),
                *relationships,
            )
            ||| old(machine).protocol.state is NeedEndpoints && endpoint_error(
                error@,
                limits,
                old(machine).protocol.next_sequence,
                old(machine).protocol.source,
                old(machine).protocol.target,
                node_store.nodes(),
            )
        },
{
    if let Err(error) = validate_path_materialization(machine.protocol.state, limits) {
        return Err(error);
    }
    let leased: u64 = match reserve_path_page_workspace(governor, limits) {
        Ok(leased) => leased,
        Err(error) => return Err(error),
    };
    if machine.protocol.state == ResumablePathState::NeedEndpoints {
        let asked: GraphResult<BfsAdjacencyCandidateBatch> =
            machine.protocol.materialize_endpoint_batch(node_store, limits);
        governor.release_memory(leased);
        return match asked {
            Ok(batch) => Ok(ResumablePathMaterialization::Batch(batch)),
            Err(error) => Err(error),
        };
    }
    let ghost before = *machine;
    let result: GraphResult<ResumablePathMaterialization> = machine.search_page(
        node_store,
        neighbors,
        relationships,
        edge_type_filter,
        limits,
        governor,
    );
    governor.release_memory(leased);
    proof {
        if result matches Ok(ResumablePathMaterialization::Batch(_)) {
            let most = limits.max_candidates as nat;
            let entry = before.next_step(most)->Node_0;
            let row = neighbors.weighted_adjacency(entry.1);
            let taken = row.subrange(before.page_start(), machine.upto@ as int);
            lemma_passing_stripped(taken, edge_type_filter);
            lemma_passing_passes(strip_weights(taken), edge_type_filter);
        }
    }
    result
}

/// Whether the identity that a candidate was asked with is still that of its
/// relationship.
pub open spec fn identity_kept(
    candidate: BfsAdjacencyCandidate,
    relationships: RelationshipIdentities,
) -> bool {
    candidate.relationship_id matches Some(id) ==> match relationships.identity(id) {
        Some((mapping, key)) => candidate.relationship_mapping_id == Some(mapping)
            && candidate.relationship_source_key is Some
            && candidate.relationship_source_key->Some_0@ == key,
        None => false,
    }
}

/// Whether the identity that a candidate was asked with is still that of its
/// relationship.
pub fn is_identity_kept(
    candidate: &BfsAdjacencyCandidate,
    relationships: &RelationshipIdentities,
) -> (kept: bool)
    ensures
        kept == identity_kept(*candidate, *relationships),
{
    match candidate.relationship_id {
        None => true,
        Some(id) => match relationships.path_relationship_identity(id) {
            None => false,
            Some(identity) => {
                let same_mapping: bool = match candidate.relationship_mapping_id {
                    Some(mapping) => mapping == identity.mapping_id,
                    None => false,
                };
                let same_key: bool = match &candidate.relationship_source_key {
                    Some(key) => same_text(key.as_str(), identity.source_key.as_str()),
                    None => false,
                };
                same_mapping && same_key
            },
        },
    }
}

/// A queue with one more entry.
proof fn lemma_insert_contained(queue: vstd::multiset::Multiset<(u64, u32)>, entry: (u64, u32))
    ensures
        forall|other: (u64, u32)| #[trigger]
            queue.insert(entry).contains(other) ==> queue.contains(other) || other == entry,
{
    broadcast use vstd::multiset::group_multiset_axioms;
}

impl ResumableDijkstra {
    /// Takes answers about edges: each one that is followed is relaxed.
    #[verifier::spinoff_prover]
    #[verifier::rlimit(60)]
    fn apply_edges(
        &mut self,
        batch: &BfsAdjacencyCandidateBatch,
        verdicts: &Vec<BfsAdjacencyVerdict>,
        relationships: &RelationshipIdentities,
        node_store: &NodeStore,
        deleted_nodes: &RoaringBitmap,
        governor: &mut ResourceGovernor,
    ) -> (result: GraphResult<()>)
        requires
            old(self).wf(),
            old(self).started(),
            old(self).awaits(*batch),
            answers(*batch, verdicts@),
            node_store.wf(),
            node_store.nodes().len() == old(self).dist@.len(),
        ensures
            ({
                let bytes = old(self).answer_bytes(
                    node_store,
                    *deleted_nodes,
                    *batch,
                    verdicts@,
                    *relationships,
                );
                let taken = old(self).answers_taken(
                    node_store,
                    *deleted_nodes,
                    *batch,
                    verdicts@,
                    *relationships,
                );
                &&& grown(old(governor)@, final(governor)@, bytes)
                &&& match result {
                    Ok(_) => {
                        &&& old(governor)@.affords_memory(bytes)
                        &&& taken == verdicts@.len()
                        &&& final(governor)@ == old(governor)@.after_memory(bytes)
                    },
                    Err(error) => if !old(governor)@.affords_memory(bytes) {
                        error@ == limit_error(ResourcePhase::QueryPaths, ResourceKind::Memory)
                    } else {
                        &&& taken < verdicts@.len()
                        &&& error@ == ErrorView::Internal(
                            "weighted candidate identity changed across visibility resolution"@,
                        )
                    },
                }
            }),
            result is Ok ==> {
                &&& final(self).wf()
                &&& final(self).protocol.state is NeedCandidates
                &&& final(self).protocol.same_answers(&old(self).protocol)
                &&& final(self).dist@.len() == old(self).dist@.len()
                &&& final(self).pager == old(self).pager
                &&& final(self).active == old(self).active
                &&& forall|world: WeightedWorld|
                    #![trigger old(self).tracks(world)]
                    old(self).tracks(world) && old(self).judged_by(
                        world,
                        node_store,
                        *deleted_nodes,
                        *batch,
                        verdicts@,
                    ) ==> final(self).tracks(world)
            },
    {
        let ghost begun = *self;
        let ghost before = self.state@;
        let ghost asked = self.asked@;
        let ghost ok = outcomes(node_store, *deleted_nodes, *batch, verdicts@);
        let current: u32 = batch.candidates[0].parent_node;
        let cost: u64 = match self.active {
            Some((cost, _)) => cost,
            None => self.dist[current as usize],
        };
        assert(batch.candidates@[0].parent_node == self.opened@.1);
        assert(cost == self.opened@.0);
        let ghost taken = self.answers_taken(
            node_store,
            *deleted_nodes,
            *batch,
            verdicts@,
            *relationships,
        );
        let ghost bytes = self.answer_bytes(
            node_store,
            *deleted_nodes,
            *batch,
            verdicts@,
            *relationships,
        );
        let ghost mut reserved: int = 0;
        let mut at: usize = 0;
        proof {
            assert(asked.take(0) =~= Seq::<WeightedNeighbor>::empty());
            assert(candidate_edges(batch.candidates@).len() == strip_weights(asked).len());
        }
        while at < verdicts.len()
            invariant
                node_store.wf(),
                at <= verdicts@.len() == batch.candidates@.len() == asked.len(),
                begun == *old(self),
                begun.wf(),
                begun.started(),
                begun.awaits(*batch),
                begun.protocol.state is NeedVisibility,
                before == begun.state@,
                asked == begun.asked@,
                ok == outcomes(node_store, *deleted_nodes, *batch, verdicts@),
                candidate_edges(batch.candidates@) == strip_weights(asked),
                node_store.nodes().len() == self.dist@.len() == begun.dist@.len(),
                (cost, current) == begun.opened@,
                taken == kept_answers(ok, batch.candidates@, *relationships, at as int),
                taken == begun.answers_taken(
                    node_store,
                    *deleted_nodes,
                    *batch,
                    verdicts@,
                    *relationships,
                ),
                bytes == 512 * newly_queued(before, current, cost, asked.take(taken), ok),
                bytes == begun.answer_bytes(
                    node_store,
                    *deleted_nodes,
                    *batch,
                    verdicts@,
                    *relationships,
                ),
                reserved == newly_queued(before, current, cost, asked.take(at as int), ok),
                reserved >= 0,
                governor@ == old(governor)@.after_memory(512 * reserved),
                old(governor)@.affords_memory(512 * reserved),
                self.protocol == begun.protocol,
                self.pager == begun.pager,
                self.active == begun.active,
                self.pending_weights == begun.pending_weights,
                self.pending_weights@ == weights_of(asked),
                self.steps == begun.steps,
                self.open == begun.open,
                self.opened == begun.opened,
                self.upto == begun.upto,
                self.resolved == begun.resolved,
                self.state@ == relaxed_by(before, current, cost, asked.take(at as int), ok),
                self.heap.wf(),
                self.dist@ == self.state@.dist,
                self.parent@ == self.state@.parent,
                self.heap@ == self.state@.queue,
                self.dist@[current as int] == cost,
                forall|entry: (u64, u32)| #[trigger]
                    self.state@.queue.contains(entry) ==> entry.1 < self.dist@.len()
                        && self.dist@[entry.1 as int] <= entry.0,
            decreases verdicts@.len() - at,
        {
            let ghost state = self.state@;
            let candidate: &BfsAdjacencyCandidate = &batch.candidates[at];
            proof {
                lemma_relaxed_next(before, current, cost, asked, ok, at as int);
                assert(candidate_edges(batch.candidates@)[at as int] == candidate.edge());
                assert(strip_weights(asked)[at as int] == asked[at as int].unweighted());
                assert(ok[at as int] == followed(
                    node_store,
                    *deleted_nodes,
                    batch.candidates@[at as int],
                    verdicts@[at as int],
                ));
                assert(self.pending_weights@[at as int] == asked[at as int].weight);
                lemma_kept_answers(ok, batch.candidates@, *relationships, at as int);
                lemma_kept_answers(ok, batch.candidates@, *relationships, at + 1);
                lemma_queued_grows(before, current, cost, asked, ok, at as int, taken);
                if at < taken {
                    lemma_queued_grows(before, current, cost, asked, ok, at + 1, taken);
                }
                lemma_queued_next(before, current, cost, asked, ok, at as int);
            }
            if !is_followed(node_store, deleted_nodes, candidate, &verdicts[at]) {
                at = at + 1;
                continue ;
            }
            if !is_identity_kept(candidate, relationships) {
                return Err(
                    internal("weighted candidate identity changed across visibility resolution"),
                );
            }
            let weight: u32 = self.pending_weights[at];
            let target: u32 = candidate.target_node;
            if let Some(new_cost) = cost.checked_add(weight as u64) {
                if new_cost < self.dist[target as usize] {
                    if let Err(error) = governor.reserve_memory(
                        ResourcePhase::QueryPaths,
                        PATH_STATE_BYTES_PER_VISIT,
                    ) {
                        return Err(error);
                    }
                    self.dist[target as usize] = new_cost;
                    self.parent.insert(
                        target,
                        WeightedParentStep {
                            parent: current,
                            edge_type: candidate.edge_type,
                            edge_weight: weight,
                        },
                    );
                    self.heap.push((new_cost, target));
                    let ghost step = WeightedParentStep {
                        parent: current,
                        edge_type: candidate.edge_type,
                        edge_weight: weight,
                    };
                    self.state = Ghost(
                        (Frontier {
                            dist: state.dist.update(target as int, new_cost),
                            parent: state.parent.insert(target, step),
                            queue: state.queue.insert((new_cost, target)),
                            ..state
                        }),
                    );
                    proof {
                        reserved = reserved + 1;
                        lemma_insert_contained(state.queue, (new_cost, target));
                        assert(self.dist@ =~= self.state@.dist);
                    }
                }
            }
            at = at + 1;
        }
        assert(asked.take(at as int) =~= asked);
        self.pending_weights = Vec::new();
        self.protocol.state = ResumablePathState::NeedCandidates;
        self.protocol.pending_batch = None;
        self.protocol.pending_kind = None;
        if self.active.is_none() {
            self.open = Ghost(false);
            self.steps = Ghost((begun.steps@ + 1) as nat);
        } else {
            self.resolved = Ghost(self.upto@);
        }
        proof {
            assert forall|world: WeightedWorld|
                #![trigger begun.tracks(world)]
                begun.tracks(world) && begun.judged_by(
                    world,
                    node_store,
                    *deleted_nodes,
                    *batch,
                    verdicts@,
                ) implies self.tracks(world) by {
                let g = world.graph;
                let row = (g.adjacency)(current);
                assert forall|i: int| 0 <= i < asked.len() implies ok[i] == (g.allows)(
                    #[trigger] asked[i],
                ) by {
                    assert(verdicts@[i] == verdicts@[i]);
                }
                lemma_relaxed_relaxes(g, before, current, cost, asked, ok);
                assert(row.take(row.len() as int) =~= row);
                lemma_step(world, self.protocol.source, self.protocol.target, begun.steps@);
            }
        }
        Ok(())
    }
}

/// Takes the answers to the page that was asked for.
pub fn apply_resumable_dijkstra_verdicts(
    machine: &mut ResumableDijkstra,
    batch: &BfsAdjacencyCandidateBatch,
    verdicts: &Vec<BfsAdjacencyVerdict>,
    relationships: &RelationshipIdentities,
    node_store: &NodeStore,
    deleted_nodes: &RoaringBitmap,
    governor: &mut ResourceGovernor,
) -> (result: GraphResult<()>)
    requires
        old(machine).wf(),
        node_store.wf(),
        node_store.nodes().len() == old(machine).dist@.len(),
    ensures
        ({
            let bytes = old(machine).answer_bytes(
                node_store,
                *deleted_nodes,
                *batch,
                verdicts@,
                *relationships,
            );
            let taken = old(machine).answers_taken(
                node_store,
                *deleted_nodes,
                *batch,
                verdicts@,
                *relationships,
            );
            if !old(machine).awaits(*batch) || !answers(*batch, verdicts@) {
                &&& *final(machine) == *old(machine)
                &&& final(governor)@ == old(governor)@
                &&& result is Err
                &&& result->Err_0@ == refused_answers(old(machine).protocol.state)
            } else if !old(governor)@.affords_memory(bytes) {
                &&& grown(old(governor)@, final(governor)@, bytes)
                &&& result is Err
                &&& result->Err_0@ == limit_error(ResourcePhase::QueryPaths, ResourceKind::Memory)
            } else if old(machine).started() && taken < verdicts@.len() {
                &&& grown(old(governor)@, final(governor)@, bytes)
                &&& result is Err
                &&& result->Err_0@ == ErrorView::Internal(
                    "weighted candidate identity changed across visibility resolution"@,
                )
            } else {
                &&& final(governor)@ == old(governor)@.after_memory(bytes)
                &&& result is Ok
            }
        }),
        result is Ok ==> old(machine).answered_on(
            *final(machine),
            node_store,
            *deleted_nodes,
            *batch,
            verdicts@,
        ),
{
    let kind: PendingPathBatch = match machine.protocol.validate_path_verdicts(batch, verdicts) {
        Ok(kind) => kind,
        Err(error) => return Err(error),
    };
    let asked: bool = match kind {
        PendingPathBatch::Adjacency => machine.page.is_in_page(batch),
        PendingPathBatch::Endpoints => machine.protocol.is_asking(batch),
    };
    if !asked {
        return Err(internal("path machine received mismatched visibility verdicts"));
    }
    if kind == PendingPathBatch::Adjacency {
        assert(candidate_edges(batch.candidates@).len() == machine.page.edges@.len());
        return machine.apply_edges(
            batch,
            verdicts,
            relationships,
            node_store,
            deleted_nodes,
            governor,
        );
    }
    let ghost before = *machine;
    let _outcome: EndpointOutcome = machine.protocol.apply_endpoint_verdicts(batch, verdicts);
    proof {
        assert forall|world: WeightedWorld|
            #![trigger before.tracks(world)]
            before.tracks(world) && nodes_answered(*batch, verdicts@, world.shows) implies
            machine.tracks(world) by {
            assert(before.protocol.agrees(world.shows));
            lemma_start(world.graph, world.nodes, machine.protocol.source);
        }
    }
    Ok(())
}

/// The state in which a weighted search between nodes that may be seen ends,
/// if it reaches the target.
pub open spec fn weighted_answer(world: WeightedWorld, source: u32, target: u32) -> Option<
    Frontier,
> {
    let end = final_frontier(world.graph, world.nodes, source, target);
    if !(world.shows)(source) || !(world.shows)(target) || end.dist[target as int] == UNREACHED {
        None
    } else {
        Some(end)
    }
}

/// Bytes that a row's label is counted with.
pub open spec fn label_bytes(labels: EdgeTypeLabels<'_>, type_id: EdgeTypeId) -> nat {
    match labels.resolved(type_id) {
        Some(text) => encode_utf8(text).len(),
        None => if type_id.0 < labels.registry@.len() {
            encode_utf8(labels.registry@[type_id.0 as int]@).len()
        } else {
            8
        },
    }
}

/// Bytes of the texts in the rows of the first nodes of a path.
pub open spec fn line_text_bytes(
    nodes: Seq<NodeView>,
    parent: Map<u32, WeightedParentStep>,
    line: Seq<u32>,
    source: u32,
    labels: EdgeTypeLabels<'_>,
    count: nat,
) -> nat
    decreases count,
{
    if count == 0 {
        0
    } else {
        let node = line[count - 1];
        line_text_bytes(nodes, parent, line, source, labels, (count - 1) as nat) + encode_utf8(
            nodes[node as int].key,
        ).len() + if node == source {
            0
        } else {
            label_bytes(labels, parent[node].edge_type)
        }
    }
}

/// Bytes that the rows of a path reserve.
pub open spec fn weighted_output_bytes(
    nodes: Seq<NodeView>,
    parent: Map<u32, WeightedParentStep>,
    line: Seq<u32>,
    source: u32,
    labels: EdgeTypeLabels<'_>,
) -> nat {
    line.len() * (4 + vstd::layout::size_of::<WeightedPathStep>()) + line_text_bytes(
        nodes,
        parent,
        line,
        source,
        labels,
        line.len(),
    )
}

/// The entries that wait do not matter for the way back.
proof fn lemma_lineage_queue(left: Frontier, right: Frontier, source: u32, node: u32)
    requires
        left == (Frontier { queue: left.queue, ..right }),
    ensures
        lineage(left, source, node) == lineage(right, source, node),
        rank(left, node) == rank(right, node),
    decreases rank(left, node),
{
    let p = left.parent[node].parent;
    assert(rank(left, node) == rank(right, node));
    assert(rank(left, p) == rank(right, p));
    if !(node == source || !left.parent.dom().contains(node) || rank(left, p) >= rank(left, node)
        || rank(left, p) < 0) {
        lemma_lineage_queue(left, right, source, p);
    }
}

/// The nodes from the source to a node along recorded parents, unless there are
/// more of them than nodes.
fn collect_line(
    parent: &HashMap<u32, WeightedParentStep>,
    source: u32,
    target: u32,
    count: usize,
    Ghost(g): Ghost<crate::relaxation::WeightedGraph>,
    Ghost(end): Ghost<Frontier>,
) -> (line: Option<Vec<u32>>)
    requires
        parent@ == end.parent,
        target < count,
    ensures
        complete_inv(g, end, count as nat, source) && end.dist[target as int] < UNREACHED
            ==> line is Some && line->Some_0@ == lineage(end, source, target),
{
    let ghost sound = complete_inv(g, end, count as nat, source) && end.dist[target as int]
        < UNREACHED;
    let mut reversed: Vec<u32> = Vec::new();
    let mut current: u32 = target;
    proof {
        if sound {
            lemma_closed_fit(g, end, count as nat, source);
            lemma_rank_bound(end, target);
            assert(lineage(end, source, target) =~= lineage(end, source, current)
                + reversed@.reverse());
        }
    }
    while current != source
        invariant
            parent@ == end.parent,
            sound == (complete_inv(g, end, count as nat, source) && end.dist[target as int]
                < UNREACHED),
            reversed@.len() <= count,
            sound ==> {
                &&& current < count
                &&& end.dist[current as int] < UNREACHED
                &&& lineage(end, source, target) == lineage(end, source, current)
                    + reversed@.reverse()
                &&& reversed@.len() + rank(end, current) <= end.closed.len() <= count
                &&& 0 <= rank(end, current)
            },
        decreases count - reversed@.len(),
    {
        proof {
            if sound {
                lemma_frontier_shape(g, end, count as nat, source);
                lemma_reached(g, end, count as nat, source, current);
            }
        }
        if reversed.len() == count {
            return None;
        }
        let step: WeightedParentStep = match parent.get(&current) {
            Some(step) => *step,
            None => return None,
        };
        let ghost before = reversed@;
        reversed.push(current);
        proof {
            if sound {
                assert(reversed@.reverse() =~= seq![current] + before.reverse());
                assert(lineage(end, source, current) == lineage(end, source, step.parent).push(
                    current,
                ));
                assert(lineage(end, source, target) =~= lineage(end, source, step.parent)
                    + reversed@.reverse());
            }
        }
        current = step.parent;
    }
    let ghost before = reversed@;
    reversed.push(source);
    proof {
        if sound {
            assert(lineage(end, source, source) =~= seq![source]);
            assert(reversed@.reverse() =~= seq![source] + before.reverse());
            assert(lineage(end, source, target) == reversed@.reverse());
        }
    }
    let mut line: Vec<u32> = Vec::new();
    let mut left: usize = reversed.len();
    while left > 0
        invariant
            left <= reversed@.len(),
            line@ == reversed@.reverse().take(reversed@.len() - left),
        decreases left,
    {
        left = left - 1;
        line.push(reversed[left]);
        proof {
            assert(line@ =~= reversed@.reverse().take(reversed@.len() - left));
        }
    }
    proof {
        assert(reversed@.reverse().take(reversed@.len() as int) =~= reversed@.reverse());
    }
    Some(line)
}

/// No rank is larger than the number of settled nodes.
proof fn lemma_rank_bound(state: Frontier, node: u32)
    ensures
        0 <= rank(state, node) <= state.closed.len(),
{
    if state.closed.contains(node) {
        let i = choose|i: int| 0 <= i < state.closed.len() && state.closed[i] == node;
        assert(state.closed[i] == node);
    }
}

/// Bytes of the texts in the rows of a path, if they can be counted.
fn count_text_bytes(
    node_store: &NodeStore,
    parent: &HashMap<u32, WeightedParentStep>,
    line: &Vec<u32>,
    source: u32,
    labels: EdgeTypeLabels<'_>,
) -> (bytes: Option<u128>)
    requires
        node_store.wf(),
        line@.len() <= u32::MAX + 1,
        forall|i: int|
            0 <= i < line@.len() ==> (#[trigger] line@[i]) < node_store.nodes().len()
                && parent@.dom().contains(line@[i]),
    ensures
        bytes is Some,
        bytes matches Some(bytes) ==> bytes == line_text_bytes(
            node_store.nodes(),
            parent@,
            line@,
            source,
            labels,
            line@.len(),
        ) && bytes <= line@.len() * 0x2_0000_0000_0000_0000,
{
    let mut bytes: u128 = 0;
    let mut at: usize = 0;
    while at < line.len()
        invariant
            at <= line@.len() <= u32::MAX + 1,
            node_store.wf(),
            forall|i: int|
                0 <= i < line@.len() ==> (#[trigger] line@[i]) < node_store.nodes().len()
                    && parent@.dom().contains(line@[i]),
            bytes == line_text_bytes(
                node_store.nodes(),
                parent@,
                line@,
                source,
                labels,
                at as nat,
            ),
            bytes <= at * 0x2_0000_0000_0000_0000,
        decreases line@.len() - at,
    {
        let node: u32 = line[at];
        let key: usize = match node_store.primary_key(node) {
            Some(key) => key.as_bytes().len(),
            None => 0,
        };
        let step: WeightedParentStep = match parent.get(&node) {
            Some(step) => *step,
            None => WeightedParentStep {
                parent: node,
                edge_type: EdgeTypeId::untyped(),
                edge_weight: 0,
            },
        };
        let label: usize = if node == source {
            0
        } else {
            label_length(labels, step.edge_type)
        };
        bytes = bytes + key as u128 + label as u128;
        at = at + 1;
    }
    Some(bytes)
}

/// Bytes that a row's label is counted with.
fn label_length(labels: EdgeTypeLabels<'_>, type_id: EdgeTypeId) -> (bytes: usize)
    ensures
        bytes == label_bytes(labels, type_id),
{
    if let Some(table) = labels.resolver {
        if let Some(label) = table.lookup(type_id) {
            return label.as_str().as_bytes().len();
        }
    }
    if (type_id.get() as usize) < labels.registry.len() {
        return labels.registry[type_id.get() as usize].as_str().as_bytes().len();
    }
    8
}

impl ResumableDijkstra {
    /// Whether a search that is over ends with this: with the path that it found
    /// if there is room for it.
    pub open spec fn finished(
        &self,
        node_store: &NodeStore,
        labels: EdgeTypeLabels<'_>,
        before: GovernorView,
        after: GovernorView,
        result: GraphResult<Option<Vec<WeightedPathStep>>>,
    ) -> bool {
        &&& grown(before, after, u64::MAX as int)
        &&& forall|world: WeightedWorld|
            self.protocol.state is Complete && #[trigger] self.tracks(world) ==> {
                let source = self.protocol.source;
                let target = self.protocol.target;
                match weighted_answer(world, source, target) {
                    None => result is Ok && result->Ok_0 is None && after == before,
                    Some(end) => {
                        let line = lineage(end, source, target);
                        let bytes = weighted_output_bytes(
                            node_store.nodes(),
                            end.parent,
                            line,
                            source,
                            labels,
                        );
                        if line.len() <= i32::MAX && bytes <= u64::MAX && before.admits_memory(bytes as int) {
                            &&& result is Ok
                            &&& weighted_path_views(result->Ok_0) == Some(
                                weighted_path_view(
                                    node_store.nodes(),
                                    end,
                                    source,
                                    target,
                                    labels,
                                ),
                            )
                            &&& after == before.after_memory(bytes as int)
                        } else {
                            &&& result is Err
                            &&& if line.len() > i32::MAX || bytes > u64::MAX {
                                result->Err_0@ is Internal
                            } else {
                                result->Err_0@ == limit_error(
                                    ResourcePhase::QueryPaths,
                                    ResourceKind::Memory,
                                )
                            }
                        }
                    },
                }
            }
    }

    /// The path that was found. Its rows stay reserved.
    #[verifier::spinoff_prover]
    #[verifier::rlimit(40)]
    pub fn finish(
        self,
        node_store: &NodeStore,
        labels: EdgeTypeLabels<'_>,
        governor: &mut ResourceGovernor,
    ) -> (result: GraphResult<Option<Vec<WeightedPathStep>>>)
        requires
            self.wf(),
            node_store.addressable(),
            node_store.nodes().len() == self.dist@.len(),
        ensures
            self.finished(node_store, labels, old(governor)@, final(governor)@, result),
    {
        let source: u32 = self.protocol.source;
        let target: u32 = self.protocol.target;
        let shown: bool = self.protocol.source_visible == Some(true)
            && self.protocol.target_visible == Some(true);
        if !shown || self.dist[target as usize] == UNREACHED {
            return Ok(None);
        }
        let count: usize = self.dist.len();
        let ghost state = self.state@;
        let ghost sound = self.protocol.state is Complete && exists|world: WeightedWorld| #[trigger]
            self.tracks(world);
        let ghost known = choose|world: WeightedWorld| #[trigger] self.tracks(world);
        let ghost end = if sound {
            final_frontier(known.graph, known.nodes, source, target)
        } else {
            state
        };
        let collected: Option<Vec<u32>> = collect_line(
            &self.parent,
            source,
            target,
            count,
            Ghost(known.graph),
            Ghost(end),
        );
        let line: Vec<u32> = match collected {
            Some(line) => line,
            None => return Err(internal("weighted path parent chain is incomplete")),
        };
        proof {
            if sound {
                lemma_lineage_queue(state, end, source, target);
                lemma_lineage_recorded(known.graph, end, known.nodes, source, target);
            }
        }
        let mut at: usize = 0;
        while at < line.len()
            invariant
                at <= line@.len(),
                count == self.dist@.len(),
                *governor == *old(governor),
                sound ==> forall|i: int|
                    0 <= i < line@.len() ==> (#[trigger] line@[i]) < count
                        && self.parent@.dom().contains(line@[i]),
                sound == (self.protocol.state is Complete && exists|world: WeightedWorld|
                    #[trigger] self.tracks(world)),
                forall|i: int|
                    0 <= i < at ==> (#[trigger] line@[i]) < count && self.parent@.dom().contains(
                        line@[i],
                    ),
            decreases line@.len() - at,
        {
            if line[at] as usize >= count || self.parent.get(&line[at]).is_none() {
                return Err(internal("weighted path parent chain is incomplete"));
            }
            at = at + 1;
        }
        if line.len() > i32::MAX as usize {
            proof {
                assert forall|world: WeightedWorld|
                    self.protocol.state is Complete && #[trigger] self.tracks(world) implies
                    lineage(
                    final_frontier(world.graph, world.nodes, source, target),
                    source,
                    target,
                ) == line@ by {
                    lemma_lineage_queue(
                        state,
                        final_frontier(world.graph, world.nodes, source, target),
                        source,
                        target,
                    );
                }
            }
            return Err(internal("weighted path step count exceeds i32"));
        }
        let texts: u128 = match count_text_bytes(node_store, &self.parent, &line, source, labels) {
            Some(texts) => texts,
            None => return Err(internal("weighted path output size overflowed")),
        };
        let each: usize = core::mem::size_of::<WeightedPathStep>();
        let length: usize = line.len();
        proof {
            assert(length * (4 + each) <= 0x7fff_ffff * 0x1_0000_0000_0000_0003) by (nonlinear_arith)
                requires
                    0 <= length <= 0x7fff_ffff,
                    0 <= each <= 0xffff_ffff_ffff_ffff,
            ;
            assert(length * 0x2_0000_0000_0000_0000 <= 0x7fff_ffff * 0x2_0000_0000_0000_0000)
                by (nonlinear_arith)
                requires
                    0 <= length <= 0x7fff_ffff,
            ;
        }
        let total: u128 = length as u128 * (4 + each as u128) + texts;
        proof {
            assert forall|world: WeightedWorld|
                self.protocol.state is Complete && #[trigger] self.tracks(world) implies ({
                let other = final_frontier(world.graph, world.nodes, source, target);
                &&& lineage(other, source, target) == line@
                &&& total == weighted_output_bytes(
                    node_store.nodes(),
                    other.parent,
                    line@,
                    source,
                    labels,
                )
            }) by {
                lemma_lineage_queue(
                    state,
                    final_frontier(world.graph, world.nodes, source, target),
                    source,
                    target,
                );
            }
        }
        if total > u64::MAX as u128 {
            return Err(internal("weighted path output size overflowed"));
        }
        if let Err(error) = governor.reserve_memory(ResourcePhase::QueryPaths, total as u64) {
            return Err(error);
        }
        let steps: Vec<WeightedPathStep> = weighted_path_steps(
            node_store,
            &line,
            target,
            &self.dist,
            &self.parent,
            labels,
            Ghost(state),
        );
        proof {
            assert forall|world: WeightedWorld|
                self.protocol.state is Complete && #[trigger] self.tracks(world) implies
                weighted_step_views(steps@) == weighted_path_view(
                node_store.nodes(),
                final_frontier(world.graph, world.nodes, source, target),
                source,
                target,
                labels,
            ) by {
                let other = final_frontier(world.graph, world.nodes, source, target);
                assert(weighted_step_views(steps@) =~= weighted_path_view(
                    node_store.nodes(),
                    other,
                    source,
                    target,
                    labels,
                ));
            }
        }
        Ok(Some(steps))
    }
}

/// A weighted search in pages finds exactly the path that a search in one go
/// finds.
pub proof fn law_paged_weighted_search_is_eager<W: WeightedNeighborSource>(
    node_store: &NodeStore,
    neighbors: &W,
    source: u32,
    target: u32,
    labels: EdgeTypeLabels<'_>,
    context: QueryExecutionContext<'_>,
)
    requires
        neighbors.weighted(),
        source < node_store.nodes().len(),
        target < node_store.nodes().len(),
    ensures
        weighted_path(node_store, neighbors, source, target, labels, context)
            == match weighted_answer(
            weighted_query_world(node_store, neighbors, context),
            source,
            target,
        ) {
            Some(end) => Some(
                weighted_path_view(node_store.nodes(), end, source, target, labels),
            ),
            None => None,
        },
        weighted_query_world(node_store, neighbors, context).fits(
            node_store,
            neighbors,
            context.edge_type_filter,
        ),
{
    lemma_weighted_bounded(node_store, neighbors, context);
}

} // verus!
