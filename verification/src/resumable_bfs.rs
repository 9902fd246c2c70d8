//! Breadth-first path search from the source that pauses whenever it needs to
//! know whether edges may be seen.
use roaring::RoaringBitmap;
use std::collections::{HashMap, VecDeque};
use vstd::prelude::*;
use vstd::string::StringExecFns;

use crate::bitmap::bitmap_contents;
use crate::edge_labels::EdgeTypeLabels;
use crate::errors::{internal, ErrorView, GraphError, GraphResult};
use crate::neighbors::{least, Neighbor, NeighborSource};
use crate::node_store::NodeStore;
use crate::path_finder::{
    chained, lemma_partial_order, lemma_push_tracked, lemma_trail_in_order, parents_match,
    path_steps, path_view, path_views, request_labels, step_views, trail_nodes, unweighted_path,
    visited_matches, waiting, ParentStep, UnweightedPathRequest,
};
use crate::path_machine::{
    all_pass, candidate_edges, gather_candidates, lemma_passing_passes, limits_valid,
    materialize_error, page_asks, page_fits, page_takes, page_work, passing,
    reserve_path_page_workspace, search_page_error, stopped_after, validate_path_materialization,
    AskedEdges, BfsAdjacencyCandidate, BfsAdjacencyCandidateBatch, BfsAdjacencyVerdict,
    BfsCandidateLimits, BfsProjectionEpoch, PendingPathBatch, RelationshipIdentities,
    ResumablePathMaterialization, ResumablePathState, RowPager, PATH_STATE_BYTES_PER_VISIT,
};
use crate::path_protocol::{
    answers, endpoint_error, nodes_answered, page_mark, refused_answers, EndpointOutcome,
    PathProtocol,
};
use crate::path_world::{
    followed, is_followed, lemma_page_absorbed, lemma_settled_absorbs, lemma_settled_grows,
    lemma_settled_next, newly_found, outcomes, query_world, settled, PathWorld,
};
use crate::resource::{
    charged, grown, limit_error, GovernorView, ResourceGovernor, ResourceKind, ResourcePhase,
};
use crate::search::{
    absorb, bfs_trail, bounded, discovered, distinct, expanded, lemma_absorb, lemma_absorb_take,
    lemma_expanded, lemma_found_trail, lemma_not_found, lemma_order_bounded, lemma_trail_prefix,
    position_of, root_visit, trail, Visit,
};
use crate::text::decimal_text;
use crate::types::{EdgeTypeId, PathStep};
use crate::visibility::QueryExecutionContext;

verus! {

broadcast use vstd::std_specs::hash::group_hash_axioms;

/// A search from the source that holds no borrow of the graph between pages.
pub struct ResumableSingleDirectionBfs {
    pub protocol: PathProtocol,
    pub max_depth: i32,
    pub frontier: VecDeque<(u32, i32)>,
    pub visited: RoaringBitmap,
    pub parent: HashMap<u32, ParentStep>,
    pub pager: RowPager,
    pub active_node: Option<(u32, i32)>,
    pub found: bool,
    /// The edges that were asked for last.
    pub page: AskedEdges,
    /// Nodes in the order of their discovery.
    pub order: Ghost<Seq<Visit>>,
    /// How many of them have been expanded.
    pub done: Ghost<nat>,
    /// Whether the next one is being expanded.
    pub open: Ghost<bool>,
    /// How many of its edges have been answered.
    pub resolved: Ghost<nat>,
    /// How many of its edges have been asked for.
    pub upto: Ghost<nat>,
    /// The edges of the page that waits for answers.
    pub asked: Ghost<Seq<Neighbor>>,
}

/// The trail that a search from the source finds in a world.
pub open spec fn single_answer(
    world: PathWorld,
    source: u32,
    target: u32,
    max_depth: int,
) -> Option<Seq<(u32, EdgeTypeId)>> {
    if source >= world.nodes || target >= world.nodes || !(world.shows)(source) || !(world.shows)(
        target,
    ) {
        None
    } else if source == target {
        Some(seq![(source, EdgeTypeId(0))])
    } else {
        bfs_trail(world.graph, source, target, max_depth)
    }
}

/// The first visit from a place on that is not at the depth limit.
pub open spec fn next_visit(order: Seq<Visit>, from: int, max_depth: int) -> int
    decreases order.len() - from,
{
    if 0 <= from < order.len() && order[from].label >= max_depth {
        next_visit(order, from + 1, max_depth)
    } else {
        from
    }
}

impl ResumableSingleDirectionBfs {
    /// Whether edges are being searched.
    pub open spec fn started(&self) -> bool {
        ||| self.protocol.state is NeedCandidates
        ||| self.protocol.state is NeedVisibility && self.protocol.pending_kind == Some(
            PendingPathBatch::Adjacency,
        )
    }

    /// What always holds of the search.
    pub open spec fn wf(&self) -> bool {
        let order = self.order@;
        let done = self.done@;
        &&& self.protocol.wf()
        &&& chained(self.protocol.source, order)
        &&& distinct(order)
        &&& parents_match(order, self.parent@)
        &&& visited_matches(order, bitmap_contents(self.visited))
        &&& forall|i: int|
            0 <= i < order.len() ==> 0 <= (#[trigger] order[i]).label <= i32::MAX && (
            order[i].label <= self.max_depth || order[i].label == 0)
        &&& self.found ==> self.protocol.state is Complete && discovered(
            order,
            self.protocol.target,
        )
        &&& !(self.protocol.state is Complete) && !self.started() ==> {
            &&& order == seq![root_visit(self.protocol.source)]
            &&& done == 0
            &&& !self.open@
            &&& self.active_node is None
            &&& self.frontier@.len() == 0
        }
        &&& self.started() ==> {
            &&& !discovered(order, self.protocol.target)
            &&& self.frontier@ == waiting(
                order,
                if self.open@ {
                    (done + 1) as int
                } else {
                    done as int
                },
            )
            &&& self.open@ ==> done < order.len() && order[done as int].label < self.max_depth
            &&& !self.open@ ==> done <= order.len()
            &&& self.active_node matches Some((node, depth)) ==> {
                &&& self.open@
                &&& node == order[done as int].node
                &&& depth == order[done as int].label
            }
        }
        &&& self.protocol.state is NeedCandidates ==> {
            &&& self.open@ == (self.active_node is Some)
            &&& self.open@ ==> self.pager.taken() == self.resolved@
        }
        &&& self.protocol.state is NeedVisibility && self.started() ==> {
            &&& self.open@
            &&& self.resolved@ <= self.upto@
            &&& self.active_node is Some ==> self.pager.taken() == self.upto@
            &&& self.page.edges@ == self.asked@
            &&& self.page.parent == order[done as int].node
            &&& self.page.depth == order[done as int].label
        }
    }

    /// Whether the row that is being read is one of these.
    pub open spec fn reads<N: NeighborSource>(&self, neighbors: &N) -> bool {
        self.active_node matches Some((node, _)) ==> self.pager.in_row(neighbors.adjacency(node))
    }

    /// Whether the search is right about a world so far.
    pub open spec fn tracks(&self, world: PathWorld) -> bool {
        let g = world.graph;
        let order = self.order@;
        let done = self.done@;
        let limit = self.max_depth as int;
        let answer = single_answer(world, self.protocol.source, self.protocol.target, limit);
        let base = expanded(g, self.protocol.source, limit, done);
        let row = (g.adjacency)(base[done as int].node);
        let label = base[done as int].label + 1;
        &&& self.protocol.agrees(world.shows)
        &&& bounded(g, world.nodes)
        &&& self.protocol.state is Complete ==> {
            &&& !self.found ==> answer is None
            &&& self.found ==> answer == Some(
                trail(order, position_of(order, self.protocol.target)),
            ) && forall|i: int|
                0 <= i < order.len() ==> (#[trigger] order[i]).node < world.nodes
        }
        &&& !(self.protocol.state is Complete) ==> self.protocol.source < world.nodes
            && self.protocol.target < world.nodes
        &&& self.started() ==> {
            &&& self.protocol.source != self.protocol.target
            &&& !discovered(order, self.protocol.target)
            &&& !self.open@ ==> order == base
            &&& self.open@ ==> {
                &&& done < base.len()
                &&& base[done as int].label < limit
                &&& self.resolved@ <= row.len()
                &&& order == absorb(g, base, done as int, label, row.take(self.resolved@ as int))
            }
        }
        &&& self.started() && self.protocol.state is NeedVisibility ==> {
            &&& self.upto@ <= row.len()
            &&& self.active_node is None ==> self.upto@ == row.len()
            &&& absorb(g, order, done as int, label, self.asked@) == absorb(
                g,
                base,
                done as int,
                label,
                row.take(self.upto@ as int),
            )
        }
    }

    /// Which visit the next page expands: the end if none is left.
    pub open spec fn visit_at(&self) -> int {
        next_visit(self.order@, self.done@ as int, self.max_depth as int)
    }

    /// How many of that visit's edges earlier pages have taken.
    pub open spec fn page_start(&self) -> int {
        if self.active_node is Some {
            self.resolved@ as int
        } else {
            0
        }
    }

    /// The edges that the next page may take.
    pub open spec fn edges_ahead<N: NeighborSource>(
        &self,
        neighbors: &N,
        limits: BfsCandidateLimits,
    ) -> Seq<Neighbor> {
        let at = self.visit_at();
        let row = neighbors.adjacency(self.order@[at].node);
        if at >= self.order@.len() {
            Seq::empty()
        } else if self.active_node is Some {
            row.subrange(
                self.resolved@ as int,
                self.pager.ahead(row.len() as int, limits.max_candidates as int),
            )
        } else {
            row.subrange(0, least(limits.max_candidates as int, row.len() as int))
        }
    }

    /// Whether asking for a page of edges leads to this. The page takes edges
    /// of one visit, as many as fit, up to one that leads to the target, and
    /// each of them costs a unit of work. A page without candidates is not
    /// handed out: the search has gone on, or is over.
    pub open spec fn paged<N: NeighborSource>(
        &self,
        after: Self,
        outcome: ResumablePathMaterialization,
        node_store: &NodeStore,
        neighbors: &N,
        relationships: RelationshipIdentities,
        filter: Option<&RoaringBitmap>,
        limits: BfsCandidateLimits,
        governor: GovernorView,
        spent: GovernorView,
    ) -> bool {
        let order = self.order@;
        let nodes = node_store.nodes();
        let at = self.visit_at();
        let here = order[at];
        let row = neighbors.adjacency(here.node);
        let ahead = self.edges_ahead(neighbors, limits);
        let stop = Some(self.protocol.target);
        let count = after.upto@ - self.page_start();
        let edges = passing(ahead.take(count), filter);
        let exhausted = after.upto@ == row.len() && !stopped_after(ahead, count, filter, stop);
        &&& after.order == self.order
        &&& after.parent == self.parent
        &&& after.visited == self.visited
        &&& after.found == self.found
        &&& if at >= order.len() {
            &&& outcome is Complete
            &&& after.done@ == order.len()
            &&& after.protocol.next_sequence == self.protocol.next_sequence
            &&& spent == governor
        } else {
            &&& page_takes(ahead, count, filter, stop, limits, nodes, relationships)
            &&& governor.affords(count)
            &&& spent == governor.after_work(count)
            &&& after.protocol.next_sequence == self.protocol.next_sequence + edges.len()
            &&& after.active_node == if exhausted {
                None
            } else {
                Some((here.node, here.label as i32))
            }
            &&& !exhausted ==> after.pager.cursor.position == self.page_start() + ahead.len()
            &&& match outcome {
                ResumablePathMaterialization::Batch(batch) => {
                    &&& edges.len() > 0
                    &&& after.done@ == at
                    &&& after.resolved@ == self.page_start()
                    &&& page_asks(
                        batch,
                        edges,
                        exhausted,
                        self.protocol.next_sequence,
                        here.node,
                        here.label,
                        nodes,
                        relationships,
                    )
                },
                ResumablePathMaterialization::Progress => {
                    &&& edges.len() == 0
                    &&& after.resolved@ == after.upto@
                    &&& after.done@ == if exhausted {
                        at + 1
                    } else {
                        at
                    }
                    &&& after.done@ < order.len()
                },
                ResumablePathMaterialization::Complete => {
                    &&& edges.len() == 0
                    &&& exhausted
                    &&& after.done@ == at + 1
                    &&& after.done@ == order.len()
                },
            }
        }
    }

    /// Bytes that taking answers reserves: for each node that they discover.
    pub open spec fn answer_bytes(
        &self,
        node_store: &NodeStore,
        deleted: RoaringBitmap,
        batch: BfsAdjacencyCandidateBatch,
        verdicts: Seq<BfsAdjacencyVerdict>,
    ) -> int {
        let done = self.done@ as int;
        if self.started() {
            512 * newly_found(
                self.order@,
                done,
                self.order@[done].label + 1,
                self.asked@,
                outcomes(node_store, deleted, batch, verdicts),
                Some(self.protocol.target),
            )
        } else {
            0
        }
    }

    /// Whether a page is the one that waits for answers.
    pub open spec fn awaits(&self, batch: BfsAdjacencyCandidateBatch) -> bool {
        &&& self.protocol.state is NeedVisibility
        &&& self.protocol.pending_batch == Some(page_mark(batch))
        &&& self.started() ==> {
            let here = self.order@[self.done@ as int];
            &&& candidate_edges(batch.candidates@) == self.asked@
            &&& forall|i: int|
                0 <= i < batch.candidates@.len() ==> (#[trigger] batch.candidates@[i]).parent_node
                    == here.node && batch.candidates@[i].parent_depth == here.label
        }
        &&& !self.started() ==> self.protocol.asks_endpoints(batch)
    }

    /// Whether nothing has been asked yet: the search is right about every
    /// graph, and over if one of its nodes does not exist.
    pub open spec fn begins(
        &self,
        node_count: nat,
        source: u32,
        target: u32,
        max_depth: i32,
    ) -> bool {
        &&& self.wf()
        &&& self.protocol.source == source
        &&& self.protocol.target == target
        &&& self.max_depth == max_depth
        &&& self.active_node is None
        &&& self.protocol.projection_epoch is None
        &&& self.protocol.state == if source < node_count && target < node_count {
            ResumablePathState::NeedEndpoints
        } else {
            ResumablePathState::Complete
        }
        &&& forall|world: PathWorld|
            world.nodes == node_count && bounded(world.graph, world.nodes)
                ==> #[trigger] self.tracks(world)
    }

    /// Whether the search goes on rightly when a page is asked for: whatever it
    /// was right about, it still is.
    pub open spec fn asked_on<N: NeighborSource>(
        &self,
        after: Self,
        node_store: &NodeStore,
        neighbors: &N,
        filter: Option<&RoaringBitmap>,
    ) -> bool {
        &&& after.wf()
        &&& after.reads(neighbors)
        &&& after.protocol.same_answers(&self.protocol)
        &&& after.max_depth == self.max_depth
        &&& after.protocol.state is NeedVisibility && after.started() ==> all_pass(
            after.page.edges@,
            filter,
        )
        &&& forall|world: PathWorld|
            #![trigger self.tracks(world)]
            self.tracks(world) && world.fits(node_store, neighbors, filter) ==> after.tracks(world)
    }

    /// Whether the search goes on rightly when answers are taken: whatever it
    /// was right about, it still is if the answers are right.
    pub open spec fn answered_on(
        &self,
        after: Self,
        node_store: &NodeStore,
        deleted: RoaringBitmap,
        batch: BfsAdjacencyCandidateBatch,
        verdicts: Seq<BfsAdjacencyVerdict>,
    ) -> bool {
        &&& after.wf()
        &&& !(after.protocol.state is NeedVisibility)
        &&& after.pager == self.pager
        &&& after.active_node == self.active_node
        &&& after.protocol.source == self.protocol.source
        &&& after.protocol.target == self.protocol.target
        &&& after.max_depth == self.max_depth
        &&& after.protocol.projection_epoch == self.protocol.projection_epoch
        &&& forall|world: PathWorld|
            #![trigger self.tracks(world)]
            self.tracks(world) && (if self.started() {
                world.judges(node_store, deleted, batch, verdicts)
            } else {
                nodes_answered(batch, verdicts, world.shows)
            }) ==> after.tracks(world)
    }

    /// A search that has asked nothing yet. One between nodes that do not
    /// exist is over.
    pub fn try_new(node_count: usize, source: u32, target: u32, max_depth: i32) -> (result: GraphResult<
        Self,
    >)
        ensures
            result is Ok,
            result->Ok_0.begins(node_count as nat, source, target, max_depth),
    {
        let valid: bool = (source as usize) < node_count && (target as usize) < node_count;
        let mut visited = RoaringBitmap::new();
        let mut parent: HashMap<u32, ParentStep> = HashMap::new();
        visited.insert(source);
        parent.insert(
            source,
            ParentStep { parent: source, edge_type: EdgeTypeId::untyped(), depth: 0 },
        );
        let ghost root = seq![root_visit(source)];
        let machine = ResumableSingleDirectionBfs {
            protocol: PathProtocol::new(source, target, valid),
            max_depth,
            frontier: VecDeque::new(),
            visited,
            parent,
            pager: RowPager::start(),
            active_node: None,
            found: false,
            page: AskedEdges::none(),
            order: Ghost(root),
            done: Ghost(0),
            open: Ghost(false),
            resolved: Ghost(0),
            upto: Ghost(0),
            asked: Ghost(Seq::empty()),
        };
        proof {
            let order = machine.order@;
            assert(order[0] == root_visit(source));
            assert forall|node: u32| #[trigger]
                bitmap_contents(machine.visited).contains(node) <==> discovered(order, node) by {
                if node == source {
                    assert(order[0].node == node);
                }
            }
        }
        Ok(machine)
    }

    /// Ties the search to a state of the projection.
    pub fn bind_projection_epoch(&mut self, epoch: BfsProjectionEpoch)
        ensures
            final(self).protocol == (PathProtocol {
                projection_epoch: Some(epoch),
                ..old(self).protocol
            }),
            old(self).wf() ==> final(self).wf(),
            forall|world: PathWorld| #[trigger]
                old(self).tracks(world) ==> final(self).tracks(world),
            forall|batch: BfsAdjacencyCandidateBatch| #[trigger]
                old(self).awaits(batch) ==> final(self).awaits(batch),
            final(self).active_node == old(self).active_node,
            final(self).pager == old(self).pager,
    {
        self.protocol.projection_epoch = Some(epoch);
        proof {
            assert forall|batch: BfsAdjacencyCandidateBatch| #[trigger]
                old(self).awaits(batch) implies self.awaits(batch) by {
                if !self.started() {
                    assert(old(self).protocol.asks_endpoints(batch));
                    assert(self.protocol.resolved() == old(self).protocol.resolved());
                }
            }
        }
    }

    /// Fails unless the projection is the one that the search was tied to.
    pub fn require_projection_epoch(&self, actual: BfsProjectionEpoch) -> (result: GraphResult<()>)
        ensures
            result is Ok <==> self.protocol.projection_epoch == Some(actual),
            result matches Err(error) ==> error@ == ErrorView::Internal(
                "projection changed while path visibility was being resolved; retry the graph query"@,
            ),
    {
        self.protocol.require_projection_epoch(actual)
    }

    /// Whether the search is over.
    pub fn is_complete(&self) -> (complete: bool)
        ensures
            complete == (self.protocol.state is Complete),
    {
        self.protocol.state == ResumablePathState::Complete
    }
}

impl ResumableSingleDirectionBfs {
    /// The node to read edges of: the one that is being expanded, or the next
    /// that is not at the depth limit.
    fn next_node(&mut self) -> (node: Option<(u32, i32)>)
        requires
            old(self).wf(),
            old(self).protocol.state is NeedCandidates,
        ensures
            final(self).wf(),
            final(self).protocol == old(self).protocol,
            final(self).max_depth == old(self).max_depth,
            final(self).found == old(self).found,
            final(self).order == old(self).order,
            final(self).parent == old(self).parent,
            final(self).visited == old(self).visited,
            final(self).done@ == old(self).visit_at(),
            node is Some ==> final(self).resolved@ == old(self).page_start(),
            forall|world: PathWorld| #[trigger]
                old(self).tracks(world) ==> final(self).tracks(world),
            old(self).active_node is Some ==> *final(self) == *old(self),
            old(self).active_node is None ==> final(self).pager.pending@.len() == 0 && final(
                self).pager.cursor.position == 0 && forall|row: Seq<Neighbor>| #[trigger]
                final(self).pager.in_row(row),
            match node {
                Some(node) => final(self).active_node == Some(node),
                None => final(self).active_node is None && final(self).done@
                    == final(self).order@.len(),
            },
    {
        if let Some(active) = self.active_node {
            return Some(active);
        }
        self.pager = RowPager::start();
        while self.frontier.len() > 0
            invariant
                self.wf(),
                self.protocol == old(self).protocol,
                self.protocol.state is NeedCandidates,
                self.max_depth == old(self).max_depth,
                self.found == old(self).found,
                self.order == old(self).order,
                self.parent == old(self).parent,
                self.visited == old(self).visited,
                next_visit(self.order@, self.done@ as int, self.max_depth as int) == old(
                    self).visit_at(),
                self.active_node is None,
                old(self).active_node is None,
                self.pager.taken() == 0,
                self.pager.pending@.len() == 0,
                forall|row: Seq<Neighbor>| #[trigger] self.pager.in_row(row),
                forall|world: PathWorld| #[trigger]
                    old(self).tracks(world) ==> self.tracks(world),
            decreases self.frontier@.len(),
        {
            let ghost before = *self;
            let ghost order = self.order@;
            let ghost done = self.done@;
            let entry: (u32, i32) = match self.frontier.pop_front() {
                Some(entry) => entry,
                None => return None,
            };
            proof {
                assert(before.frontier@[0] == (order[done as int].node, order[done as int].label
                    as i32));
                assert(self.frontier@ =~= waiting(order, (done + 1) as int));
            }
            if entry.1 < self.max_depth {
                self.active_node = Some(entry);
                self.open = Ghost(true);
                self.resolved = Ghost(0);
                proof {
                    assert forall|world: PathWorld| #[trigger] before.tracks(world) implies
                        self.tracks(world) by {
                        let g = world.graph;
                        let base = expanded(
                            g,
                            self.protocol.source,
                            self.max_depth as int,
                            done,
                        );
                        let row = (g.adjacency)(base[done as int].node);
                        assert(row.take(0) =~= Seq::<Neighbor>::empty());
                    }
                }
                return Some(entry);
            }
            self.done = Ghost((done + 1) as nat);
            proof {
                assert forall|world: PathWorld| #[trigger] before.tracks(world) implies
                    self.tracks(world) by {
                    let limit = self.max_depth as int;
                    assert(expanded(world.graph, self.protocol.source, limit, (done + 1) as nat)
                        == expanded(world.graph, self.protocol.source, limit, done));
                }
            }
        }
        None
    }
}

/// Whether one search stands after another has taken edges of the visit that
/// is being expanded, up to the `next`. Those that pass are asked for, if
/// there are any. If not, and nothing is left to expand, the search is over.
spec fn took_edges(
    before: ResumableSingleDirectionBfs,
    after: ResumableSingleDirectionBfs,
    next: nat,
    edges: Seq<Neighbor>,
    exhausted: bool,
) -> bool {
    &&& before.wf()
    &&& before.protocol.state is NeedCandidates
    &&& before.active_node is Some
    &&& before.resolved@ <= next
    &&& after.protocol.wf()
    &&& after.protocol.same_answers(&before.protocol)
    &&& after.max_depth == before.max_depth
    &&& after.frontier == before.frontier
    &&& after.visited == before.visited
    &&& after.parent == before.parent
    &&& after.found == before.found
    &&& after.order == before.order
    &&& after.upto@ == next
    &&& after.active_node == if exhausted {
        None
    } else {
        before.active_node
    }
    &&& !exhausted ==> after.pager.taken() == next
    &&& if edges.len() == 0 {
        &&& after.protocol.state == if exhausted && before.frontier@.len() == 0 {
            ResumablePathState::Complete
        } else {
            ResumablePathState::NeedCandidates
        }
        &&& after.resolved@ == next
        &&& after.open@ == !exhausted
        &&& after.done@ == if exhausted {
            (before.done@ + 1) as nat
        } else {
            before.done@
        }
    } else {
        &&& after.protocol.state is NeedVisibility
        &&& after.protocol.pending_kind == Some(PendingPathBatch::Adjacency)
        &&& after.resolved == before.resolved
        &&& after.open@
        &&& after.done == before.done
        &&& after.asked@ == edges
        &&& after.page.edges@ == edges
        &&& before.active_node == Some((after.page.parent, after.page.depth))
    }
}

/// Taking edges leaves the search well-formed.
proof fn lemma_took_wf(
    before: ResumableSingleDirectionBfs,
    after: ResumableSingleDirectionBfs,
    next: nat,
    edges: Seq<Neighbor>,
    exhausted: bool,
)
    requires
        took_edges(before, after, next, edges, exhausted),
    ensures
        after.wf(),
{
}

/// Taking edges of a world's row leaves the search right about the world.
proof fn lemma_took_tracks<N: NeighborSource>(
    before: ResumableSingleDirectionBfs,
    after: ResumableSingleDirectionBfs,
    next: nat,
    exhausted: bool,
    row: Seq<Neighbor>,
    node_store: &NodeStore,
    neighbors: &N,
    filter: Option<&RoaringBitmap>,
    world: PathWorld,
)
    requires
        took_edges(
            before,
            after,
            next,
            passing(row.subrange(before.resolved@ as int, next as int), filter),
            exhausted,
        ),
        next <= row.len(),
        exhausted ==> next == row.len(),
        before.tracks(world),
        world.fits(node_store, neighbors, filter),
        row == neighbors.adjacency((before.active_node->Some_0).0),
    ensures
        after.tracks(world),
{
    let g = world.graph;
    let source = before.protocol.source;
    let limit = before.max_depth as int;
    let done = before.done@;
    let first = before.resolved@ as int;
    let base = expanded(g, source, limit, done);
    let label = base[done as int].label + 1;
    let own = (g.adjacency)(base[done as int].node);
    lemma_absorb(g, base, done as int, label, own.take(first));
    assert(before.order@[done as int] == base[done as int]);
    assert((g.adjacency)(base[done as int].node) == row);
    lemma_page_absorbed(g, base, done as int, label, row, first, next as int, filter);
    assert(row.take(row.len() as int) =~= row);
    if after.protocol.state is Complete {
        lemma_not_found(g, source, before.protocol.target, limit, after.done@);
    }
}

impl ResumableSingleDirectionBfs {
    /// Asks for edges of the next node, as many as fit a page.
    #[verifier::spinoff_prover]
    #[verifier::rlimit(60)]
    fn search_page<N: NeighborSource>(
        &mut self,
        node_store: &NodeStore,
        neighbors: &N,
        relationships: &RelationshipIdentities,
        edge_type_filter: Option<&RoaringBitmap>,
        limits: BfsCandidateLimits,
        governor: &mut ResourceGovernor,
    ) -> (result: GraphResult<ResumablePathMaterialization>)
        requires
            old(self).wf(),
            old(self).protocol.state is NeedCandidates,
            old(self).reads(neighbors),
            limits_valid(limits),
            node_store.wf(),
        ensures
            charged(
                old(governor)@,
                final(governor)@,
                page_work(
                    old(self).edges_ahead(neighbors, limits),
                    0,
                    edge_type_filter,
                    Some(old(self).protocol.target),
                    limits,
                    node_store.nodes(),
                    *relationships,
                ) as int,
            ),
            result is Ok ==> {
                &&& final(self).wf()
                &&& final(self).reads(neighbors)
                &&& final(self).protocol.same_answers(&old(self).protocol)
                &&& final(self).max_depth == old(self).max_depth
                &&& forall|world: PathWorld|
                    #![trigger old(self).tracks(world)]
                    old(self).tracks(world) && world.fits(
                        node_store,
                        neighbors,
                        edge_type_filter,
                    ) ==> final(self).tracks(world)
            },
            result matches Ok(ResumablePathMaterialization::Batch(batch)) ==> {
                &&& final(self).awaits(batch)
                &&& page_fits(batch.candidates@, limits)
                &&& batch.candidates@.len() > 0
            },
            result matches Ok(ResumablePathMaterialization::Progress) ==> final(self).protocol.state is NeedCandidates,
            result matches Ok(ResumablePathMaterialization::Complete) ==> final(self).protocol.state is Complete,
            result matches Ok(outcome) ==> old(self).paged(
                *final(self),
                outcome,
                node_store,
                neighbors,
                *relationships,
                edge_type_filter,
                limits,
                old(governor)@,
                final(governor)@,
            ),
            result matches Err(error) ==> search_page_error(
                error@,
                limits,
                old(governor)@,
                old(self).protocol.next_sequence,
                old(self).edges_ahead(neighbors, limits),
                edge_type_filter,
                Some(old(self).protocol.target),
                node_store.nodes(),
                *relationships,
            ),
    {
        let (current, current_depth): (u32, i32) = match self.next_node() {
            Some(node) => node,
            None => {
                let ghost before = *self;
                self.protocol.state = ResumablePathState::Complete;
                proof {
                    assert forall|world: PathWorld| #[trigger] before.tracks(world) implies
                        self.tracks(world) by {
                        lemma_not_found(
                            world.graph,
                            self.protocol.source,
                            self.protocol.target,
                            self.max_depth as int,
                            self.done@,
                        );
                    }
                }
                return Ok(ResumablePathMaterialization::Complete);
            },
        };
        let ghost chosen = *self;
        let ghost row = neighbors.adjacency(current);
        let ghost done = self.done@;
        let ghost first = self.resolved@;
        self.pager.fill_path_raw_page(current, neighbors, limits.max_candidates);
        let ghost ahead = row.subrange(first as int, self.pager.cursor.position as int);
        assert(ahead == old(self).edges_ahead(neighbors, limits));
        let gathered: GraphResult<(Vec<BfsAdjacencyCandidate>, bool)> = gather_candidates(
            &mut self.pager,
            &mut self.protocol.next_sequence,
            current,
            current_depth,
            Some(self.protocol.target),
            edge_type_filter,
            limits,
            node_store,
            relationships,
            governor,
            Ghost(row),
        );
        let (candidates, stopped_at_target): (Vec<BfsAdjacencyCandidate>, bool) = match gathered {
            Ok(gathered) => gathered,
            Err(error) => return Err(error),
        };
        let ghost next = self.pager.taken() as nat;
        let exhausted_current: bool = self.pager.pending.len() == 0 && self.pager.exhausts_node
            && !stopped_at_target;
        let ghost edges = candidate_edges(candidates@);
        self.upto = Ghost(next);
        assert(ahead.take(next - first) =~= row.subrange(first as int, next as int));
        if candidates.len() == 0 {
            self.resolved = Ghost(next);
            if exhausted_current {
                self.active_node = None;
                self.pager = RowPager::start();
                self.open = Ghost(false);
                self.done = Ghost((done + 1) as nat);
            }
            let over: bool = self.active_node.is_none() && self.frontier.len() == 0;
            if over {
                self.protocol.state = ResumablePathState::Complete;
            }
            proof {
                assert(edges.len() == 0);
                lemma_took_wf(chosen, *self, next, edges, exhausted_current);
                assert forall|world: PathWorld|
                    #![trigger chosen.tracks(world)]
                    chosen.tracks(world) && world.fits(
                        node_store,
                        neighbors,
                        edge_type_filter,
                    ) implies self.tracks(world) by {
                    lemma_took_tracks(
                        chosen,
                        *self,
                        next,
                        exhausted_current,
                        row,
                        node_store,
                        neighbors,
                        edge_type_filter,
                        world,
                    );
                }
            }
            return Ok(
                if over {
                    ResumablePathMaterialization::Complete
                } else {
                    ResumablePathMaterialization::Progress
                },
            );
        }
        self.asked = Ghost(edges);
        self.page = AskedEdges::of(&candidates, current, current_depth);
        if exhausted_current {
            self.active_node = None;
            self.pager = RowPager::start();
        }
        let batch: BfsAdjacencyCandidateBatch = match self.protocol.finish_path_batch(
            candidates,
            exhausted_current,
            limits,
        ) {
            Ok(batch) => batch,
            Err(error) => return Err(error),
        };
        proof {
            lemma_took_wf(chosen, *self, next, edges, exhausted_current);
            assert forall|world: PathWorld|
                #![trigger chosen.tracks(world)]
                chosen.tracks(world) && world.fits(
                    node_store,
                    neighbors,
                    edge_type_filter,
                ) implies self.tracks(world) by {
                lemma_took_tracks(
                    chosen,
                    *self,
                    next,
                    exhausted_current,
                    row,
                    node_store,
                    neighbors,
                    edge_type_filter,
                    world,
                );
            }
        }
        Ok(ResumablePathMaterialization::Batch(batch))
    }
}

/// Asks for the next page: endpoints first, then edges. Memory for the page is
/// reserved while it is made; work is charged per edge.
pub fn materialize_single_direction_path_batch<N: NeighborSource>(
    machine: &mut ResumableSingleDirectionBfs,
    node_store: &NodeStore,
    neighbors: &N,
    relationships: &RelationshipIdentities,
    edge_type_filter: Option<&RoaringBitmap>,
    limits: BfsCandidateLimits,
    governor: &mut ResourceGovernor,
) -> (result: GraphResult<ResumablePathMaterialization>)
    requires
        old(machine).wf(),
        old(machine).reads(neighbors),
        node_store.wf(),
    ensures
        charged(
            old(governor)@,
            final(governor)@,
            page_work(
                old(machine).edges_ahead(neighbors, limits),
                0,
                edge_type_filter,
                Some(old(machine).protocol.target),
                limits,
                node_store.nodes(),
                *relationships,
            ) as int,
        ),
        result is Ok ==> old(machine).asked_on(
            *final(machine),
            node_store,
            neighbors,
            edge_type_filter,
        ),
        result matches Ok(ResumablePathMaterialization::Batch(batch)) ==> {
            &&& final(machine).awaits(batch)
            &&& page_fits(batch.candidates@, limits)
            &&& batch.candidates@.len() > 0
        },
        result matches Ok(ResumablePathMaterialization::Progress) ==> final(
            machine).protocol.state is NeedCandidates,
        result matches Ok(ResumablePathMaterialization::Complete) ==> final(
            machine).protocol.state is Complete,
        result matches Ok(outcome) ==> old(machine).protocol.state is NeedEndpoints || old(
            machine,
        ).paged(
            *final(machine),
            outcome,
            node_store,
            neighbors,
            *relationships,
            edge_type_filter,
            limits,
            old(governor)@,
            final(governor)@,
        ),
        result matches Err(error) ==> {
            ||| materialize_error(
                error@,
                old(machine).protocol.state,
                old(machine).protocol.next_sequence,
                limits,
                old(governor)@,
                old(machine).edges_ahead(neighbors, limits),
                edge_type_filter,
                Some(old(machine).protocol.target),
                node_store.nodes(),
                *relationships,
            )
            ||| old(machine).protocol.state is NeedEndpoints && endpoint_error(
                error@,
                limits,
                old(machine).protocol.next_sequence,
                old(machine).protocol.source,
                old(machine).protocol.target,
                node_store.nodes(),
            )
        },
{
    if let Err(error) = validate_path_materialization(machine.protocol.state, limits) {
        return Err(error);
    }
    let leased: u64 = match reserve_path_page_workspace(governor, limits) {
        Ok(leased) => leased,
        Err(error) => return Err(error),
    };
    if machine.protocol.state == ResumablePathState::NeedEndpoints {
        let asked: GraphResult<BfsAdjacencyCandidateBatch> =
            machine.protocol.materialize_endpoint_batch(node_store, limits);
        governor.release_memory(leased);
        return match asked {
            Ok(batch) => Ok(ResumablePathMaterialization::Batch(batch)),
            Err(error) => Err(error),
        };
    }
    let ghost before = *machine;
    let result: GraphResult<ResumablePathMaterialization> = machine.search_page(
        node_store,
        neighbors,
        relationships,
        edge_type_filter,
        limits,
        governor,
    );
    governor.release_memory(leased);
    proof {
        if result matches Ok(ResumablePathMaterialization::Batch(_)) {
            let ahead = before.edges_ahead(neighbors, limits);
            let count = machine.upto@ - before.page_start();
            lemma_passing_passes(ahead.take(count), edge_type_filter);
        }
    }
    result
}

impl ResumableSingleDirectionBfs {
    /// Takes answers about edges: each edge that is followed to a new node
    /// discovers it. The search is over once the target is discovered.
    fn apply_edges(
        &mut self,
        batch: &BfsAdjacencyCandidateBatch,
        verdicts: &Vec<BfsAdjacencyVerdict>,
        node_store: &NodeStore,
        deleted_nodes: &RoaringBitmap,
        governor: &mut ResourceGovernor,
    ) -> (result: GraphResult<()>)
        requires
            old(self).wf(),
            old(self).started(),
            old(self).awaits(*batch),
            answers(*batch, verdicts@),
            node_store.wf(),
        ensures
            ({
                let bytes = old(self).answer_bytes(node_store, *deleted_nodes, *batch, verdicts@);
                &&& grown(old(governor)@, final(governor)@, bytes)
                &&& match result {
                    Ok(_) => {
                        &&& old(governor)@.affords_memory(bytes)
                        &&& final(governor)@ == old(governor)@.after_memory(bytes)
                    },
                    Err(error) => {
                        &&& !old(governor)@.affords_memory(bytes)
                        &&& error@ == limit_error(ResourcePhase::QueryPaths, ResourceKind::Memory)
                    },
                }
            }),
            result is Ok ==> {
                &&& final(self).wf()
                &&& final(self).protocol.state is NeedCandidates || (final(
                    self).protocol.state is Complete && final(self).found)
                &&& final(self).protocol.same_answers(&old(self).protocol)
                &&& final(self).max_depth == old(self).max_depth
                &&& final(self).pager == old(self).pager
                &&& final(self).active_node == old(self).active_node
                &&& forall|world: PathWorld|
                    #![trigger old(self).tracks(world)]
                    old(self).tracks(world) && world.judges(
                        node_store,
                        *deleted_nodes,
                        *batch,
                        verdicts@,
                    ) ==> final(self).tracks(world)
            },
    {
        let ghost begun = *self;
        let ghost before = self.order@;
        let ghost done = self.done@;
        let ghost label = before[done as int].label + 1;
        let ghost asked = self.asked@;
        let ghost ok = outcomes(node_store, *deleted_nodes, *batch, verdicts@);
        let ghost whole = settled(before, done as int, label, asked, ok);
        let ghost bytes = self.answer_bytes(node_store, *deleted_nodes, *batch, verdicts@);
        let mut at: usize = 0;
        proof {
            assert(asked.take(0) =~= Seq::<Neighbor>::empty());
        }
        while at < verdicts.len()
            invariant
                node_store.wf(),
                at <= verdicts@.len() == batch.candidates@.len() == asked.len(),
                begun == *old(self),
                begun.wf(),
                begun.started(),
                begun.awaits(*batch),
                begun.protocol.state is NeedVisibility,
                before == begun.order@,
                done == begun.done@,
                asked == begun.asked@,
                label == before[done as int].label + 1,
                ok == outcomes(node_store, *deleted_nodes, *batch, verdicts@),
                candidate_edges(batch.candidates@) == asked,
                whole == settled(before, done as int, label, asked, ok),
                bytes == begun.answer_bytes(node_store, *deleted_nodes, *batch, verdicts@),
                governor@ == old(governor)@.after_memory(
                    512 * (self.order@.len() - before.len()),
                ),
                old(governor)@.affords_memory(512 * (self.order@.len() - before.len())),
                self.protocol == begun.protocol,
                self.max_depth == begun.max_depth,
                self.pager == begun.pager,
                self.active_node == begun.active_node,
                self.done == begun.done,
                self.open == begun.open,
                self.upto == begun.upto,
                self.resolved == begun.resolved,
                self.found == begun.found,
                self.order@ == settled(before, done as int, label, asked.take(at as int), ok),
                self.order@.len() >= before.len(),
                forall|i: int| 0 <= i < before.len() ==> #[trigger] self.order@[i] == before[i],
                chained(self.protocol.source, self.order@),
                distinct(self.order@),
                parents_match(self.order@, self.parent@),
                visited_matches(self.order@, bitmap_contents(self.visited)),
                self.frontier@ == waiting(self.order@, (done + 1) as int),
                forall|i: int|
                    0 <= i < self.order@.len() ==> 0 <= (#[trigger] self.order@[i]).label
                        <= i32::MAX && (self.order@[i].label <= self.max_depth
                        || self.order@[i].label == 0),
                !discovered(self.order@, self.protocol.target),
            decreases verdicts@.len() - at,
        {
            let ghost order = self.order@;
            let candidate: &BfsAdjacencyCandidate = &batch.candidates[at];
            proof {
                lemma_settled_next(before, done as int, label, asked, ok, at as int);
                assert(candidate_edges(batch.candidates@)[at as int] == candidate.edge());
                assert(ok[at as int] == followed(
                    node_store,
                    *deleted_nodes,
                    batch.candidates@[at as int],
                    verdicts@[at as int],
                ));
                assert(candidate.parent_node == before[done as int].node);
                assert(order[done as int] == before[done as int]);
                lemma_found_within(
                    before,
                    done as int,
                    label,
                    asked,
                    ok,
                    self.protocol.target,
                    at as int,
                );
            }
            if !is_followed(node_store, deleted_nodes, candidate, &verdicts[at])
                || self.visited.contains(candidate.target_node) {
                at = at + 1;
                continue ;
            }
            let ghost parents = self.parent@;
            let ghost seen = bitmap_contents(self.visited);
            self.visited.insert(candidate.target_node);
            if let Err(error) = governor.reserve_memory(
                ResourcePhase::QueryPaths,
                PATH_STATE_BYTES_PER_VISIT,
            ) {
                return Err(error);
            }
            self.parent.insert(
                candidate.target_node,
                ParentStep {
                    parent: candidate.parent_node,
                    edge_type: candidate.edge_type,
                    depth: candidate.parent_depth + 1,
                },
            );
            self.frontier.push_back((candidate.target_node, candidate.parent_depth + 1));
            let ghost visit = Visit {
                node: candidate.target_node,
                from: done as int,
                edge_type: candidate.edge_type,
                label,
            };
            self.order = Ghost(order.push(visit));
            proof {
                lemma_push_tracked(order, visit, parents, seen);
                assert(self.frontier@ =~= waiting(self.order@, (done + 1) as int));
            }
            if candidate.target_node == self.protocol.target {
                let ghost grown_order = self.order@;
                self.found = true;
                self.protocol.state = ResumablePathState::Complete;
                self.protocol.pending_batch = None;
                self.protocol.pending_kind = None;
                proof {
                    assert(grown_order[order.len() as int].node == self.protocol.target);
                    assert forall|world: PathWorld|
                        #![trigger begun.tracks(world)]
                        begun.tracks(world) && world.judges(
                            node_store,
                            *deleted_nodes,
                            *batch,
                            verdicts@,
                        ) implies self.tracks(world) by {
                        lemma_target_found(
                            begun,
                            world,
                            *batch,
                            ok,
                            grown_order,
                            (at + 1) as int,
                        );
                    }
                }
                return Ok(());
            }
            proof {
                if discovered(self.order@, self.protocol.target) {
                    let p = position_of(self.order@, self.protocol.target);
                    assert(order[p].node == self.protocol.target);
                }
            }
            at = at + 1;
        }
        assert(asked.take(at as int) =~= asked);
        assert(self.order@ == whole);
        self.protocol.state = ResumablePathState::NeedCandidates;
        self.protocol.pending_batch = None;
        self.protocol.pending_kind = None;
        if self.active_node.is_none() {
            self.open = Ghost(false);
            self.done = Ghost((done + 1) as nat);
        } else {
            self.resolved = Ghost(self.upto@);
        }
        proof {
            assert forall|world: PathWorld|
                #![trigger begun.tracks(world)]
                begun.tracks(world) && world.judges(
                    node_store,
                    *deleted_nodes,
                    *batch,
                    verdicts@,
                ) implies self.tracks(world) by {
                let g = world.graph;
                let limit = self.max_depth as int;
                let base = expanded(g, self.protocol.source, limit, done);
                let row = (g.adjacency)(base[done as int].node);
                lemma_absorb(
                    g,
                    base,
                    done as int,
                    base[done as int].label + 1,
                    row.take(begun.resolved@ as int),
                );
                assert(before[done as int] == base[done as int]);
                assert forall|i: int| 0 <= i < asked.len() implies ok[i] == (g.allows)(
                    #[trigger] asked[i],
                ) by {
                    assert(candidate_edges(batch.candidates@)[i] == asked[i]);
                    assert(verdicts@[i] == verdicts@[i]);
                }
                lemma_settled_absorbs(g, before, done as int, label, asked, ok);
                assert(row.take(row.len() as int) =~= row);
            }
        }
        Ok(())
    }
}

/// A node that is discovered next counts among those that answers discover, and
/// the target is the last of them.
proof fn lemma_found_within(
    before: Seq<Visit>,
    from: int,
    label: int,
    asked: Seq<Neighbor>,
    ok: Seq<bool>,
    target: u32,
    at: int,
)
    requires
        distinct(before),
        0 <= at < asked.len(),
        !discovered(settled(before, from, label, asked.take(at), ok), target),
    ensures
        ({
            let order = settled(before, from, label, asked.take(at), ok);
            let next = settled(before, from, label, asked.take(at + 1), ok);
            let found = newly_found(before, from, label, asked, ok, Some(target));
            &&& before.len() <= order.len() <= next.len()
            &&& next.len() - before.len() <= found
            &&& discovered(next, target) ==> next.len() - before.len() == found
        }),
{
    let order = settled(before, from, label, asked.take(at), ok);
    let next = settled(before, from, label, asked.take(at + 1), ok);
    let whole = settled(before, from, label, asked, ok);
    assert(asked.take(asked.len() as int) =~= asked);
    lemma_settled_next(before, from, label, asked, ok, at);
    lemma_settled_grows(before, from, label, asked, ok, at, at + 1);
    lemma_settled_grows(before, from, label, asked, ok, at + 1, asked.len() as int);
    if discovered(next, target) {
        let p = position_of(next, target);
        assert(whole[p] == next[p]);
        if p < order.len() {
            assert(order[p].node == target);
        }
    }
    if discovered(whole, target) {
        let p = position_of(whole, target);
        if p < next.len() {
            assert(next[p].node == target);
            if p < order.len() {
                assert(order[p].node == target);
            }
        }
        if discovered(next, target) {
            let q = position_of(next, target);
            assert(whole[q].node == target && whole[p].node == target);
        }
    }
}

/// The target is discovered on the trail that the whole search finds it by.
proof fn lemma_target_found(
    machine: ResumableSingleDirectionBfs,
    world: PathWorld,
    batch: BfsAdjacencyCandidateBatch,
    ok: Seq<bool>,
    order: Seq<Visit>,
    at: int,
)
    requires
        machine.wf(),
        machine.started(),
        machine.protocol.state is NeedVisibility,
        machine.tracks(world),
        candidate_edges(batch.candidates@) == machine.asked@,
        0 < at <= machine.asked@.len(),
        forall|i: int|
            0 <= i < machine.asked@.len() ==> ok[i] == (world.graph.allows)(
                #[trigger] machine.asked@[i],
            ),
        order == settled(
            machine.order@,
            machine.done@ as int,
            machine.order@[machine.done@ as int].label + 1,
            machine.asked@.take(at),
            ok,
        ),
        distinct(order),
        order.last().node == machine.protocol.target,
        order.len() > 0,
    ensures
        ({
            let source = machine.protocol.source;
            let target = machine.protocol.target;
            &&& single_answer(world, source, target, machine.max_depth as int) == Some(
                trail(order, position_of(order, target)),
            )
            &&& forall|i: int| 0 <= i < order.len() ==> (#[trigger] order[i]).node < world.nodes
        }),
{
    let g = world.graph;
    let source = machine.protocol.source;
    let target = machine.protocol.target;
    let limit = machine.max_depth as int;
    let done = machine.done@;
    let base = expanded(g, source, limit, done);
    let row = (g.adjacency)(base[done as int].node);
    let label = base[done as int].label + 1;
    let before = machine.order@;
    let asked = machine.asked@;
    let whole = expanded(g, source, limit, (done + 1) as nat);
    let upto = absorb(g, base, done as int, label, row.take(machine.upto@ as int));
    lemma_absorb(g, base, done as int, label, row.take(machine.resolved@ as int));
    assert(before[done as int] == base[done as int]);
    assert forall|i: int| 0 <= i < asked.take(at).len() implies ok[i] == (g.allows)(
        #[trigger] asked.take(at)[i],
    ) by {
        assert(asked.take(at)[i] == asked[i]);
    }
    lemma_settled_absorbs(g, before, done as int, label, asked.take(at), ok);
    lemma_absorb_take(g, before, done as int, label, asked, at);
    lemma_absorb_take(g, base, done as int, label, row, machine.upto@ as int);
    lemma_partial_order(g, source, limit, done, machine.upto@ as int);
    assert(whole == absorb(g, base, done as int, label, row));
    assert forall|i: int| 0 <= i < order.len() implies #[trigger] whole[i] == order[i] by {
        assert(upto[i] == order[i]);
    }
    let last = order.len() - 1;
    let p = position_of(order, target);
    assert(discovered(order, target)) by {
        assert(order[last].node == target);
    }
    assert(p == last);
    assert(whole[last].node == target);
    lemma_found_trail(g, source, target, limit, (done + 1) as nat, last);
    lemma_trail_prefix(order, whole, last);
    lemma_expanded(g, source, limit, (done + 1) as nat);
    lemma_order_bounded(g, source, whole, world.nodes);
    assert forall|i: int| 0 <= i < order.len() implies (#[trigger] order[i]).node
        < world.nodes by {
        assert(whole[i] == order[i]);
    }
}

/// Takes the answers to the page that was asked for.
pub fn apply_single_direction_path_verdicts(
    machine: &mut ResumableSingleDirectionBfs,
    batch: &BfsAdjacencyCandidateBatch,
    verdicts: &Vec<BfsAdjacencyVerdict>,
    node_store: &NodeStore,
    deleted_nodes: &RoaringBitmap,
    governor: &mut ResourceGovernor,
) -> (result: GraphResult<()>)
    requires
        old(machine).wf(),
        node_store.wf(),
    ensures
        ({
            let bytes = old(machine).answer_bytes(node_store, *deleted_nodes, *batch, verdicts@);
            if !old(machine).awaits(*batch) || !answers(*batch, verdicts@) {
                &&& *final(machine) == *old(machine)
                &&& final(governor)@ == old(governor)@
                &&& result is Err
                &&& result->Err_0@ == refused_answers(old(machine).protocol.state)
            } else if !old(governor)@.affords_memory(bytes) {
                &&& grown(old(governor)@, final(governor)@, bytes)
                &&& result is Err
                &&& result->Err_0@ == limit_error(ResourcePhase::QueryPaths, ResourceKind::Memory)
            } else {
                &&& final(governor)@ == old(governor)@.after_memory(bytes)
                &&& result is Ok
            }
        }),
        result is Ok ==> old(machine).answered_on(
            *final(machine),
            node_store,
            *deleted_nodes,
            *batch,
            verdicts@,
        ),
{
    let kind: PendingPathBatch = match machine.protocol.validate_path_verdicts(batch, verdicts) {
        Ok(kind) => kind,
        Err(error) => return Err(error),
    };
    let asked: bool = match kind {
        PendingPathBatch::Adjacency => machine.page.is_in_page(batch),
        PendingPathBatch::Endpoints => machine.protocol.is_asking(batch),
    };
    if !asked {
        return Err(internal("path machine received mismatched visibility verdicts"));
    }
    if kind == PendingPathBatch::Adjacency {
        return machine.apply_edges(batch, verdicts, node_store, deleted_nodes, governor);
    }
    let ghost before = *machine;
    let outcome: EndpointOutcome = machine.protocol.apply_endpoint_verdicts(batch, verdicts);
    if outcome == EndpointOutcome::Ready {
        if machine.protocol.source == machine.protocol.target {
            machine.found = true;
            machine.protocol.state = ResumablePathState::Complete;
            proof {
                let order = machine.order@;
                let target = machine.protocol.target;
                assert(order[0].node == target);
                let p = position_of(order, target);
                assert(discovered(order, target));
                assert(p == 0);
                assert(trail(order, 0) =~= seq![(target, EdgeTypeId(0))]);
            }
        } else if machine.max_depth <= 0 {
            machine.protocol.state = ResumablePathState::Complete;
            proof {
                assert forall|world: PathWorld|
                    #![trigger before.tracks(world)]
                    before.tracks(world) && nodes_answered(
                        *batch,
                        verdicts@,
                        world.shows,
                    ) implies machine.tracks(world) by {
                    let g = world.graph;
                    let source = machine.protocol.source;
                    let limit = machine.max_depth as int;
                    assert(before.protocol.agrees(world.shows));
                    let root = seq![root_visit(source)];
                    assert(expanded(g, source, limit, 0) == root);
                    assert(expanded(g, source, limit, 1) == root);
                    assert(!discovered(root, machine.protocol.target));
                    lemma_not_found(g, source, machine.protocol.target, limit, 1);
                }
            }
        } else {
            machine.frontier.push_back((machine.protocol.source, 0));
            proof {
                assert(machine.frontier@ =~= waiting(machine.order@, 0));
                assert forall|world: PathWorld|
                    #![trigger before.tracks(world)]
                    before.tracks(world) && nodes_answered(
                        *batch,
                        verdicts@,
                        world.shows,
                    ) implies machine.tracks(world) by {
                    assert(before.protocol.agrees(world.shows));
                    assert(!discovered(machine.order@, machine.protocol.target));
                }
            }
        }
    }
    proof {
        assert forall|world: PathWorld|
            #![trigger before.tracks(world)]
            before.tracks(world) && nodes_answered(*batch, verdicts@, world.shows) implies
            machine.tracks(world) by {
            assert(before.protocol.agrees(world.shows));
        }
    }
    Ok(())
}

impl ResumableSingleDirectionBfs {
    /// Whether a search that is over ends with this: with the path of every graph
    /// that it is right about.
    pub open spec fn finished(
        &self,
        node_store: &NodeStore,
        labels: EdgeTypeLabels<'_>,
        result: GraphResult<Option<Vec<PathStep>>>,
    ) -> bool {
        forall|world: PathWorld|
            self.protocol.state is Complete && #[trigger] self.tracks(world) && world.nodes
                == node_store.nodes().len() ==> {
                &&& result is Ok
                &&& path_views(result->Ok_0) == match single_answer(
                    world,
                    self.protocol.source,
                    self.protocol.target,
                    self.max_depth as int,
                ) {
                    Some(nodes) => Some(path_view(node_store.nodes(), nodes, labels)),
                    None => None,
                }
            }
    }

    /// The path that was found.
    pub fn finish(self, node_store: &NodeStore, labels: EdgeTypeLabels<'_>) -> (result: GraphResult<
        Option<Vec<PathStep>>,
    >)
        requires
            self.wf(),
            node_store.addressable(),
        ensures
            !self.found ==> result is Ok && result->Ok_0 is None,
            self.finished(node_store, labels, result),
            result matches Err(error) ==> error@ is CorruptFile && exists|i: int|
                0 <= i < self.order@.len() && (#[trigger] self.order@[i]).node
                    >= node_store.nodes().len(),
    {
        if !self.found {
            return Ok(None);
        }
        let ghost order = self.order@;
        let ghost at = position_of(order, self.protocol.target);
        let nodes: Vec<(u32, EdgeTypeId)> = trail_nodes(
            &self.parent,
            self.protocol.source,
            self.protocol.target,
            Ghost(order),
            Ghost(at),
        );
        proof {
            lemma_trail_in_order(order, at);
        }
        match checked_steps(node_store, &nodes, labels) {
            Ok(steps) => Ok(Some(steps)),
            Err(error) => {
                proof {
                    let i = choose|i: int|
                        0 <= i < nodes@.len() && (#[trigger] nodes@[i]).0
                            >= node_store.nodes().len();
                    assert(discovered(order, trail(order, at)[i].0));
                    let p = position_of(order, nodes@[i].0);
                    assert(order[p].node == nodes@[i].0);
                }
                Err(error)
            },
        }
    }
}

/// The rows of a path, if every node of it is in the store.
pub fn checked_steps(
    node_store: &NodeStore,
    nodes: &Vec<(u32, EdgeTypeId)>,
    labels: EdgeTypeLabels<'_>,
) -> (result: GraphResult<Vec<PathStep>>)
    requires
        node_store.addressable(),
    ensures
        match result {
            Ok(steps) => step_views(steps@) == path_view(node_store.nodes(), nodes@, labels)
                && forall|i: int|
                0 <= i < nodes@.len() ==> (#[trigger] nodes@[i]).0 < node_store.nodes().len(),
            Err(error) => error@ is CorruptFile && exists|i: int|
                0 <= i < nodes@.len() && (#[trigger] nodes@[i]).0 >= node_store.nodes().len(),
        },
{
    let count: u32 = node_store.node_count();
    let mut checked: usize = 0;
    while checked < nodes.len()
        invariant
            checked <= nodes@.len(),
            count == node_store.nodes().len(),
            forall|i: int| 0 <= i < checked ==> (#[trigger] nodes@[i]).0 < count,
        decreases nodes@.len() - checked,
    {
        if nodes[checked].0 >= count {
            return Err(
                GraphError::CorruptFile {
                    reason: "path node ".to_owned().concat(
                        decimal_text(nodes[checked].0 as u64).as_str(),
                    ).concat(" has no table identity"),
                },
            );
        }
        checked = checked + 1;
    }
    Ok(path_steps(node_store, nodes, labels))
}

/// A search in pages finds exactly the path that a search in one go finds.
pub proof fn law_paged_search_is_eager<N: NeighborSource>(
    node_store: &NodeStore,
    neighbors: &N,
    request: UnweightedPathRequest<'_>,
    context: QueryExecutionContext<'_>,
)
    requires
        request.has_unidirectional_edges,
    ensures
        unweighted_path(node_store, neighbors, request, context) == match single_answer(
            query_world(node_store, neighbors, context),
            request.source,
            request.target,
            request.max_depth as int,
        ) {
            Some(nodes) => Some(
                path_view(node_store.nodes(), nodes, request_labels(request)),
            ),
            None => None,
        },
        query_world(node_store, neighbors, context).fits(
            node_store,
            neighbors,
            context.edge_type_filter,
        ),
{
}

} // verus!
