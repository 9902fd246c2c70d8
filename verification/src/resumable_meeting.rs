//! Path search from both ends that pauses whenever it needs to know whether
//! edges may be seen. Levels and meeting nodes are chosen as by a search in
//! one go.
use roaring::RoaringBitmap;
use vstd::prelude::*;

use crate::bitmap::bitmap_contents;
use crate::edge_labels::EdgeTypeLabels;
use crate::errors::{internal, ErrorView, GraphResult};
use crate::meeting::{
    back_trail, best_meeting, bidirectional_trail, disjoint, goes_forward, joined_trail,
    lemma_best_is_least, lemma_best_prefix, lemma_level_rooted, lemma_meeting, lemma_no_meeting,
    level, meet, next_round, round_meeting, start_sides, Sides,
};
use crate::neighbors::{least, Neighbor, NeighborSource};
use crate::node_store::NodeStore;
use crate::path_finder::{
    back_trail_nodes, chained, labels_fit, lemma_back_trail_in_order, lemma_push_tracked,
    lemma_trail_in_order, meeting_view, path_view, path_views, request_labels, side_tracks,
    trail_nodes, unweighted_path, waiting_nodes, ParentStep, PathSideState, UnweightedPathRequest,
};
use crate::path_machine::{
    all_pass, candidate_edges, gather_candidates, lemma_passing_passes, limits_valid,
    materialize_error, page_asks, page_fits, page_takes, page_work, passing,
    reserve_path_page_workspace, search_page_error, validate_path_materialization, AskedEdges,
    BfsAdjacencyCandidate, BfsAdjacencyCandidateBatch, BfsAdjacencyVerdict, BfsCandidateLimits,
    BfsProjectionEpoch, PendingPathBatch, RelationshipIdentities, ResumablePathMaterialization,
    ResumablePathState, RowPager, PATH_STATE_BYTES_PER_VISIT, RESUMABLE_BFS_PAGE_CAPACITY,
};
use crate::path_protocol::{
    answers, endpoint_error, nodes_answered, page_mark, refused_answers, EndpointOutcome,
    PathProtocol,
};
use crate::path_world::{
    followed, is_followed, lemma_page_absorbed, lemma_settled_absorbs, lemma_settled_grows,
    lemma_settled_next, newly_found, outcomes, query_world, settled, PathWorld,
};
use crate::resource::{
    charged, grown, limit_error, GovernorView, ResourceGovernor, ResourceKind, ResourcePhase,
};
use crate::resumable_bfs::{checked_steps, ResumableSingleDirectionBfs};
use crate::search::{
    absorb, bounded, discovered, distinct, lemma_order_bounded, position_of, root_visit, rooted,
    trail, Visit,
};
use crate::types::{EdgeTypeId, PathStep};
use crate::visibility::QueryExecutionContext;

verus! {

broadcast use vstd::std_specs::hash::group_hash_axioms;

/// An end of the path that is searched for.
#[derive(Debug, Clone, Copy, PartialEq, Eq, Structural)]
pub enum SearchSide {
    Forward,
    Backward,
}

/// The order of one side.
pub open spec fn side_order(sides: Sides, side: SearchSide) -> Seq<Visit> {
    match side {
        SearchSide::Forward => sides.forward,
        SearchSide::Backward => sides.backward,
    }
}

/// How much of one side has been expanded.
pub open spec fn side_done(sides: Sides, side: SearchSide) -> int {
    match side {
        SearchSide::Forward => sides.forward_done,
        SearchSide::Backward => sides.backward_done,
    }
}

/// The other side.
pub open spec fn opposite_of(side: SearchSide) -> SearchSide {
    match side {
        SearchSide::Forward => SearchSide::Backward,
        SearchSide::Backward => SearchSide::Forward,
    }
}

/// The sides after one of them has been expanded to an order.
pub open spec fn with_side(sides: Sides, side: SearchSide, order: Seq<Visit>) -> Sides {
    match side {
        SearchSide::Forward => Sides {
            forward: order,
            forward_done: sides.forward.len() as int,
            ..sides
        },
        SearchSide::Backward => Sides {
            backward: order,
            backward_done: sides.backward.len() as int,
            ..sides
        },
    }
}

/// A level of the search, on which one side's frontier is expanded.
pub struct Level {
    /// Both sides before the level.
    pub sides: Sides,
    pub side: SearchSide,
    pub depth: int,
    /// The expanding side, in the middle of the level.
    pub now: Seq<Visit>,
    /// Which of its visits is expanded.
    pub here: int,
}

/// A level that starts: the smaller frontier is expanded, the forward one if
/// they are equal.
pub open spec fn start_level(sides: Sides, depth: int) -> Level {
    let side = if goes_forward(sides) {
        SearchSide::Forward
    } else {
        SearchSide::Backward
    };
    Level {
        sides,
        side,
        depth,
        now: side_order(sides, side),
        here: side_done(sides, side),
    }
}

/// A search from both ends that holds no borrow of the graph between pages.
pub struct ResumableBidirectionalBfs {
    pub protocol: PathProtocol,
    pub max_depth: i32,
    pub forward: PathSideState,
    pub backward: PathSideState,
    pub selected_side: Option<SearchSide>,
    pub level_remaining: usize,
    pub round_depth: i32,
    /// The best meeting of the level: the sum of depths, and the node.
    pub best: Option<(i64, u32)>,
    pub pager: RowPager,
    pub active_node: Option<u32>,
    pub found: bool,
    /// The edges that were asked for last.
    pub page: AskedEdges,
    /// Both sides before the level that is being expanded.
    pub sides: Ghost<Sides>,
    /// The expanding side, in the middle of the level.
    pub now: Ghost<Seq<Visit>>,
    /// Which of its visits is being expanded, or is next.
    pub here: Ghost<int>,
    /// Whether it is being expanded.
    pub open: Ghost<bool>,
    /// How many of its edges have been answered.
    pub resolved: Ghost<nat>,
    /// How many of its edges have been asked for.
    pub upto: Ghost<nat>,
    /// The edges of the page that waits for answers.
    pub asked: Ghost<Seq<Neighbor>>,
}

/// The trail that a search from both ends finds in a world.
pub open spec fn meeting_answer(
    world: PathWorld,
    source: u32,
    target: u32,
    max_depth: int,
) -> Option<Seq<(u32, EdgeTypeId)>> {
    if source >= world.nodes || target >= world.nodes || !(world.shows)(source) || !(world.shows)(
        target,
    ) {
        None
    } else if source == target {
        Some(seq![(source, EdgeTypeId(0))])
    } else {
        bidirectional_trail(world.graph, source, target, max_depth)
    }
}

impl ResumableBidirectionalBfs {
    /// The state of one side.
    pub open spec fn state_of(&self, side: SearchSide) -> PathSideState {
        match side {
            SearchSide::Forward => self.forward,
            SearchSide::Backward => self.backward,
        }
    }

    /// Whether edges are being searched.
    pub open spec fn started(&self) -> bool {
        ||| self.protocol.state is NeedCandidates
        ||| self.protocol.state is NeedVisibility && self.protocol.pending_kind == Some(
            PendingPathBatch::Adjacency,
        )
    }

    /// What holds of both sides before a level.
    pub open spec fn sides_wf(&self) -> bool {
        let sides = self.sides@;
        &&& chained(self.protocol.source, sides.forward)
        &&& chained(self.protocol.target, sides.backward)
        &&& distinct(sides.forward)
        &&& distinct(sides.backward)
        &&& labels_fit(sides.forward)
        &&& labels_fit(sides.backward)
        &&& 0 <= sides.forward_done <= sides.forward.len()
        &&& 0 <= sides.backward_done <= sides.backward.len()
    }

    /// What holds in the middle of a level.
    pub open spec fn level_wf(&self, side: SearchSide) -> bool {
        let sides = self.sides@;
        let order = side_order(sides, side);
        let other = side_order(sides, opposite_of(side));
        let now = self.now@;
        let here = self.here@;
        &&& goes_forward(sides) == (side is Forward)
        &&& side_done(sides, side) <= here <= order.len()
        &&& side_done(sides, side) < order.len()
        &&& side_done(sides, opposite_of(side)) < other.len()
        &&& self.open@ ==> here < order.len()
        &&& order.len() <= now.len()
        &&& forall|i: int| 0 <= i < order.len() ==> #[trigger] now[i] == order[i]
        &&& chained(order[0].node, now)
        &&& distinct(now)
        &&& labels_fit(now)
        &&& side_tracks(
            self.state_of(side),
            now,
            if self.open@ {
                here + 1
            } else {
                here
            },
        )
        &&& side_tracks(
            self.state_of(opposite_of(side)),
            other,
            side_done(sides, opposite_of(side)),
        )
        &&& self.level_remaining == order.len() - here - if self.open@ {
            1int
        } else {
            0
        }
        &&& meeting_view(self.best) == best_meeting(
            now,
            order.len() as int,
            now.len() as int,
            other,
        )
        &&& self.active_node matches Some(node) ==> self.open@ && node == order[here].node
    }

    /// What always holds of the search.
    pub open spec fn wf(&self) -> bool {
        let sides = self.sides@;
        &&& self.protocol.wf()
        &&& self.sides_wf()
        &&& self.found ==> {
            &&& self.protocol.state is Complete
            &&& self.best matches Some((_, node)) && discovered(sides.forward, node)
                && discovered(sides.backward, node)
            &&& crate::path_finder::parents_match(sides.forward, self.forward.parent@)
            &&& crate::path_finder::parents_match(sides.backward, self.backward.parent@)
        }
        &&& !(self.protocol.state is Complete) ==> 0 <= self.round_depth
        &&& !(self.protocol.state is Complete) && !self.started() ==> {
            &&& sides == start_sides(self.protocol.source, self.protocol.target)
            &&& self.selected_side is None
            &&& self.active_node is None
            &&& self.round_depth == 0
            &&& self.best is None
            &&& side_tracks(self.forward, sides.forward, 0)
            &&& side_tracks(self.backward, sides.backward, 0)
        }
        &&& self.started() ==> {
            &&& disjoint(sides.forward, sides.backward)
            &&& match self.selected_side {
                Some(side) => self.level_wf(side) && self.round_depth < self.max_depth,
                None => {
                    &&& self.protocol.state is NeedCandidates
                    &&& self.active_node is None
                    &&& self.best is None
                    &&& side_tracks(self.forward, sides.forward, sides.forward_done)
                    &&& side_tracks(self.backward, sides.backward, sides.backward_done)
                },
            }
        }
        &&& self.protocol.state is NeedCandidates && self.selected_side is Some ==> {
            &&& self.open@ == (self.active_node is Some)
            &&& self.open@ ==> self.pager.taken() == self.resolved@
        }
        &&& self.protocol.state is NeedVisibility && self.started() ==> {
            &&& self.open@
            &&& self.resolved@ <= self.upto@
            &&& self.active_node is Some ==> self.pager.taken() == self.upto@
            &&& self.page.edges@ == self.asked@
            &&& self.page.parent == side_order(sides, self.selected_side->Some_0)[self.here@].node
            &&& self.page.depth == self.round_depth
        }
    }

    /// Whether the row that is being read is one of these.
    pub open spec fn reads<N: NeighborSource>(&self, neighbors: &N) -> bool {
        self.active_node matches Some(node) ==> self.pager.in_row(neighbors.adjacency(node))
    }

    /// Whether the middle of a level is right about a world.
    pub open spec fn level_tracks(&self, side: SearchSide, world: PathWorld) -> bool {
        let g = world.graph;
        let sides = self.sides@;
        let order = side_order(sides, side);
        let here = self.here@;
        let label = self.round_depth + 1;
        let base = level(g, order, side_done(sides, side), here, label);
        let row = (g.adjacency)(order[here].node);
        &&& !self.open@ ==> self.now@ == base
        &&& self.open@ ==> {
            &&& self.resolved@ <= row.len()
            &&& self.now@ == absorb(g, base, here, label, row.take(self.resolved@ as int))
        }
        &&& self.protocol.state is NeedVisibility ==> {
            &&& self.upto@ <= row.len()
            &&& self.active_node is None ==> self.upto@ == row.len()
            &&& absorb(g, self.now@, here, label, self.asked@) == absorb(
                g,
                base,
                here,
                label,
                row.take(self.upto@ as int),
            )
        }
    }

    /// Whether the search is right about a world so far.
    pub open spec fn tracks(&self, world: PathWorld) -> bool {
        let g = world.graph;
        let source = self.protocol.source;
        let target = self.protocol.target;
        let limit = self.max_depth as int;
        let answer = meeting_answer(world, source, target, limit);
        &&& self.protocol.agrees(world.shows)
        &&& bounded(g, world.nodes)
        &&& self.protocol.state is Complete ==> {
            &&& !self.found ==> answer is None
            &&& self.found ==> {
                &&& answer == Some(joined_trail(self.sides@, (self.best->Some_0).1))
                &&& forall|i: int|
                    0 <= i < self.sides@.forward.len() ==> (#[trigger] self.sides@.forward[i]).node
                        < world.nodes
                &&& forall|i: int|
                    0 <= i < self.sides@.backward.len() ==> (
                    #[trigger] self.sides@.backward[i]).node < world.nodes
            }
        }
        &&& !(self.protocol.state is Complete) ==> source < world.nodes && target < world.nodes
        &&& self.started() ==> {
            &&& source != target
            &&& rooted(g, source, self.sides@.forward)
            &&& rooted(g, target, self.sides@.backward)
            &&& meet(g, start_sides(source, target), 0, limit) == meet(
                g,
                self.sides@,
                self.round_depth as int,
                limit,
            )
            &&& self.selected_side matches Some(side) ==> self.level_tracks(side, world)
        }
    }

    /// Whether a level has been expanded as a whole.
    pub open spec fn level_over(&self) -> bool {
        self.selected_side is Some && self.active_node is None && self.level_remaining == 0
    }

    /// Both sides, with a level that is over.
    pub open spec fn sides_so_far(&self) -> Sides {
        if self.level_over() {
            with_side(self.sides@, self.selected_side->Some_0, self.now@)
        } else {
            self.sides@
        }
    }

    /// The depth, with a level that is over.
    pub open spec fn depth_so_far(&self) -> int {
        if self.level_over() {
            self.round_depth + 1
        } else {
            self.round_depth as int
        }
    }

    /// The level that the search goes on with: the one it is in, or one that
    /// starts. There is none once the sides have met, without a frontier, and
    /// at the depth limit.
    pub open spec fn next_level(&self) -> Option<Level> {
        let sides = self.sides_so_far();
        let depth = self.depth_so_far();
        if self.selected_side is Some && !self.level_over() {
            Some(
                Level {
                    sides,
                    side: self.selected_side->Some_0,
                    depth,
                    now: self.now@,
                    here: self.here@,
                },
            )
        } else if self.best is Some || sides.forward_done >= sides.forward.len()
            || sides.backward_done >= sides.backward.len() || depth >= self.max_depth {
            None
        } else {
            Some(start_level(sides, depth))
        }
    }

    /// How many of the expanded visit's edges earlier pages have taken.
    pub open spec fn page_start(&self) -> int {
        if self.active_node is Some {
            self.resolved@ as int
        } else {
            0
        }
    }

    /// The edges that the next page may take.
    pub open spec fn edges_ahead<N: NeighborSource>(
        &self,
        neighbors: &N,
        limits: BfsCandidateLimits,
    ) -> Seq<Neighbor> {
        match self.next_level() {
            None => Seq::empty(),
            Some(level) => {
                let row = neighbors.adjacency(
                    side_order(level.sides, level.side)[level.here].node,
                );
                if self.active_node is Some {
                    row.subrange(
                        self.resolved@ as int,
                        self.pager.ahead(row.len() as int, limits.max_candidates as int),
                    )
                } else {
                    row.subrange(0, least(limits.max_candidates as int, row.len() as int))
                }
            },
        }
    }

    /// Whether asking for a page of edges leads to this. The page takes edges
    /// of one visit of the level, as many as fit, and each of them costs a unit
    /// of work. A page without candidates is not handed out: the search has
    /// gone on. Without a level it is over.
    pub open spec fn paged<N: NeighborSource>(
        &self,
        after: Self,
        outcome: ResumablePathMaterialization,
        node_store: &NodeStore,
        neighbors: &N,
        relationships: RelationshipIdentities,
        filter: Option<&RoaringBitmap>,
        limits: BfsCandidateLimits,
        governor: GovernorView,
        spent: GovernorView,
    ) -> bool {
        match self.next_level() {
            None => {
                &&& outcome is Complete
                &&& after.found == (self.best is Some)
                &&& after.best == self.best
                &&& after.sides@ == self.sides_so_far()
                &&& after.forward == self.forward
                &&& after.backward == self.backward
                &&& after.protocol.next_sequence == self.protocol.next_sequence
                &&& spent == governor
            },
            Some(level) => {
                let nodes = node_store.nodes();
                let node = side_order(level.sides, level.side)[level.here].node;
                let ahead = self.edges_ahead(neighbors, limits);
                let count = after.upto@ - self.page_start();
                let edges = passing(ahead.take(count), filter);
                let exhausted = after.upto@ == neighbors.adjacency(node).len();
                &&& after.selected_side == Some(level.side)
                &&& after.sides@ == level.sides
                &&& after.now@ == level.now
                &&& after.round_depth == level.depth
                &&& after.best == self.best
                &&& page_takes(ahead, count, filter, None, limits, nodes, relationships)
                &&& governor.affords(count)
                &&& spent == governor.after_work(count)
                &&& after.protocol.next_sequence == self.protocol.next_sequence + edges.len()
                &&& after.active_node == if exhausted {
                    None
                } else {
                    Some(node)
                }
                &&& !exhausted ==> after.pager.cursor.position == self.page_start() + ahead.len()
                &&& match outcome {
                    ResumablePathMaterialization::Batch(batch) => {
                        &&& edges.len() > 0
                        &&& after.here@ == level.here
                        &&& after.resolved@ == self.page_start()
                        &&& page_asks(
                            batch,
                            edges,
                            exhausted,
                            self.protocol.next_sequence,
                            node,
                            level.depth,
                            nodes,
                            relationships,
                        )
                    },
                    ResumablePathMaterialization::Progress => {
                        &&& edges.len() == 0
                        &&& after.resolved@ == after.upto@
                        &&& after.here@ == if exhausted {
                            level.here + 1
                        } else {
                            level.here
                        }
                    },
                    ResumablePathMaterialization::Complete => false,
                }
            },
        }
    }

    /// Bytes that taking answers reserves: for each node that they discover.
    pub open spec fn answer_bytes(
        &self,
        node_store: &NodeStore,
        deleted: RoaringBitmap,
        batch: BfsAdjacencyCandidateBatch,
        verdicts: Seq<BfsAdjacencyVerdict>,
    ) -> int {
        if self.started() {
            512 * newly_found(
                self.now@,
                self.here@,
                self.round_depth + 1,
                self.asked@,
                outcomes(node_store, deleted, batch, verdicts),
                None,
            )
        } else {
            0
        }
    }

    /// Whether a page is the one that waits for answers.
    pub open spec fn awaits(&self, batch: BfsAdjacencyCandidateBatch) -> bool {
        &&& self.protocol.state is NeedVisibility
        &&& self.protocol.pending_batch == Some(page_mark(batch))
        &&& self.started() ==> {
            &&& self.selected_side is Some
            &&& candidate_edges(batch.candidates@) == self.asked@
            &&& forall|i: int|
                0 <= i < batch.candidates@.len() ==> (#[trigger] batch.candidates@[i]).parent_node
                    == side_order(self.sides@, self.selected_side->Some_0)[self.here@].node
                    && batch.candidates@[i].parent_depth == self.round_depth
        }
        &&& !self.started() ==> self.protocol.asks_endpoints(batch)
    }

    /// Whether nothing has been asked yet: the search is right about every
    /// graph, and over if one of its nodes does not exist.
    pub open spec fn begins(
        &self,
        node_count: nat,
        source: u32,
        target: u32,
        max_depth: i32,
    ) -> bool {
        &&& self.wf()
        &&& self.protocol.source == source
        &&& self.protocol.target == target
        &&& self.max_depth == max_depth
        &&& self.active_node is None
        &&& self.protocol.projection_epoch is None
        &&& self.protocol.state == if source < node_count && target < node_count {
            ResumablePathState::NeedEndpoints
        } else {
            ResumablePathState::Complete
        }
        &&& forall|world: PathWorld|
            world.nodes == node_count && bounded(world.graph, world.nodes)
                ==> #[trigger] self.tracks(world)
    }

    /// Whether the search goes on rightly when a page is asked for: whatever it
    /// was right about, it still is.
    pub open spec fn asked_on<N: NeighborSource>(
        &self,
        after: Self,
        node_store: &NodeStore,
        neighbors: &N,
        filter: Option<&RoaringBitmap>,
    ) -> bool {
        &&& after.wf()
        &&& after.reads(neighbors)
        &&& after.protocol.same_answers(&self.protocol)
        &&& after.max_depth == self.max_depth
        &&& after.protocol.state is NeedVisibility && after.started() ==> all_pass(
            after.page.edges@,
            filter,
        )
        &&& forall|world: PathWorld|
            #![trigger self.tracks(world)]
            self.tracks(world) && world.fits(node_store, neighbors, filter) ==> after.tracks(world)
    }

    /// Whether the search goes on rightly when answers are taken: whatever it
    /// was right about, it still is if the answers are right.
    pub open spec fn answered_on(
        &self,
        after: Self,
        node_store: &NodeStore,
        deleted: RoaringBitmap,
        batch: BfsAdjacencyCandidateBatch,
        verdicts: Seq<BfsAdjacencyVerdict>,
    ) -> bool {
        &&& after.wf()
        &&& !(after.protocol.state is NeedVisibility)
        &&& after.pager == self.pager
        &&& after.active_node == self.active_node
        &&& after.protocol.source == self.protocol.source
        &&& after.protocol.target == self.protocol.target
        &&& after.max_depth == self.max_depth
        &&& after.protocol.projection_epoch == self.protocol.projection_epoch
        &&& forall|world: PathWorld|
            #![trigger self.tracks(world)]
            self.tracks(world) && (if self.started() {
                world.judges(node_store, deleted, batch, verdicts)
            } else {
                nodes_answered(batch, verdicts, world.shows)
            }) ==> after.tracks(world)
    }

    /// A search that has asked nothing yet. One between nodes that do not
    /// exist is over.
    pub fn try_new(node_count: usize, source: u32, target: u32, max_depth: i32) -> (result: GraphResult<
        Self,
    >)
        ensures
            result is Ok,
            result->Ok_0.begins(node_count as nat, source, target, max_depth),
    {
        let valid: bool = (source as usize) < node_count && (target as usize) < node_count;
        let ghost sides = start_sides(source, target);
        let machine = ResumableBidirectionalBfs {
            protocol: PathProtocol::new(source, target, valid),
            max_depth,
            forward: PathSideState::new(source),
            backward: PathSideState::new(target),
            selected_side: None,
            level_remaining: 0,
            round_depth: 0,
            best: None,
            pager: RowPager::start(),
            active_node: None,
            found: false,
            page: AskedEdges::none(),
            sides: Ghost(sides),
            now: Ghost(Seq::empty()),
            here: Ghost(0),
            open: Ghost(false),
            resolved: Ghost(0),
            upto: Ghost(0),
            asked: Ghost(Seq::empty()),
        };
        Ok(machine)
    }

    /// Ties the search to a state of the projection.
    pub fn bind_projection_epoch(&mut self, epoch: BfsProjectionEpoch)
        ensures
            final(self).protocol == (PathProtocol {
                projection_epoch: Some(epoch),
                ..old(self).protocol
            }),
            old(self).wf() ==> final(self).wf(),
            forall|world: PathWorld| #[trigger]
                old(self).tracks(world) ==> final(self).tracks(world),
            forall|batch: BfsAdjacencyCandidateBatch| #[trigger]
                old(self).awaits(batch) ==> final(self).awaits(batch),
            final(self).active_node == old(self).active_node,
            final(self).pager == old(self).pager,
    {
        self.protocol.projection_epoch = Some(epoch);
        proof {
            if old(self).wf() {
                if let Some(side) = self.selected_side {
                    assert(self.started() ==> self.level_wf(side));
                }
            }
            assert forall|world: PathWorld| #[trigger] old(self).tracks(world) implies self.tracks(
                world,
            ) by {
                if let Some(side) = self.selected_side {
                    assert(old(self).level_tracks(side, world) == self.level_tracks(side, world));
                }
            }
            assert forall|batch: BfsAdjacencyCandidateBatch| #[trigger]
                old(self).awaits(batch) implies self.awaits(batch) by {
                if !self.started() {
                    assert(old(self).protocol.asks_endpoints(batch));
                    assert(self.protocol.resolved() == old(self).protocol.resolved());
                }
            }
        }
    }

    /// Fails unless the projection is the one that the search was tied to.
    pub fn require_projection_epoch(&self, actual: BfsProjectionEpoch) -> (result: GraphResult<()>)
        ensures
            result is Ok <==> self.protocol.projection_epoch == Some(actual),
            result matches Err(error) ==> error@ == ErrorView::Internal(
                "projection changed while path visibility was being resolved; retry the graph query"@,
            ),
    {
        self.protocol.require_projection_epoch(actual)
    }

    /// Whether the search is over.
    pub fn is_complete(&self) -> (complete: bool)
        ensures
            complete == (self.protocol.state is Complete),
    {
        self.protocol.state == ResumablePathState::Complete
    }
}

/// A level that has been expanded as a whole ends the round as one go does.
proof fn lemma_round(
    machine: ResumableBidirectionalBfs,
    side: SearchSide,
    world: PathWorld,
)
    requires
        machine.wf(),
        machine.protocol.state is NeedCandidates,
        machine.selected_side == Some(side),
        !machine.open@,
        machine.here@ == side_order(machine.sides@, side).len(),
        machine.tracks(world),
    ensures
        ({
            let g = world.graph;
            let depth = machine.round_depth as int;
            let next = with_side(machine.sides@, side, machine.now@);
            &&& next_round(g, machine.sides@, depth) == next
            &&& round_meeting(g, machine.sides@, depth) == meeting_view(machine.best)
            &&& rooted(g, machine.protocol.source, next.forward)
            &&& rooted(g, machine.protocol.target, next.backward)
            &&& forall|i: int|
                0 <= i < next.forward.len() ==> (#[trigger] next.forward[i]).node < world.nodes
            &&& forall|i: int|
                0 <= i < next.backward.len() ==> (#[trigger] next.backward[i]).node < world.nodes
            &&& meet(g, machine.sides@, depth, machine.max_depth as int) == match machine.best {
                Some((_, node)) => Some((next, node)),
                None => meet(g, next, depth + 1, machine.max_depth as int),
            }
        }),
{
    let g = world.graph;
    let sides = machine.sides@;
    let depth = machine.round_depth as int;
    let next = with_side(sides, side, machine.now@);
    let order = side_order(sides, side);
    assert(machine.level_tracks(side, world));
    assert(machine.level_wf(side));
    if side is Forward {
        lemma_level_rooted(
            g,
            machine.protocol.source,
            order,
            side_done(sides, side),
            order.len() as int,
            depth + 1,
        );
    } else {
        lemma_level_rooted(
            g,
            machine.protocol.target,
            order,
            side_done(sides, side),
            order.len() as int,
            depth + 1,
        );
    }
    lemma_order_bounded(g, machine.protocol.source, next.forward, world.nodes);
    lemma_order_bounded(g, machine.protocol.target, next.backward, world.nodes);
}

/// A level at which the sides met leaves both sides with the meeting node.
proof fn lemma_met(
    before: ResumableBidirectionalBfs,
    after: ResumableBidirectionalBfs,
    side: SearchSide,
)
    requires
        before.wf(),
        before.protocol.state is NeedCandidates,
        before.selected_side == Some(side),
        before.level_wf(side),
        !before.open@,
        before.best is Some,
        after.protocol == (PathProtocol {
            state: ResumablePathState::Complete,
            ..before.protocol
        }),
        after.found,
        after.best == before.best,
        after.forward == before.forward,
        after.backward == before.backward,
        after.sides@ == with_side(before.sides@, side, before.now@),
    ensures
        after.wf(),
{
    let order = side_order(before.sides@, side);
    let other = side_order(before.sides@, opposite_of(side));
    let now = before.now@;
    lemma_meeting(now, order.len() as int, now.len() as int, other);
    let node = (before.best->Some_0).1;
    assert(meeting_view(before.best) == Some(((before.best->Some_0).0 as int, node)));
    let i = choose|i: int| order.len() <= i < now.len() && (#[trigger] now[i]).node == node;
    assert(discovered(now, node));
    assert(discovered(other, node));
    assert(order[0] == now[0]);
}

/// A level at which the sides did not meet leaves them disjoint.
proof fn lemma_missed(
    before: ResumableBidirectionalBfs,
    after: ResumableBidirectionalBfs,
    side: SearchSide,
)
    requires
        before.wf(),
        before.protocol.state is NeedCandidates,
        before.selected_side == Some(side),
        before.level_wf(side),
        !before.open@,
        before.here@ == side_order(before.sides@, side).len(),
        before.best is None,
        before.active_node is None,
        after.protocol == before.protocol,
        after.found == before.found,
        after.best == before.best,
        after.active_node is None,
        after.selected_side is None,
        after.round_depth == before.round_depth + 1,
        after.forward == before.forward,
        after.backward == before.backward,
        after.sides@ == with_side(before.sides@, side, before.now@),
    ensures
        after.wf(),
{
    let order = side_order(before.sides@, side);
    let other = side_order(before.sides@, opposite_of(side));
    let now = before.now@;
    let next = after.sides@;
    lemma_no_meeting(now, order.len() as int, now.len() as int, other);
    assert(order[0] == now[0]);
    assert forall|i: int, j: int|
        0 <= i < now.len() && 0 <= j < other.len() implies (#[trigger] now[i]).node != (
    #[trigger] other[j]).node by {
        if i < order.len() {
            assert(now[i] == order[i]);
            if side is Forward {
                assert(before.sides@.forward[i].node != before.sides@.backward[j].node);
            } else {
                assert(before.sides@.forward[j].node != before.sides@.backward[i].node);
            }
        } else if now[i].node == other[j].node {
            assert(discovered(other, now[i].node));
        }
    }
}

impl ResumableBidirectionalBfs {
    /// Ends a level that has been expanded as a whole: with the path, if the
    /// sides have met, or else with the next round.
    fn finish_level(&mut self, side: SearchSide) -> (met: bool)
        requires
            old(self).wf(),
            old(self).protocol.state is NeedCandidates,
            old(self).selected_side == Some(side),
            old(self).active_node is None,
            old(self).level_remaining == 0,
        ensures
            final(self).wf(),
            final(self).protocol.same_answers(&old(self).protocol),
            final(self).protocol.next_sequence == old(self).protocol.next_sequence,
            final(self).max_depth == old(self).max_depth,
            final(self).active_node is None,
            final(self).pager == old(self).pager,
            met == (old(self).best is Some),
            final(self).sides@ == old(self).sides_so_far(),
            final(self).best == old(self).best,
            final(self).forward == old(self).forward,
            final(self).backward == old(self).backward,
            !met ==> final(self).round_depth == old(self).round_depth + 1,
            met ==> final(self).protocol.state is Complete && final(self).found,
            !met ==> final(self).protocol == old(self).protocol && final(
                self).selected_side is None,
            forall|world: PathWorld| #[trigger]
                old(self).tracks(world) ==> final(self).tracks(world),
    {
        let ghost before = *self;
        let ghost next = with_side(self.sides@, side, self.now@);
        assert(self.level_wf(side));
        self.sides = Ghost(next);
        if self.best.is_some() {
            self.found = true;
            self.protocol.state = ResumablePathState::Complete;
            proof {
                lemma_met(before, *self, side);
                assert forall|world: PathWorld| #[trigger] before.tracks(world) implies self.tracks(
                    world,
                ) by {
                    lemma_round(before, side, world);
                }
            }
            return true;
        }
        self.round_depth = self.round_depth + 1;
        self.selected_side = None;
        proof {
            lemma_missed(before, *self, side);
            assert forall|world: PathWorld| #[trigger] before.tracks(world) implies self.tracks(
                world,
            ) by {
                lemma_round(before, side, world);
            }
        }
        false
    }

    /// Starts a level: the smaller frontier is expanded, the forward one if
    /// they are equal. Without a frontier, or at the depth limit, the search
    /// is over.
    fn select_side(&mut self) -> (selected: bool)
        requires
            old(self).wf(),
            old(self).protocol.state is NeedCandidates,
            old(self).selected_side is None,
        ensures
            final(self).wf(),
            final(self).protocol.same_answers(&old(self).protocol),
            final(self).protocol.next_sequence == old(self).protocol.next_sequence,
            final(self).max_depth == old(self).max_depth,
            final(self).active_node is None,
            final(self).pager == old(self).pager,
            final(self).sides == old(self).sides,
            final(self).best == old(self).best,
            final(self).found == old(self).found,
            final(self).forward == old(self).forward,
            final(self).backward == old(self).backward,
            selected == (old(self).next_level() is Some),
            selected ==> final(self).next_level() == old(self).next_level(),
            !selected ==> final(self).protocol.state is Complete,
            selected ==> final(self).protocol == old(self).protocol && final(
                self).selected_side is Some && final(self).level_remaining > 0,
            forall|world: PathWorld| #[trigger]
                old(self).tracks(world) ==> final(self).tracks(world),
    {
        let ghost before = *self;
        let ghost sides = self.sides@;
        let ahead: usize = self.forward.frontier.len();
        let behind: usize = self.backward.frontier.len();
        if ahead == 0 || behind == 0 || self.round_depth >= self.max_depth {
            self.protocol.state = ResumablePathState::Complete;
            proof {
                assert forall|world: PathWorld| #[trigger] before.tracks(world) implies self.tracks(
                    world,
                ) by {}
            }
            return false;
        }
        let side: SearchSide = if ahead <= behind {
            SearchSide::Forward
        } else {
            SearchSide::Backward
        };
        self.level_remaining = if ahead <= behind {
            ahead
        } else {
            behind
        };
        self.selected_side = Some(side);
        self.now = Ghost(side_order(sides, side));
        self.here = Ghost(side_done(sides, side));
        self.open = Ghost(false);
        self.resolved = Ghost(0);
        proof {
            assert(self.level_wf(side));
            assert forall|world: PathWorld| #[trigger] before.tracks(world) implies self.tracks(
                world,
            ) by {
                assert(self.level_tracks(side, world));
            }
        }
        true
    }

    /// The node to read edges of: the one that is being expanded, or the next
    /// of the level.
    fn next_node(&mut self, side: SearchSide) -> (node: Option<u32>)
        requires
            old(self).wf(),
            old(self).protocol.state is NeedCandidates,
            old(self).selected_side == Some(side),
            old(self).active_node is Some || old(self).level_remaining > 0,
        ensures
            node is Some,
            final(self).wf(),
            final(self).protocol == old(self).protocol,
            final(self).max_depth == old(self).max_depth,
            final(self).round_depth == old(self).round_depth,
            final(self).selected_side == old(self).selected_side,
            final(self).sides == old(self).sides,
            final(self).now == old(self).now,
            final(self).here == old(self).here,
            final(self).best == old(self).best,
            final(self).resolved@ == old(self).page_start(),
            final(self).active_node == node,
            old(self).active_node is Some ==> *final(self) == *old(self),
            old(self).active_node is None ==> final(self).pager.pending@.len() == 0 && final(
                self).pager.cursor.position == 0 && forall|row: Seq<Neighbor>| #[trigger]
                final(self).pager.in_row(row),
            forall|world: PathWorld| #[trigger]
                old(self).tracks(world) ==> final(self).tracks(world),
    {
        if let Some(active) = self.active_node {
            return Some(active);
        }
        let ghost before = *self;
        let ghost order = side_order(self.sides@, side);
        let ghost here = self.here@;
        assert(self.level_wf(side));
        let popped: Option<u32> = match side {
            SearchSide::Forward => self.forward.frontier.pop_front(),
            SearchSide::Backward => self.backward.frontier.pop_front(),
        };
        proof {
            let waiting = before.state_of(side).frontier@;
            assert(waiting == waiting_nodes(before.now@, here));
            assert(waiting.len() > 0);
            assert(before.now@[here] == order[here]);
            assert(waiting[0] == order[here].node);
            assert(self.state_of(side).frontier@ =~= waiting_nodes(before.now@, here + 1));
        }
        self.level_remaining = self.level_remaining - 1;
        self.active_node = popped;
        self.pager = RowPager::start();
        self.open = Ghost(true);
        self.resolved = Ghost(0);
        proof {
            assert(self.level_wf(side));
            assert forall|world: PathWorld| #[trigger] before.tracks(world) implies self.tracks(
                world,
            ) by {
                assert(before.level_tracks(side, world));
                let row = (world.graph.adjacency)(order[here].node);
                assert(row.take(0) =~= Seq::<Neighbor>::empty());
                assert(self.level_tracks(side, world));
            }
        }
        popped
    }
}

/// Whether one search stands after another has taken edges of the visit that
/// is being expanded, up to the `next`. Those that pass are asked for, if
/// there are any.
spec fn took_edges(
    before: ResumableBidirectionalBfs,
    after: ResumableBidirectionalBfs,
    side: SearchSide,
    next: nat,
    edges: Seq<Neighbor>,
    exhausted: bool,
) -> bool {
    &&& before.wf()
    &&& before.protocol.state is NeedCandidates
    &&& before.selected_side == Some(side)
    &&& before.active_node is Some
    &&& before.resolved@ <= next
    &&& after.protocol.wf()
    &&& after.protocol.same_answers(&before.protocol)
    &&& after.max_depth == before.max_depth
    &&& after.forward == before.forward
    &&& after.backward == before.backward
    &&& after.selected_side == before.selected_side
    &&& after.level_remaining == before.level_remaining
    &&& after.round_depth == before.round_depth
    &&& after.best == before.best
    &&& after.found == before.found
    &&& after.sides == before.sides
    &&& after.now == before.now
    &&& after.upto@ == next
    &&& after.active_node == if exhausted {
        None
    } else {
        before.active_node
    }
    &&& !exhausted ==> after.pager.taken() == next
    &&& if edges.len() == 0 {
        &&& after.protocol.state is NeedCandidates
        &&& after.resolved@ == next
        &&& after.open@ == !exhausted
        &&& after.here@ == if exhausted {
            before.here@ + 1
        } else {
            before.here@
        }
    } else {
        &&& after.protocol.state is NeedVisibility
        &&& after.protocol.pending_kind == Some(PendingPathBatch::Adjacency)
        &&& after.resolved == before.resolved
        &&& after.open@
        &&& after.here == before.here
        &&& after.asked@ == edges
        &&& after.page.edges@ == edges
        &&& before.active_node == Some(after.page.parent)
        &&& after.page.depth == before.round_depth
    }
}

/// Taking edges leaves the search well-formed.
proof fn lemma_took_wf(
    before: ResumableBidirectionalBfs,
    after: ResumableBidirectionalBfs,
    side: SearchSide,
    next: nat,
    edges: Seq<Neighbor>,
    exhausted: bool,
)
    requires
        took_edges(before, after, side, next, edges, exhausted),
    ensures
        after.wf(),
{
    assert(before.level_wf(side));
    assert(after.level_wf(side));
}

/// Taking edges of a world's row leaves the search right about the world.
proof fn lemma_took_tracks<N: NeighborSource>(
    before: ResumableBidirectionalBfs,
    after: ResumableBidirectionalBfs,
    side: SearchSide,
    next: nat,
    exhausted: bool,
    row: Seq<Neighbor>,
    node_store: &NodeStore,
    neighbors: &N,
    filter: Option<&RoaringBitmap>,
    world: PathWorld,
)
    requires
        took_edges(
            before,
            after,
            side,
            next,
            passing(row.subrange(before.resolved@ as int, next as int), filter),
            exhausted,
        ),
        next <= row.len(),
        exhausted ==> next == row.len(),
        before.tracks(world),
        world.fits(node_store, neighbors, filter),
        row == neighbors.adjacency(before.active_node->Some_0),
    ensures
        after.tracks(world),
{
    let g = world.graph;
    let here = before.here@;
    let label = before.round_depth + 1;
    let order = side_order(before.sides@, side);
    let base = level(g, order, side_done(before.sides@, side), here, label);
    assert(before.level_wf(side));
    assert(before.level_tracks(side, world));
    assert((g.adjacency)(order[here].node) == row);
    lemma_page_absorbed(
        g,
        base,
        here,
        label,
        row,
        before.resolved@ as int,
        next as int,
        filter,
    );
    assert(row.take(row.len() as int) =~= row);
    assert(after.level_tracks(side, world));
}

impl ResumableBidirectionalBfs {
    /// Asks for edges of a node of the level, as many as fit a page.
    #[verifier::spinoff_prover]
    #[verifier::rlimit(60)]
    fn search_page<N: NeighborSource>(
        &mut self,
        side: SearchSide,
        node_store: &NodeStore,
        neighbors: &N,
        relationships: &RelationshipIdentities,
        edge_type_filter: Option<&RoaringBitmap>,
        limits: BfsCandidateLimits,
        governor: &mut ResourceGovernor,
    ) -> (result: GraphResult<ResumablePathMaterialization>)
        requires
            old(self).wf(),
            old(self).protocol.state is NeedCandidates,
            old(self).selected_side == Some(side),
            old(self).active_node is Some || old(self).level_remaining > 0,
            old(self).reads(neighbors),
            limits_valid(limits),
            node_store.wf(),
        ensures
            charged(
                old(governor)@,
                final(governor)@,
                page_work(
                    old(self).edges_ahead(neighbors, limits),
                    0,
                    edge_type_filter,
                    None,
                    limits,
                    node_store.nodes(),
                    *relationships,
                ) as int,
            ),
            result is Ok ==> {
                &&& final(self).wf()
                &&& final(self).reads(neighbors)
                &&& final(self).protocol.same_answers(&old(self).protocol)
                &&& final(self).max_depth == old(self).max_depth
                &&& forall|world: PathWorld|
                    #![trigger old(self).tracks(world)]
                    old(self).tracks(world) && world.fits(
                        node_store,
                        neighbors,
                        edge_type_filter,
                    ) ==> final(self).tracks(world)
            },
            result matches Ok(ResumablePathMaterialization::Batch(batch)) ==> {
                &&& final(self).awaits(batch)
                &&& page_fits(batch.candidates@, limits)
                &&& batch.candidates@.len() > 0
            },
            result matches Ok(ResumablePathMaterialization::Progress) ==> final(
                self).protocol.state is NeedCandidates,
            !(result matches Ok(ResumablePathMaterialization::Complete)),
            result matches Ok(outcome) ==> old(self).paged(
                *final(self),
                outcome,
                node_store,
                neighbors,
                *relationships,
                edge_type_filter,
                limits,
                old(governor)@,
                final(governor)@,
            ),
            result matches Err(error) ==> search_page_error(
                error@,
                limits,
                old(governor)@,
                old(self).protocol.next_sequence,
                old(self).edges_ahead(neighbors, limits),
                edge_type_filter,
                None,
                node_store.nodes(),
                *relationships,
            ),
    {
        let current: u32 = match self.next_node(side) {
            Some(node) => node,
            None => return Err(internal("bidirectional path level lost its frozen frontier")),
        };
        let ghost chosen = *self;
        let ghost row = neighbors.adjacency(current);
        let ghost here = self.here@;
        let ghost first = self.resolved@;
        assert(self.level_wf(side));
        self.pager.fill_path_raw_page(current, neighbors, limits.max_candidates);
        let ghost ahead = row.subrange(first as int, self.pager.cursor.position as int);
        assert(ahead == old(self).edges_ahead(neighbors, limits));
        let gathered: GraphResult<(Vec<BfsAdjacencyCandidate>, bool)> = gather_candidates(
            &mut self.pager,
            &mut self.protocol.next_sequence,
            current,
            self.round_depth,
            None,
            edge_type_filter,
            limits,
            node_store,
            relationships,
            governor,
            Ghost(row),
        );
        let (candidates, _): (Vec<BfsAdjacencyCandidate>, bool) = match gathered {
            Ok(gathered) => gathered,
            Err(error) => return Err(error),
        };
        let ghost next = self.pager.taken() as nat;
        let exhausted_current: bool = self.pager.pending.len() == 0 && self.pager.exhausts_node;
        let ghost edges = candidate_edges(candidates@);
        self.upto = Ghost(next);
        assert(ahead.take(next - first) =~= row.subrange(first as int, next as int));
        if candidates.len() == 0 {
            self.resolved = Ghost(next);
            if exhausted_current {
                self.active_node = None;
                self.pager = RowPager::start();
                self.open = Ghost(false);
                self.here = Ghost(here + 1);
            }
            proof {
                assert(edges.len() == 0);
                lemma_took_wf(chosen, *self, side, next, edges, exhausted_current);
                assert forall|world: PathWorld|
                    #![trigger chosen.tracks(world)]
                    chosen.tracks(world) && world.fits(
                        node_store,
                        neighbors,
                        edge_type_filter,
                    ) implies self.tracks(world) by {
                    lemma_took_tracks(
                        chosen,
                        *self,
                        side,
                        next,
                        exhausted_current,
                        row,
                        node_store,
                        neighbors,
                        edge_type_filter,
                        world,
                    );
                }
            }
            return Ok(ResumablePathMaterialization::Progress);
        }
        self.asked = Ghost(edges);
        self.page = AskedEdges::of(&candidates, current, self.round_depth);
        if exhausted_current {
            self.active_node = None;
            self.pager = RowPager::start();
        }
        let batch: BfsAdjacencyCandidateBatch = match self.protocol.finish_path_batch(
            candidates,
            exhausted_current,
            limits,
        ) {
            Ok(batch) => batch,
            Err(error) => return Err(error),
        };
        proof {
            lemma_took_wf(chosen, *self, side, next, edges, exhausted_current);
            assert forall|world: PathWorld|
                #![trigger chosen.tracks(world)]
                chosen.tracks(world) && world.fits(
                    node_store,
                    neighbors,
                    edge_type_filter,
                ) implies self.tracks(world) by {
                lemma_took_tracks(
                    chosen,
                    *self,
                    side,
                    next,
                    exhausted_current,
                    row,
                    node_store,
                    neighbors,
                    edge_type_filter,
                    world,
                );
            }
        }
        Ok(ResumablePathMaterialization::Batch(batch))
    }

    /// Goes on where the search stands: ends a level, starts one, or asks for
    /// edges.
    fn advance<N: NeighborSource>(
        &mut self,
        node_store: &NodeStore,
        neighbors: &N,
        relationships: &RelationshipIdentities,
        edge_type_filter: Option<&RoaringBitmap>,
        limits: BfsCandidateLimits,
        governor: &mut ResourceGovernor,
    ) -> (result: GraphResult<ResumablePathMaterialization>)
        requires
            old(self).wf(),
            old(self).protocol.state is NeedCandidates,
            old(self).reads(neighbors),
            limits_valid(limits),
            node_store.wf(),
        ensures
            charged(
                old(governor)@,
                final(governor)@,
                page_work(
                    old(self).edges_ahead(neighbors, limits),
                    0,
                    edge_type_filter,
                    None,
                    limits,
                    node_store.nodes(),
                    *relationships,
                ) as int,
            ),
            result is Ok ==> {
                &&& final(self).wf()
                &&& final(self).reads(neighbors)
                &&& final(self).protocol.same_answers(&old(self).protocol)
                &&& final(self).max_depth == old(self).max_depth
                &&& forall|world: PathWorld|
                    #![trigger old(self).tracks(world)]
                    old(self).tracks(world) && world.fits(
                        node_store,
                        neighbors,
                        edge_type_filter,
                    ) ==> final(self).tracks(world)
            },
            result matches Ok(ResumablePathMaterialization::Batch(batch)) ==> {
                &&& final(self).awaits(batch)
                &&& page_fits(batch.candidates@, limits)
                &&& batch.candidates@.len() > 0
            },
            result matches Ok(ResumablePathMaterialization::Progress) ==> final(
                self).protocol.state is NeedCandidates,
            result matches Ok(ResumablePathMaterialization::Complete) ==> final(
                self).protocol.state is Complete,
            result matches Ok(outcome) ==> old(self).paged(
                *final(self),
                outcome,
                node_store,
                neighbors,
                *relationships,
                edge_type_filter,
                limits,
                old(governor)@,
                final(governor)@,
            ),
            result matches Err(error) ==> search_page_error(
                error@,
                limits,
                old(governor)@,
                old(self).protocol.next_sequence,
                old(self).edges_ahead(neighbors, limits),
                edge_type_filter,
                None,
                node_store.nodes(),
                *relationships,
            ),
    {
        if let Some(side) = self.selected_side {
            assert(self.level_wf(side));
            if self.active_node.is_none() && self.level_remaining == 0 {
                if self.finish_level(side) {
                    return Ok(ResumablePathMaterialization::Complete);
                }
            }
        }
        if self.selected_side.is_none() {
            if !self.select_side() {
                return Ok(ResumablePathMaterialization::Complete);
            }
        }
        match self.selected_side {
            Some(side) => self.search_page(
                side,
                node_store,
                neighbors,
                relationships,
                edge_type_filter,
                limits,
                governor,
            ),
            None => Ok(ResumablePathMaterialization::Progress),
        }
    }
}

/// Asks for the next page: endpoints first, then edges. Memory for the page is
/// reserved while it is made; work is charged per edge.
pub fn materialize_bidirectional_path_batch<N: NeighborSource>(
    machine: &mut ResumableBidirectionalBfs,
    node_store: &NodeStore,
    neighbors: &N,
    relationships: &RelationshipIdentities,
    edge_type_filter: Option<&RoaringBitmap>,
    limits: BfsCandidateLimits,
    governor: &mut ResourceGovernor,
) -> (result: GraphResult<ResumablePathMaterialization>)
    requires
        old(machine).wf(),
        old(machine).reads(neighbors),
        node_store.wf(),
    ensures
        charged(
            old(governor)@,
            final(governor)@,
            page_work(
                old(machine).edges_ahead(neighbors, limits),
                0,
                edge_type_filter,
                None,
                limits,
                node_store.nodes(),
                *relationships,
            ) as int,
        ),
        result is Ok ==> old(machine).asked_on(
            *final(machine),
            node_store,
            neighbors,
            edge_type_filter,
        ),
        result matches Ok(ResumablePathMaterialization::Batch(batch)) ==> {
            &&& final(machine).awaits(batch)
            &&& page_fits(batch.candidates@, limits)
            &&& batch.candidates@.len() > 0
        },
        result matches Ok(ResumablePathMaterialization::Progress) ==> final(
            machine).protocol.state is NeedCandidates,
        result matches Ok(ResumablePathMaterialization::Complete) ==> final(
            machine).protocol.state is Complete,
        result matches Ok(outcome) ==> old(machine).protocol.state is NeedEndpoints || old(
            machine,
        ).paged(
            *final(machine),
            outcome,
            node_store,
            neighbors,
            *relationships,
            edge_type_filter,
            limits,
            old(governor)@,
            final(governor)@,
        ),
        result matches Err(error) ==> {
            ||| materialize_error(
                error@,
                old(machine).protocol.state,
                old(machine).protocol.next_sequence,
                limits,
                old(governor)@,
                old(machine).edges_ahead(neighbors, limits),
                edge_type_filter,
                None,
                node_store.nodes(),
                *relationships,
            )
            ||| old(machine).protocol.state is NeedEndpoints && endpoint_error(
                error@,
                limits,
                old(machine).protocol.next_sequence,
                old(machine).protocol.source,
                old(machine).protocol.target,
                node_store.nodes(),
            )
        },
{
    if let Err(error) = validate_path_materialization(machine.protocol.state, limits) {
        return Err(error);
    }
    let leased: u64 = match reserve_path_page_workspace(governor, limits) {
        Ok(leased) => leased,
        Err(error) => return Err(error),
    };
    if machine.protocol.state == ResumablePathState::NeedEndpoints {
        let asked: GraphResult<BfsAdjacencyCandidateBatch> =
            machine.protocol.materialize_endpoint_batch(node_store, limits);
        governor.release_memory(leased);
        return match asked {
            Ok(batch) => Ok(ResumablePathMaterialization::Batch(batch)),
            Err(error) => Err(error),
        };
    }
    let ghost before = *machine;
    let result: GraphResult<ResumablePathMaterialization> = machine.advance(
        node_store,
        neighbors,
        relationships,
        edge_type_filter,
        limits,
        governor,
    );
    governor.release_memory(leased);
    proof {
        if result matches Ok(ResumablePathMaterialization::Batch(_)) {
            let ahead = before.edges_ahead(neighbors, limits);
            let count = machine.upto@ - before.page_start();
            lemma_passing_passes(ahead.take(count), edge_type_filter);
        }
    }
    result
}

/// Takes answers about edges of one side's node: each edge that is followed to
/// a new node discovers it, and one that is followed to a node of the other
/// side is a meeting.
#[verifier::spinoff_prover]
#[verifier::rlimit(60)]
fn apply_to_side(
    selected: &mut PathSideState,
    opposite: &PathSideState,
    best: &mut Option<(i64, u32)>,
    new_depth: i32,
    batch: &BfsAdjacencyCandidateBatch,
    verdicts: &Vec<BfsAdjacencyVerdict>,
    node_store: &NodeStore,
    deleted_nodes: &RoaringBitmap,
    governor: &mut ResourceGovernor,
    Ghost(root): Ghost<u32>,
    Ghost(begun): Ghost<Seq<Visit>>,
    Ghost(here): Ghost<int>,
    Ghost(start): Ghost<int>,
    Ghost(other): Ghost<Seq<Visit>>,
    Ghost(other_done): Ghost<int>,
    Ghost(asked): Ghost<Seq<Neighbor>>,
) -> (result: GraphResult<()>)
    requires
        node_store.wf(),
        answers(*batch, verdicts@),
        candidate_edges(batch.candidates@) == asked,
        0 <= here < start <= begun.len(),
        0 <= new_depth,
        side_tracks(*old(selected), begun, here + 1),
        side_tracks(*opposite, other, other_done),
        chained(root, begun),
        distinct(begun),
        labels_fit(begun),
        labels_fit(other),
        forall|i: int, j: int|
            0 <= i < start && 0 <= j < other.len() ==> (#[trigger] begun[i]).node != (
            #[trigger] other[j]).node,
        meeting_view(*old(best)) == best_meeting(begun, start, begun.len() as int, other),
        forall|i: int|
            0 <= i < batch.candidates@.len() ==> (#[trigger] batch.candidates@[i]).parent_node
                == begun[here].node,
    ensures
        ({
            let ok = outcomes(node_store, *deleted_nodes, *batch, verdicts@);
            let bytes = 512 * newly_found(begun, here, new_depth as int, asked, ok, None);
            &&& grown(old(governor)@, final(governor)@, bytes)
            &&& match result {
                Ok(_) => {
                    &&& old(governor)@.affords_memory(bytes)
                    &&& final(governor)@ == old(governor)@.after_memory(bytes)
                },
                Err(error) => {
                    &&& !old(governor)@.affords_memory(bytes)
                    &&& error@ == limit_error(ResourcePhase::QueryPaths, ResourceKind::Memory)
                },
            }
        }),
        result is Ok ==> {
            let ok = outcomes(node_store, *deleted_nodes, *batch, verdicts@);
            let now = settled(begun, here, new_depth as int, asked, ok);
            &&& side_tracks(*final(selected), now, here + 1)
            &&& begun.len() <= now.len()
            &&& forall|i: int| 0 <= i < begun.len() ==> #[trigger] now[i] == begun[i]
            &&& chained(root, now)
            &&& distinct(now)
            &&& labels_fit(now)
            &&& meeting_view(*final(best)) == best_meeting(now, start, now.len() as int, other)
        },
{
    let ghost label = new_depth as int;
    let ghost ok = outcomes(node_store, *deleted_nodes, *batch, verdicts@);
    let ghost mut now = begun;
    let ghost whole = settled(begun, here, label, asked, ok);
    let mut at: usize = 0;
    proof {
        assert(asked.take(0) =~= Seq::<Neighbor>::empty());
    }
    while at < verdicts.len()
        invariant
            node_store.wf(),
            answers(*batch, verdicts@),
            at <= verdicts@.len() == batch.candidates@.len() == asked.len(),
            candidate_edges(batch.candidates@) == asked,
            ok == outcomes(node_store, *deleted_nodes, *batch, verdicts@),
            0 <= here < start <= begun.len() <= now.len(),
            0 <= new_depth == label,
            whole == settled(begun, here, label, asked, ok),
            governor@ == old(governor)@.after_memory(512 * (now.len() - begun.len())),
            old(governor)@.affords_memory(512 * (now.len() - begun.len())),
            now == settled(begun, here, label, asked.take(at as int), ok),
            forall|i: int| 0 <= i < begun.len() ==> #[trigger] now[i] == begun[i],
            side_tracks(*selected, now, here + 1),
            side_tracks(*opposite, other, other_done),
            chained(root, now),
            distinct(now),
            labels_fit(now),
            labels_fit(other),
            forall|i: int, j: int|
                0 <= i < start && 0 <= j < other.len() ==> (#[trigger] begun[i]).node != (
                #[trigger] other[j]).node,
            meeting_view(*best) == best_meeting(now, start, now.len() as int, other),
            forall|i: int|
                0 <= i < batch.candidates@.len() ==> (#[trigger] batch.candidates@[i]).parent_node
                    == begun[here].node,
        decreases verdicts@.len() - at,
    {
        let candidate: &BfsAdjacencyCandidate = &batch.candidates[at];
        let ghost before = now;
        proof {
            lemma_settled_next(begun, here, label, asked, ok, at as int);
            assert(candidate_edges(batch.candidates@)[at as int] == candidate.edge());
            assert(ok[at as int] == followed(
                node_store,
                *deleted_nodes,
                batch.candidates@[at as int],
                verdicts@[at as int],
            ));
            assert(candidate.parent_node == begun[here].node);
            assert(now[here] == begun[here]);
            assert(asked.take(asked.len() as int) =~= asked);
            lemma_settled_grows(begun, here, label, asked, ok, at + 1, asked.len() as int);
        }
        if !is_followed(node_store, deleted_nodes, candidate, &verdicts[at]) {
            at = at + 1;
            continue ;
        }
        let target: u32 = candidate.target_node;
        let is_new: bool = !selected.visited.contains(target);
        if is_new {
            if let Err(error) = governor.reserve_memory(
                ResourcePhase::QueryPaths,
                PATH_STATE_BYTES_PER_VISIT,
            ) {
                return Err(error);
            }
            let ghost parents = selected.parent@;
            let ghost seen = bitmap_contents(selected.visited);
            selected.visited.insert(target);
            selected.parent.insert(
                target,
                ParentStep {
                    parent: candidate.parent_node,
                    edge_type: candidate.edge_type,
                    depth: new_depth,
                },
            );
            selected.frontier.push_back(target);
            proof {
                let visit = Visit {
                    node: target,
                    from: here,
                    edge_type: candidate.edge_type,
                    label,
                };
                assert forall|i: int| 0 <= i < before.len() implies 0 <= (
                #[trigger] before[i]).from < before.len() by {
                    if i == 0 {
                        assert(before[0] == root_visit(root));
                    }
                }
                lemma_push_tracked(before, visit, parents, seen);
                now = before.push(visit);
                assert(selected.frontier@ =~= waiting_nodes(now, here + 1));
                lemma_best_prefix(before, now, start, before.len() as int, other);
                assert forall|i: int, j: int| 0 <= i < j < now.len() implies (
                #[trigger] now[i]).node != (#[trigger] now[j]).node by {
                    if j == before.len() && now[i].node == target {
                        assert(before[i].node == target);
                        assert(discovered(before, target));
                    }
                }
            }
        }
        let ghost spot = position_of(now, target);
        proof {
            if is_new {
                assert(now[before.len() as int].node == target);
            }
            assert(discovered(now, target));
        }
        if opposite.visited.contains(target) {
            let ghost met = position_of(other, target);
            proof {
                assert(now[spot].node == target);
                assert(discovered(other, target));
                assert(other[met].node == target);
                if spot < start {
                    assert(now[spot] == begun[spot]);
                    assert(begun[spot].node != other[met].node);
                }
                if is_new && spot != before.len() {
                    assert(before[spot].node == target);
                    assert(discovered(before, target));
                }
                lemma_best_is_least(now, start, now.len() as int, other, spot);
                assert(0 <= now[spot].label <= i32::MAX);
                assert(0 <= other[met].label <= i32::MAX);
            }
            let selected_depth: i32 = match selected.parent.get(&target) {
                Some(step) => step.depth,
                None => 0,
            };
            let opposite_depth: i32 = match opposite.parent.get(&target) {
                Some(step) => step.depth,
                None => 0,
            };
            let combined: i64 = selected_depth as i64 + opposite_depth as i64;
            proof {
                assert(combined == now[spot].label + other[met].label);
            }
            let better: bool = match *best {
                Some((least, _)) => combined < least,
                None => true,
            };
            if better {
                *best = Some((combined, target));
            }
        }
        at = at + 1;
    }
    assert(asked.take(at as int) =~= asked);
    Ok(())
}

impl ResumableBidirectionalBfs {
    /// Takes answers about edges of the level.
    #[verifier::spinoff_prover]
    #[verifier::rlimit(60)]
    fn apply_edges(
        &mut self,
        batch: &BfsAdjacencyCandidateBatch,
        verdicts: &Vec<BfsAdjacencyVerdict>,
        node_store: &NodeStore,
        deleted_nodes: &RoaringBitmap,
        governor: &mut ResourceGovernor,
    ) -> (result: GraphResult<()>)
        requires
            old(self).wf(),
            old(self).started(),
            old(self).awaits(*batch),
            answers(*batch, verdicts@),
            node_store.wf(),
        ensures
            ({
                let bytes = old(self).answer_bytes(node_store, *deleted_nodes, *batch, verdicts@);
                &&& grown(old(governor)@, final(governor)@, bytes)
                &&& match result {
                    Ok(_) => {
                        &&& old(governor)@.affords_memory(bytes)
                        &&& final(governor)@ == old(governor)@.after_memory(bytes)
                    },
                    Err(error) => {
                        &&& !old(governor)@.affords_memory(bytes)
                        &&& error@ == limit_error(ResourcePhase::QueryPaths, ResourceKind::Memory)
                    },
                }
            }),
            result is Ok ==> {
                &&& final(self).wf()
                &&& final(self).protocol.state is NeedCandidates
                &&& final(self).protocol.same_answers(&old(self).protocol)
                &&& final(self).max_depth == old(self).max_depth
                &&& final(self).pager == old(self).pager
                &&& final(self).active_node == old(self).active_node
                &&& forall|world: PathWorld|
                    #![trigger old(self).tracks(world)]
                    old(self).tracks(world) && world.judges(
                        node_store,
                        *deleted_nodes,
                        *batch,
                        verdicts@,
                    ) ==> final(self).tracks(world)
            },
    {
        let side: SearchSide = match self.selected_side {
            Some(side) => side,
            None => return Err(internal("bidirectional path verdict has no selected side")),
        };
        let ghost begun = *self;
        let ghost sides = self.sides@;
        let ghost order = side_order(sides, side);
        let ghost other = side_order(sides, opposite_of(side));
        let ghost other_done = side_done(sides, opposite_of(side));
        let ghost before = self.now@;
        let ghost here = self.here@;
        let ghost asked = self.asked@;
        let ghost ok = outcomes(node_store, *deleted_nodes, *batch, verdicts@);
        let new_depth: i32 = self.round_depth + 1;
        let ghost after = settled(before, here, new_depth as int, asked, ok);
        proof {
            assert(self.level_wf(side));
            assert(before[here] == order[here]);
            assert(order[0] == before[0]);
            assert forall|i: int, j: int|
                0 <= i < order.len() && 0 <= j < other.len() implies (#[trigger] before[i]).node
                != (#[trigger] other[j]).node by {
                assert(before[i] == order[i]);
                if side is Forward {
                    assert(sides.forward[i].node != sides.backward[j].node);
                } else {
                    assert(sides.forward[j].node != sides.backward[i].node);
                }
            }
        }
        let applied: GraphResult<()> = match side {
            SearchSide::Forward => apply_to_side(
                &mut self.forward,
                &self.backward,
                &mut self.best,
                new_depth,
                batch,
                verdicts,
                node_store,
                deleted_nodes,
                governor,
                Ghost(order[0].node),
                Ghost(before),
                Ghost(here),
                Ghost(order.len() as int),
                Ghost(other),
                Ghost(other_done),
                Ghost(asked),
            ),
            SearchSide::Backward => apply_to_side(
                &mut self.backward,
                &self.forward,
                &mut self.best,
                new_depth,
                batch,
                verdicts,
                node_store,
                deleted_nodes,
                governor,
                Ghost(order[0].node),
                Ghost(before),
                Ghost(here),
                Ghost(order.len() as int),
                Ghost(other),
                Ghost(other_done),
                Ghost(asked),
            ),
        };
        if let Err(error) = applied {
            return Err(error);
        }
        self.now = Ghost(after);
        self.protocol.state = ResumablePathState::NeedCandidates;
        self.protocol.pending_batch = None;
        self.protocol.pending_kind = None;
        if self.active_node.is_none() {
            self.open = Ghost(false);
            self.here = Ghost(here + 1);
        } else {
            self.resolved = Ghost(self.upto@);
        }
        proof {
            assert(self.level_wf(side)) by {
                assert(self.state_of(opposite_of(side)) == begun.state_of(opposite_of(side)));
            }
            assert forall|world: PathWorld|
                #![trigger begun.tracks(world)]
                begun.tracks(world) && world.judges(
                    node_store,
                    *deleted_nodes,
                    *batch,
                    verdicts@,
                ) implies self.tracks(world) by {
                let g = world.graph;
                let row = (g.adjacency)(order[here].node);
                assert(begun.level_tracks(side, world));
                assert forall|i: int| 0 <= i < asked.len() implies ok[i] == (g.allows)(
                    #[trigger] asked[i],
                ) by {
                    assert(candidate_edges(batch.candidates@)[i] == asked[i]);
                    assert(verdicts@[i] == verdicts@[i]);
                }
                lemma_settled_absorbs(g, before, here, new_depth as int, asked, ok);
                assert(row.take(row.len() as int) =~= row);
                assert(self.level_tracks(side, world));
            }
        }
        Ok(())
    }
}

/// Takes the answers to the page that was asked for.
pub fn apply_bidirectional_path_verdicts(
    machine: &mut ResumableBidirectionalBfs,
    batch: &BfsAdjacencyCandidateBatch,
    verdicts: &Vec<BfsAdjacencyVerdict>,
    node_store: &NodeStore,
    deleted_nodes: &RoaringBitmap,
    governor: &mut ResourceGovernor,
) -> (result: GraphResult<()>)
    requires
        old(machine).wf(),
        node_store.wf(),
    ensures
        ({
            let bytes = old(machine).answer_bytes(node_store, *deleted_nodes, *batch, verdicts@);
            if !old(machine).awaits(*batch) || !answers(*batch, verdicts@) {
                &&& *final(machine) == *old(machine)
                &&& final(governor)@ == old(governor)@
                &&& result is Err
                &&& result->Err_0@ == refused_answers(old(machine).protocol.state)
            } else if !old(governor)@.affords_memory(bytes) {
                &&& grown(old(governor)@, final(governor)@, bytes)
                &&& result is Err
                &&& result->Err_0@ == limit_error(ResourcePhase::QueryPaths, ResourceKind::Memory)
            } else {
                &&& final(governor)@ == old(governor)@.after_memory(bytes)
                &&& result is Ok
            }
        }),
        result is Ok ==> old(machine).answered_on(
            *final(machine),
            node_store,
            *deleted_nodes,
            *batch,
            verdicts@,
        ),
{
    let kind: PendingPathBatch = match machine.protocol.validate_path_verdicts(batch, verdicts) {
        Ok(kind) => kind,
        Err(error) => return Err(error),
    };
    let asked: bool = match kind {
        PendingPathBatch::Adjacency => machine.page.is_in_page(batch),
        PendingPathBatch::Endpoints => machine.protocol.is_asking(batch),
    };
    if !asked {
        return Err(internal("path machine received mismatched visibility verdicts"));
    }
    if kind == PendingPathBatch::Adjacency {
        return machine.apply_edges(batch, verdicts, node_store, deleted_nodes, governor);
    }
    let ghost before = *machine;
    let outcome: EndpointOutcome = machine.protocol.apply_endpoint_verdicts(batch, verdicts);
    if outcome == EndpointOutcome::Ready && machine.protocol.source == machine.protocol.target {
        machine.best = Some((0, machine.protocol.source));
        machine.found = true;
        machine.protocol.state = ResumablePathState::Complete;
        proof {
            let sides = machine.sides@;
            let node = machine.protocol.source;
            assert(sides.forward[0].node == node);
            assert(sides.backward[0].node == node);
            assert(discovered(sides.forward, node));
            assert(discovered(sides.backward, node));
            assert(position_of(sides.forward, node) == 0);
            assert(position_of(sides.backward, node) == 0);
            assert(trail(sides.forward, 0) =~= seq![(node, EdgeTypeId(0))]);
            assert(back_trail(sides.backward, 0) =~= Seq::empty());
            assert(joined_trail(sides, node) =~= seq![(node, EdgeTypeId(0))]);
        }
    }
    proof {
        if machine.protocol.source != machine.protocol.target {
            let sides = machine.sides@;
            assert(disjoint(sides.forward, sides.backward));
        }
        assert forall|world: PathWorld|
            #![trigger before.tracks(world)]
            before.tracks(world) && nodes_answered(*batch, verdicts@, world.shows) implies
            machine.tracks(world) by {
            assert(before.protocol.agrees(world.shows));
        }
    }
    Ok(())
}

impl ResumableBidirectionalBfs {
    /// Whether a search that is over ends with this: with the path of every graph
    /// that it is right about.
    pub open spec fn finished(
        &self,
        node_store: &NodeStore,
        labels: EdgeTypeLabels<'_>,
        result: GraphResult<Option<Vec<PathStep>>>,
    ) -> bool {
        forall|world: PathWorld|
            self.protocol.state is Complete && #[trigger] self.tracks(world) && world.nodes
                == node_store.nodes().len() ==> {
                &&& result is Ok
                &&& path_views(result->Ok_0) == match meeting_answer(
                    world,
                    self.protocol.source,
                    self.protocol.target,
                    self.max_depth as int,
                ) {
                    Some(nodes) => Some(path_view(node_store.nodes(), nodes, labels)),
                    None => None,
                }
            }
    }

    /// The path that was found.
    pub fn finish(self, node_store: &NodeStore, labels: EdgeTypeLabels<'_>) -> (result: GraphResult<
        Option<Vec<PathStep>>,
    >)
        requires
            self.wf(),
            node_store.addressable(),
        ensures
            !self.found ==> result is Ok && result->Ok_0 is None,
            self.finished(node_store, labels, result),
            result matches Err(error) ==> error@ is CorruptFile && ((exists|i: int|
                0 <= i < self.sides@.forward.len() && (#[trigger] self.sides@.forward[i]).node
                    >= node_store.nodes().len()) || (exists|i: int|
                0 <= i < self.sides@.backward.len() && (#[trigger] self.sides@.backward[i]).node
                    >= node_store.nodes().len())),
    {
        if !self.found {
            return Ok(None);
        }
        let ghost sides = self.sides@;
        let meeting: u32 = match self.best {
            Some((_, node)) => node,
            None => return Ok(None),
        };
        let ghost at = position_of(sides.forward, meeting);
        let ghost back_at = position_of(sides.backward, meeting);
        let mut nodes: Vec<(u32, EdgeTypeId)> = trail_nodes(
            &self.forward.parent,
            self.protocol.source,
            meeting,
            Ghost(sides.forward),
            Ghost(at),
        );
        let mut rest: Vec<(u32, EdgeTypeId)> = back_trail_nodes(
            &self.backward.parent,
            self.protocol.target,
            meeting,
            Ghost(sides.backward),
            Ghost(back_at),
        );
        let ghost first = nodes@;
        let ghost second = rest@;
        nodes.append(&mut rest);
        proof {
            lemma_trail_in_order(sides.forward, at);
            lemma_back_trail_in_order(sides.backward, back_at);
            assert(nodes@ =~= first + second);
        }
        match checked_steps(node_store, &nodes, labels) {
            Ok(steps) => Ok(Some(steps)),
            Err(error) => {
                proof {
                    let i = choose|i: int|
                        0 <= i < nodes@.len() && (#[trigger] nodes@[i]).0
                            >= node_store.nodes().len();
                    let node = nodes@[i].0;
                    if i < first.len() {
                        assert(first[i] == nodes@[i]);
                        let p = position_of(sides.forward, node);
                        assert(sides.forward[p].node == node);
                    } else {
                        assert(second[i - first.len()] == nodes@[i]);
                        let p = position_of(sides.backward, node);
                        assert(sides.backward[p].node == node);
                    }
                }
                Err(error)
            },
        }
    }
}

/// A search in pages from both ends finds exactly the path that a search in
/// one go finds.
pub proof fn law_paged_meeting_is_eager<N: NeighborSource>(
    node_store: &NodeStore,
    neighbors: &N,
    request: UnweightedPathRequest<'_>,
    context: QueryExecutionContext<'_>,
)
    requires
        !request.has_unidirectional_edges,
    ensures
        unweighted_path(node_store, neighbors, request, context) == match meeting_answer(
            query_world(node_store, neighbors, context),
            request.source,
            request.target,
            request.max_depth as int,
        ) {
            Some(nodes) => Some(
                path_view(node_store.nodes(), nodes, request_labels(request)),
            ),
            None => None,
        },
        query_world(node_store, neighbors, context).fits(
            node_store,
            neighbors,
            context.edge_type_filter,
        ),
{
}

/// Bytes of a page: for each item two edges and a candidate.
pub open spec fn path_page_bytes() -> nat {
    256 * (2 * vstd::layout::size_of::<Neighbor>() + vstd::layout::size_of::<
        BfsAdjacencyCandidate,
    >())
}

/// Bytes of a path machine before it has found anything: the greater of the
/// machines, a page, a mebibyte, and what each root is charged.
pub open spec fn path_machine_bytes(bidirectional: bool) -> nat {
    let meeting = vstd::layout::size_of::<ResumableBidirectionalBfs>();
    let single = vstd::layout::size_of::<ResumableSingleDirectionBfs>();
    (if meeting > single {
        meeting
    } else {
        single
    }) + path_page_bytes() + 1_048_576 + (if bidirectional {
        1024nat
    } else {
        512nat
    })
}

/// Bytes of a path machine before it has found anything.
pub fn estimated_resumable_path_workspace_bytes(bidirectional: bool) -> (result: GraphResult<u64>)
    ensures
        ({
            let item = 2 * vstd::layout::size_of::<Neighbor>() + vstd::layout::size_of::<
                BfsAdjacencyCandidate,
            >();
            match result {
                Ok(bytes) => bytes == path_machine_bytes(bidirectional),
                Err(error) => path_machine_bytes(bidirectional) > usize::MAX && error@
                    == ErrorView::Internal(
                    if item > usize::MAX {
                        "path page item size overflowed"@
                    } else if path_page_bytes() > usize::MAX {
                        "path page workspace overflowed"@
                    } else {
                        "path machine workspace overflowed"@
                    },
                ),
            }
        }),
{
    let item: u128 = 2 * core::mem::size_of::<Neighbor>() as u128 + core::mem::size_of::<
        BfsAdjacencyCandidate,
    >() as u128;
    if item > usize::MAX as u128 {
        return Err(internal("path page item size overflowed"));
    }
    let capacity: u128 = RESUMABLE_BFS_PAGE_CAPACITY as u128;
    assert(capacity * item == 256 * item) by (nonlinear_arith)
        requires
            capacity == 256,
    ;
    let page: u128 = capacity * item;
    if page > usize::MAX as u128 {
        return Err(internal("path page workspace overflowed"));
    }
    let meeting: usize = core::mem::size_of::<ResumableBidirectionalBfs>();
    let single: usize = core::mem::size_of::<ResumableSingleDirectionBfs>();
    let machine: usize = if meeting > single {
        meeting
    } else {
        single
    };
    let roots: u128 = if bidirectional {
        2
    } else {
        1
    };
    let bytes: u128 = machine as u128 + page + 1_048_576 + roots
        * PATH_STATE_BYTES_PER_VISIT as u128;
    if bytes > usize::MAX as u128 {
        return Err(internal("path machine workspace overflowed"));
    }
    Ok(bytes as u64)
}

} // verus!
