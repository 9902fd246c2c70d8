//! Paths in the engine's graph: the base or the durable projection, under
//! buffered mutations and the running transaction's own changes.
use vstd::prelude::*;

use crate::bitmap::bitmap_contents;
use crate::edge_labels::EdgeTypeLabels;
use crate::edge_store::EdgeStore;
use crate::engine::Engine;
use crate::engine_nodes::{law_resolved_has_identity, resolved};
use crate::errors::{internal, ErrorView, GraphError, GraphResult};
use crate::meeting::{
    bidirectional_trail, law_bidirectional_is_shortest, law_bidirectional_trail_follows_edges,
    meet_work, start_sides, symmetric, typed_symmetric,
};
use crate::neighbors::{strip_weights, Neighbor, WeightedNeighbor, WeightedNeighborSource};
use crate::node_store::NodeView;
use crate::overlay::{
    added_edge, after_mutations, changes_bounded, erases, facing, law_last_delete_hides,
    law_last_insert_shows, lemma_overlaid_bounded, lemma_overlay_bounded, mutation_edge,
    overlaid_row, overlay_of, row_edge, EdgeOverlay, MutationKind, OverlayNeighbors, TxDelta,
};
use crate::path_finder::{
    lemma_all_decided, path_view, search_error, search_graph,
    shortest_path_with_neighbors_governed_with_context, step_views, UnweightedPathRequest,
};
use crate::relaxation::{
    final_frontier, final_work, law_recorded_cost_is_least, lineage, walk_cost, weighted_bounded,
    weighted_walk_between, Frontier, WeightedGraph, UNREACHED,
};
use crate::resource::{
    charged, limit_error, GovernorView, ResourceGovernor, ResourceKind, ResourceLimits,
    ResourcePhase,
};
use crate::search::{
    bfs_trail, bfs_work, bounded, is_walk, law_bfs_finds_iff_walk_exists, law_bfs_trail_is_shortest,
    stands_at, trail_follows, walk_between, SearchGraph,
};
use crate::text::{decimal, decimal_text};
use crate::types::{
    EdgeTypeId, PathStep, PathStepView, TraversalDirection, WeightedPathStep, WeightedPathStepView,
};
use crate::visibility::{QueryExecutionContext, VisibilityScope};
use crate::weighted_path::{
    lemma_all_weighted_decided, weighted_graph, weighted_path_view,
    weighted_shortest_path_with_neighbors_governed_with_context, weighted_step_views,
};

verus! {

/// Bytes that a search reserves for each node.
pub const PATH_NODE_BYTES: u64 = 80;

/// Bytes that a weighted search reserves for each node.
pub const WEIGHTED_NODE_BYTES: u64 = 64;

/// Bytes that a weighted search reserves for each edge.
pub const WEIGHTED_EDGE_BYTES: u64 = 24;

/// Bytes that an overlay may take for each changed edge.
pub const OVERLAY_EDGE_BYTES: u64 = 320;

/// Bytes of a workspace for every node or edge of a graph.
pub fn whole_graph_workspace_bytes(count: u32, bytes_each: u64) -> (result: GraphResult<u64>)
    ensures
        match result {
            Ok(bytes) => bytes == count * bytes_each,
            Err(error) => count * bytes_each > u64::MAX && error@ == ErrorView::Internal(
                "query workspace estimate overflowed"@,
            ),
        },
{
    match (count as u64).checked_mul(bytes_each) {
        Some(bytes) => Ok(bytes),
        None => Err(internal("query workspace estimate overflowed")),
    }
}

/// The error for an identity that no live node has.
pub open spec fn node_not_found(table_oid: u32, key: Seq<char>) -> ErrorView {
    ErrorView::NodeNotFound { table: decimal(table_oid as nat), pk: key }
}

/// The label of an edge type: the registered one, or one made of its number.
pub open spec fn registered_label(registry: Seq<String>, type_id: EdgeTypeId) -> Seq<char> {
    if type_id.0 < registry.len() {
        registry[type_id.0 as int]@
    } else {
        "type_"@ + decimal(type_id.0 as nat)
    }
}

/// What a path lists for each node of a trail.
pub open spec fn path_rows(
    nodes: Seq<NodeView>,
    trail: Seq<(u32, EdgeTypeId)>,
    registry: Seq<String>,
) -> Seq<PathStepView> {
    Seq::new(
        trail.len(),
        |i: int|
            PathStepView {
                step: i as i32,
                node_table: nodes[trail[i].0 as int].table_oid,
                node_id: nodes[trail[i].0 as int].key,
                edge_label: if i == 0 {
                    None
                } else {
                    Some(registered_label(registry, trail[i].1))
                },
            },
    )
}

/// What a weighted path lists for each node between two ends.
pub open spec fn weighted_path_rows(
    nodes: Seq<NodeView>,
    state: Frontier,
    source: u32,
    target: u32,
    registry: Seq<String>,
) -> Seq<WeightedPathStepView> {
    let line = lineage(state, source, target);
    Seq::new(
        line.len(),
        |i: int|
            WeightedPathStepView {
                step: i as i32,
                node_table: nodes[line[i] as int].table_oid,
                node_id: nodes[line[i] as int].key,
                edge_label: if i == 0 {
                    None
                } else {
                    Some(registered_label(registry, state.parent[line[i]].edge_type))
                },
                edge_weight: if i == 0 {
                    None
                } else {
                    Some(state.parent[line[i]].edge_weight)
                },
                step_cost: state.dist[line[i] as int] as int,
                total_cost: state.dist[target as int] as int,
            },
    )
}

impl Engine {
    /// The rows that paths are searched in, before pending changes.
    pub open spec fn base_row(&self, node: u32) -> Seq<WeightedNeighbor> {
        if self.reads_segments() {
            self.projection_snapshot->Some_0.forward.row(node)
        } else {
            self.edge_store.row(node)
        }
    }

    /// Whether the searched rows carry weights.
    pub open spec fn base_weighted(&self) -> bool {
        if self.reads_segments() {
            self.projection_snapshot->Some_0.forward.is_weighted()
        } else {
            self.edge_store.is_weighted()
        }
    }

    /// The rows that paths are searched in, seen from the edges' other ends.
    pub open spec fn base_inbound_row(&self, node: u32) -> Seq<WeightedNeighbor> {
        if self.reads_segments() {
            self.projection_snapshot->Some_0.reverse.row(node)
        } else {
            self.reverse_edge_store.row(node)
        }
    }

    /// The edges of a node as they are followed in a direction, with pending
    /// changes.
    pub open spec fn current_row(
        &self,
        delta: TxDelta,
        direction: TraversalDirection,
        node: u32,
    ) -> Seq<WeightedNeighbor> {
        overlaid_row(
            match direction {
                TraversalDirection::In => self.base_inbound_row(node),
                _ => self.base_row(node),
            },
            node,
            overlay_of(self.edge_buffer@, delta, direction),
        )
    }

    /// The graph that is searched: edges to live nodes that the running
    /// transaction has not deleted.
    pub open spec fn current_graph(
        &self,
        delta: TxDelta,
        direction: TraversalDirection,
    ) -> SearchGraph {
        SearchGraph {
            adjacency: |node: u32| strip_weights(self.current_row(delta, direction, node)),
            allows: |edge: Neighbor|
                self.node_store.live(edge.target) && !bitmap_contents(
                    delta.deleted_nodes,
                ).contains(edge.target),
        }
    }

    /// The weighted graph that is searched.
    pub open spec fn current_weighted_graph(&self, delta: TxDelta) -> WeightedGraph {
        WeightedGraph {
            adjacency: |node: u32| self.current_row(delta, TraversalDirection::Out, node),
            allows: |edge: WeightedNeighbor|
                self.node_store.live(edge.target) && !bitmap_contents(
                    delta.deleted_nodes,
                ).contains(edge.target),
        }
    }

    /// Whether edges are only in the engine's buffers.
    pub open spec fn overlaid(&self, delta: TxDelta) -> bool {
        self.edge_buffer@.len() > 0 || delta.inserted@.len() > 0 || delta.deleted@.len() > 0
    }

    /// Whether edges are only in the engine's buffers.
    pub fn has_edge_overlay(&self, delta: &TxDelta) -> (dirty: bool)
        ensures
            dirty == self.overlaid(*delta),
    {
        self.edge_buffer.len() > 0 || delta.inserted.len() > 0 || delta.deleted.len() > 0
    }

    /// Pending changes as they are followed in a direction.
    pub fn traversal_edge_overlay(&self, direction: TraversalDirection, delta: &TxDelta) -> (overlay:
        EdgeOverlay)
        ensures
            overlay@ == overlay_of(self.edge_buffer@, *delta, direction),
    {
        EdgeOverlay::build(&self.edge_buffer, delta, direction)
    }

    /// Bytes that the overlay of pending changes may take.
    pub open spec fn overlay_bytes(&self, delta: TxDelta) -> nat {
        320 * (self.edge_buffer@.len() + delta.inserted@.len() + delta.deleted@.len())
    }

    /// Why the bytes of the overlay cannot be told.
    pub open spec fn overlay_refusal(&self, delta: TxDelta) -> Option<ErrorView> {
        let count = self.edge_buffer@.len() + delta.inserted@.len() + delta.deleted@.len();
        if count > usize::MAX {
            Some(ErrorView::Internal("overlay edge count overflow"@))
        } else if self.overlay_bytes(delta) > usize::MAX {
            Some(ErrorView::Internal("overlay workspace overflow"@))
        } else {
            None
        }
    }

    /// Bytes that the overlay of pending changes may take.
    pub fn estimated_traversal_overlay_clone_bytes(&self, delta: &TxDelta) -> (result: GraphResult<
        u64,
    >)
        ensures
            match result {
                Ok(bytes) => self.overlay_refusal(*delta) is None && bytes == self.overlay_bytes(
                    *delta,
                ),
                Err(error) => self.overlay_refusal(*delta) == Some(error@),
            },
    {
        let first: usize = self.edge_buffer.len();
        let second: usize = delta.inserted.len();
        let third: usize = delta.deleted.len();
        let count: u128 = first as u128 + second as u128 + third as u128;
        if count > usize::MAX as u128 {
            return Err(internal("overlay edge count overflow"));
        }
        let bytes: u128 = 320 * count;
        if bytes > usize::MAX as u128 {
            return Err(internal("overlay workspace overflow"));
        }
        Ok(bytes as u64)
    }

    /// Why a search that needs a workspace cannot start.
    pub open spec fn search_refusal(
        &self,
        delta: TxDelta,
        before: GovernorView,
        workspace: int,
        phase: ResourcePhase,
        overlay_phase: ResourcePhase,
    ) -> Option<ErrorView> {
        if !before.admits_memory(workspace) {
            Some(limit_error(phase, ResourceKind::Memory))
        } else if self.overlay_refusal(delta) is Some {
            self.overlay_refusal(delta)
        } else if !before.after_memory(workspace).admits_memory(self.overlay_bytes(delta) as int) {
            Some(limit_error(overlay_phase, ResourceKind::Memory))
        } else if self.reads_segments() && self.projection_snapshot is None {
            Some(ErrorView::Internal("projection snapshot is missing"@))
        } else {
            None
        }
    }

    /// Reserves a workspace and the bytes of the overlay. The latter are what
    /// is returned; they are given back once the search is over.
    pub(crate) fn reserve_search(
        &self,
        delta: &TxDelta,
        workspace: u64,
        phase: ResourcePhase,
        overlay_phase: ResourcePhase,
        governor: &mut ResourceGovernor,
    ) -> (result: GraphResult<u64>)
        ensures
            match result {
                Ok(bytes) => {
                    &&& self.search_refusal(
                        *delta,
                        old(governor)@,
                        workspace as int,
                        phase,
                        overlay_phase,
                    ) is None
                    &&& bytes == self.overlay_bytes(*delta)
                    &&& old(governor)@.memory_used >= 0
                    &&& final(governor)@ == old(governor)@.after_memory(
                        workspace as int,
                    ).after_memory(bytes as int)
                },
                Err(error) => {
                    &&& self.search_refusal(
                        *delta,
                        old(governor)@,
                        workspace as int,
                        phase,
                        overlay_phase,
                    ) == Some(error@)
                    &&& final(governor)@ == old(governor)@
                },
            },
    {
        if let Err(error) = governor.reserve_memory(phase, workspace) {
            return Err(error);
        }
        let bytes: u64 = match self.estimated_traversal_overlay_clone_bytes(delta) {
            Ok(bytes) => bytes,
            Err(error) => {
                governor.release_memory(workspace);
                return Err(error);
            },
        };
        if let Err(error) = governor.reserve_memory(overlay_phase, bytes) {
            governor.release_memory(workspace);
            return Err(error);
        }
        if let Err(error) = self.layered_snapshot() {
            governor.release_memory(bytes);
            governor.release_memory(workspace);
            return Err(error);
        }
        Ok(bytes)
    }

    /// The rows that are searched, of a graph that can be searched.
    pub(crate) fn base_store(&self) -> (store: &EdgeStore)
        requires
            self.reads_segments() ==> self.projection_snapshot is Some,
        ensures
            forall|node: u32| #[trigger] store.row(node) == self.base_row(node),
            store.is_weighted() == self.base_weighted(),
    {
        match self.layered_snapshot() {
            Ok(Some(snapshot)) => &snapshot.forward,
            _ => &self.edge_store,
        }
    }

    /// The live node with an identity, or the error that there is none.
    pub(crate) fn require_node(&self, table_oid: u32, pk: &str, delta: &TxDelta) -> (result: GraphResult<u32>)
        requires
            self.wf(),
        ensures
            match resolved(*self, table_oid, pk@, bitmap_contents(delta.deleted_nodes)) {
                Some(node) => result is Ok && result->Ok_0 == node && node
                    < self.node_store.nodes().len(),
                None => result is Err && result->Err_0@ == node_not_found(table_oid, pk@),
            },
    {
        match self.resolve(table_oid, pk, &delta.deleted_nodes) {
            Some(node) => {
                proof {
                    law_resolved_has_identity(
                        *self,
                        table_oid,
                        pk@,
                        bitmap_contents(delta.deleted_nodes),
                    );
                }
                Ok(node)
            },
            None => Err(
                GraphError::NodeNotFound {
                    table: decimal_text(table_oid as u64),
                    pk: pk.to_owned(),
                },
            ),
        }
    }

    /// Whether some edge of the searched graph may have no edge back.
    pub open spec fn one_way(&self) -> bool {
        self.reads_segments() || self.has_unidirectional_edges
    }

    /// The trail between two nodes of the searched graph.
    pub open spec fn current_trail(
        &self,
        delta: TxDelta,
        source: u32,
        target: u32,
        max_depth: int,
    ) -> Option<Seq<(u32, EdgeTypeId)>> {
        let g = self.current_graph(delta, TraversalDirection::Out);
        if source == target {
            Some(seq![(source, EdgeTypeId(0))])
        } else if self.one_way() {
            bfs_trail(g, source, target, max_depth)
        } else {
            bidirectional_trail(g, source, target, max_depth)
        }
    }

    /// How many edges a search for the path looks at.
    pub open spec fn path_work(
        &self,
        delta: TxDelta,
        source: u32,
        target: u32,
        max_depth: int,
    ) -> int {
        let g = self.current_graph(delta, TraversalDirection::Out);
        if source == target {
            0
        } else if self.one_way() {
            bfs_work(g, source, target, max_depth, 0, self.node_store.nodes().len()) as int
        } else {
            meet_work(g, start_sides(source, target), 0, max_depth) as int
        }
    }

    /// The rows of the path between two nodes; none if there is no path.
    pub open spec fn current_path(
        &self,
        delta: TxDelta,
        source: u32,
        target: u32,
        max_depth: int,
    ) -> Seq<PathStepView> {
        match self.current_trail(delta, source, target, max_depth) {
            Some(trail) => path_rows(
                self.node_store.nodes(),
                trail,
                self.edge_type_registry@,
            ),
            None => Seq::empty(),
        }
    }
}

/// Whether an error is a limit that a search runs into, which starts with this
/// governor and needs this much work.
pub open spec fn runs_out(error: ErrorView, before: GovernorView, work: int) -> bool {
    ||| error == limit_error(ResourcePhase::QueryPaths, ResourceKind::Work) && !before.admits_work(
        work,
    )
    ||| error == limit_error(ResourcePhase::QueryPaths, ResourceKind::Elapsed)
        && before.can_expire()
}

/// What the result of a search says.
pub open spec fn path_result(result: GraphResult<Vec<PathStep>>) -> Result<
    Seq<PathStepView>,
    ErrorView,
> {
    match result {
        Ok(steps) => Ok(step_views(steps@)),
        Err(error) => Err(error@),
    }
}

/// What the result of a weighted search says.
pub open spec fn weighted_path_result(result: GraphResult<Vec<WeightedPathStep>>) -> Result<
    Seq<WeightedPathStepView>,
    ErrorView,
> {
    match result {
        Ok(steps) => Ok(weighted_step_views(steps@)),
        Err(error) => Err(error@),
    }
}

/// A budget of which nothing is used.
pub open spec fn fresh_budget(limits: ResourceLimits) -> GovernorView {
    GovernorView { limits, enforced: true, memory_used: 0, work_used: 0 }
}

impl Engine {
    /// What a search for a path answers, and what it leaves of a budget. The
    /// first refusal decides; a search that starts finds the path, or runs
    /// into a limit.
    pub open spec fn path_answer(
        &self,
        source_table_oid: u32,
        source_id: Seq<char>,
        target_table_oid: u32,
        target_id: Seq<char>,
        max_depth: int,
        delta: TxDelta,
        before: GovernorView,
        after: GovernorView,
        answer: Result<Seq<PathStepView>, ErrorView>,
    ) -> bool {
        let deleted = bitmap_contents(delta.deleted_nodes);
        let source = resolved(*self, source_table_oid, source_id, deleted);
        let target = resolved(*self, target_table_oid, target_id, deleted);
        let workspace = 80 * self.node_store.nodes().len() as int;
        let refusal = self.search_refusal(
            delta,
            before,
            workspace,
            ResourcePhase::QueryPaths,
            ResourcePhase::QueryExpand,
        );
        if !self.built {
            answer == Err::<Seq<PathStepView>, ErrorView>(ErrorView::NotBuilt) && after == before
        } else if source is None {
            answer == Err::<Seq<PathStepView>, ErrorView>(
                node_not_found(source_table_oid, source_id),
            ) && after == before
        } else if target is None {
            answer == Err::<Seq<PathStepView>, ErrorView>(
                node_not_found(target_table_oid, target_id),
            ) && after == before
        } else if refusal is Some {
            answer == Err::<Seq<PathStepView>, ErrorView>(refusal->Some_0) && after == before
        } else {
            let path = self.current_path(delta, source->Some_0, target->Some_0, max_depth);
            let work = self.path_work(delta, source->Some_0, target->Some_0, max_depth)
                + path.len() as int;
            match answer {
                Ok(steps) => {
                    &&& steps == path
                    &&& before.admits_work(work)
                    &&& after == before.after_memory(workspace).after_work(work)
                },
                Err(error) => runs_out(error, before, work) && charged(before, after, work),
            }
        }
    }

    /// The path between two nodes of a graph under an overlay.
    fn search_path(
        &self,
        source: u32,
        target: u32,
        max_depth: i32,
        delta: &TxDelta,
        governor: &mut ResourceGovernor,
    ) -> (result: GraphResult<Vec<PathStep>>)
        requires
            self.wf(),
            source < self.node_store.nodes().len(),
            target < self.node_store.nodes().len(),
            self.reads_segments() ==> self.projection_snapshot is Some,
        ensures
            ({
                let work = self.path_work(*delta, source, target, max_depth as int);
                &&& charged(old(governor)@, final(governor)@, work)
                &&& match result {
                    Ok(steps) => {
                        &&& step_views(steps@) == self.current_path(
                            *delta,
                            source,
                            target,
                            max_depth as int,
                        )
                        &&& old(governor)@.affords(work)
                        &&& final(governor)@ == old(governor)@.after_work(work)
                    },
                    Err(error) => search_error(error@, old(governor)@, work, false),
                }
            }),
    {
        let base: &EdgeStore = self.base_store();
        let one_way: bool = self.has_unidirectional_edges || match self.layered_snapshot() {
            Ok(Some(_)) => true,
            _ => false,
        };
        let overlay: EdgeOverlay = self.traversal_edge_overlay(TraversalDirection::Out, delta);
        let neighbors = OverlayNeighbors::new(base, &overlay);
        let visibility = VisibilityScope::unrestricted();
        let context = QueryExecutionContext {
            visibility: &visibility,
            edge_type_filter: None,
            deleted_nodes: &delta.deleted_nodes,
        };
        let request = UnweightedPathRequest {
            source,
            target,
            max_depth,
            has_unidirectional_edges: one_way,
            edge_type_registry: self.edge_type_registry.as_slice(),
            edge_type_label: None,
        };
        proof {
            let g = search_graph(&self.node_store, &neighbors, context);
            let own = self.current_graph(*delta, TraversalDirection::Out);
            assert forall|node: u32| #[trigger] (g.adjacency)(node) == (own.adjacency)(node) by {
                assert(base.row(node) == self.base_row(node));
            }
            assert(g.adjacency =~= own.adjacency);
            assert(g.allows =~= own.allows);
            lemma_all_decided(&self.node_store, &neighbors, request, context);
        }
        let found: GraphResult<Option<Vec<PathStep>>> =
            shortest_path_with_neighbors_governed_with_context(
            &self.node_store,
            &neighbors,
            request,
            context,
            governor,
        );
        match found {
            Ok(Some(steps)) => {
                proof {
                    let trail = self.current_trail(*delta, source, target, max_depth as int)->Some_0;
                    let labels = crate::path_finder::request_labels(request);
                    assert(path_view(self.node_store.nodes(), trail, labels) =~= path_rows(
                        self.node_store.nodes(),
                        trail,
                        self.edge_type_registry@,
                    ));
                }
                Ok(steps)
            },
            Ok(None) => {
                let steps: Vec<PathStep> = Vec::new();
                assert(step_views(steps@) =~= Seq::<PathStepView>::empty());
                Ok(steps)
            },
            Err(error) => Err(error),
        }
    }

    /// The path between two nodes, within a budget. A workspace for every node
    /// stays reserved when the search succeeds.
    pub fn shortest_path_governed(
        &self,
        source_table_oid: u32,
        source_id: &str,
        target_table_oid: u32,
        target_id: &str,
        max_depth: i32,
        delta: &TxDelta,
        governor: &mut ResourceGovernor,
    ) -> (result: GraphResult<Vec<PathStep>>)
        requires
            self.wf(),
        ensures
            self.path_answer(
                source_table_oid,
                source_id@,
                target_table_oid,
                target_id@,
                max_depth as int,
                *delta,
                old(governor)@,
                final(governor)@,
                path_result(result),
            ),
    {
        if !self.built {
            return Err(GraphError::NotBuilt);
        }
        let source: u32 = match self.require_node(source_table_oid, source_id, delta) {
            Ok(source) => source,
            Err(error) => return Err(error),
        };
        let target: u32 = match self.require_node(target_table_oid, target_id, delta) {
            Ok(target) => target,
            Err(error) => return Err(error),
        };
        let workspace: u64 = match whole_graph_workspace_bytes(
            self.node_store.node_count(),
            PATH_NODE_BYTES,
        ) {
            Ok(workspace) => workspace,
            Err(error) => return Err(error),
        };
        let overlay_bytes: u64 = match self.reserve_search(
            delta,
            workspace,
            ResourcePhase::QueryPaths,
            ResourcePhase::QueryExpand,
            governor,
        ) {
            Ok(bytes) => bytes,
            Err(error) => return Err(error),
        };
        let found: GraphResult<Vec<PathStep>> = self.search_path(
            source,
            target,
            max_depth,
            delta,
            governor,
        );
        governor.release_memory(overlay_bytes);
        let path: Vec<PathStep> = match found {
            Ok(path) => path,
            Err(error) => {
                governor.release_memory(workspace);
                return Err(error);
            },
        };
        if let Err(error) = governor.consume_work(ResourcePhase::QueryPaths, path.len() as u64) {
            governor.release_memory(workspace);
            return Err(error);
        }
        Ok(path)
    }

    /// The path between two nodes, within a budget of its own.
    pub fn shortest_path(
        &self,
        source_table_oid: u32,
        source_id: &str,
        target_table_oid: u32,
        target_id: &str,
        max_depth: i32,
        delta: &TxDelta,
        limits: ResourceLimits,
    ) -> (result: GraphResult<Vec<PathStep>>)
        requires
            self.wf(),
        ensures
            exists|after: GovernorView|
                #[trigger] self.path_answer(
                    source_table_oid,
                    source_id@,
                    target_table_oid,
                    target_id@,
                    max_depth as int,
                    *delta,
                    fresh_budget(limits),
                    after,
                    path_result(result),
                ),
    {
        let mut governor = ResourceGovernor::new(limits);
        self.shortest_path_governed(
            source_table_oid,
            source_id,
            target_table_oid,
            target_id,
            max_depth,
            delta,
            &mut governor,
        )
    }
}

impl Engine {
    /// Whether every searched edge leads to a slot of the store.
    pub open spec fn current_edges_bounded(&self, delta: TxDelta) -> bool {
        forall|node: u32, i: int|
            0 <= i < self.current_row(delta, TraversalDirection::Out, node).len() ==> (
            #[trigger] self.current_row(delta, TraversalDirection::Out, node)[i]).target
                < self.node_store.nodes().len()
    }

    /// The rows of the cheapest path between two nodes; none if there is no
    /// path or no weights.
    pub open spec fn current_weighted_path(&self, delta: TxDelta, source: u32, target: u32) -> Seq<
        WeightedPathStepView,
    > {
        let state = final_frontier(
            self.current_weighted_graph(delta),
            self.node_store.nodes().len(),
            source,
            target,
        );
        if !self.base_weighted() || state.dist[target as int] == UNREACHED {
            Seq::empty()
        } else {
            weighted_path_rows(
                self.node_store.nodes(),
                state,
                source,
                target,
                self.edge_type_registry@,
            )
        }
    }

    /// How many edges a search for the cheapest path looks at.
    pub open spec fn weighted_path_work(&self, delta: TxDelta, source: u32, target: u32) -> int {
        if self.base_weighted() {
            final_work(
                self.current_weighted_graph(delta),
                self.node_store.nodes().len(),
                source,
                target,
            ) as int
        } else {
            0
        }
    }

    /// Why pending edges keep a weighted search from being done.
    pub open spec fn weight_refusal(&self, delta: TxDelta) -> Option<ErrorView> {
        if self.overlaid(delta) && !self.reads_segments() {
            Some(
                ErrorView::UnsupportedOperation {
                    operation: "graph.weighted_shortest_path() with pending edge overlays"@,
                    reason:
                        "pending edge overlays do not carry stable edge weights until graph.vacuum() or graph.maintenance() merges them"@,
                },
            )
        } else if self.edge_buffer@.len() > 0 && self.reads_segments() {
            Some(
                ErrorView::UnsupportedOperation {
                    operation: "graph.weighted_shortest_path() with pending edge overlays"@,
                    reason:
                        "pending committed edge_buffer overlays do not carry stable edge weights until graph.vacuum() or graph.maintenance() merges them"@,
                },
            )
        } else {
            None
        }
    }

    /// What a search for the cheapest path answers, and what it leaves of a
    /// budget. The first refusal decides; a search that starts finds the path,
    /// or runs into a limit.
    pub open spec fn weighted_path_answer(
        &self,
        source_table_oid: u32,
        source_id: Seq<char>,
        target_table_oid: u32,
        target_id: Seq<char>,
        delta: TxDelta,
        before: GovernorView,
        after: GovernorView,
        answer: Result<Seq<WeightedPathStepView>, ErrorView>,
    ) -> bool {
        let deleted = bitmap_contents(delta.deleted_nodes);
        let source = resolved(*self, source_table_oid, source_id, deleted);
        let target = resolved(*self, target_table_oid, target_id, deleted);
        let workspace = 64 * self.node_store.nodes().len() + 24 * self.edge_store.count();
        let refusal = self.search_refusal(
            delta,
            before,
            workspace as int,
            ResourcePhase::QueryPaths,
            ResourcePhase::QueryExpand,
        );
        if !self.built {
            answer == Err::<Seq<WeightedPathStepView>, ErrorView>(ErrorView::NotBuilt) && after
                == before
        } else if refusal is Some {
            answer == Err::<Seq<WeightedPathStepView>, ErrorView>(refusal->Some_0) && after
                == before
        } else if self.weight_refusal(delta) is Some {
            answer == Err::<Seq<WeightedPathStepView>, ErrorView>(
                self.weight_refusal(delta)->Some_0,
            ) && after == before
        } else if source is None {
            answer == Err::<Seq<WeightedPathStepView>, ErrorView>(
                node_not_found(source_table_oid, source_id),
            ) && after == before
        } else if target is None {
            answer == Err::<Seq<WeightedPathStepView>, ErrorView>(
                node_not_found(target_table_oid, target_id),
            ) && after == before
        } else {
            let path = self.current_weighted_path(delta, source->Some_0, target->Some_0);
            let work = self.weighted_path_work(delta, source->Some_0, target->Some_0)
                + path.len() as int;
            match answer {
                Ok(steps) => {
                    &&& steps == path
                    &&& before.admits_work(work)
                    &&& after == before.after_memory(workspace as int).after_work(work)
                },
                Err(error) => runs_out(error, before, work) && charged(before, after, work),
            }
        }
    }

    /// The cheapest path between two nodes of a graph under an overlay.
    fn search_weighted_path(
        &self,
        source: u32,
        target: u32,
        delta: &TxDelta,
        governor: &mut ResourceGovernor,
    ) -> (result: GraphResult<Vec<WeightedPathStep>>)
        requires
            self.wf(),
            source < self.node_store.nodes().len(),
            target < self.node_store.nodes().len(),
            self.reads_segments() ==> self.projection_snapshot is Some,
            self.current_edges_bounded(*delta),
        ensures
            ({
                let work = self.weighted_path_work(*delta, source, target);
                &&& charged(old(governor)@, final(governor)@, work)
                &&& match result {
                    Ok(steps) => {
                        &&& weighted_step_views(steps@) == self.current_weighted_path(
                            *delta,
                            source,
                            target,
                        )
                        &&& old(governor)@.affords(work)
                        &&& final(governor)@ == old(governor)@.after_work(work)
                    },
                    Err(error) => search_error(error@, old(governor)@, work, false),
                }
            }),
    {
        let base: &EdgeStore = self.base_store();
        let overlay: EdgeOverlay = self.traversal_edge_overlay(TraversalDirection::Out, delta);
        let neighbors = OverlayNeighbors::new(base, &overlay);
        let visibility = VisibilityScope::unrestricted();
        let context = QueryExecutionContext {
            visibility: &visibility,
            edge_type_filter: None,
            deleted_nodes: &delta.deleted_nodes,
        };
        proof {
            let g = weighted_graph(&self.node_store, &neighbors, context);
            let own = self.current_weighted_graph(*delta);
            assert forall|node: u32| #[trigger] (g.adjacency)(node) == (own.adjacency)(node) by {
                assert(base.row(node) == self.base_row(node));
            }
            assert(g.adjacency =~= own.adjacency);
            assert(g.allows =~= own.allows);
            assert forall|node: u32, i: int|
                0 <= i < neighbors.weighted_adjacency(node).len() && context.shows_edge(
                    (#[trigger] neighbors.weighted_adjacency(node)[i]).unweighted(),
                ) implies neighbors.weighted_adjacency(node)[i].target
                < self.node_store.nodes().len() by {
                assert(base.row(node) == self.base_row(node));
                assert(neighbors.weighted_adjacency(node) == self.current_row(
                    *delta,
                    TraversalDirection::Out,
                    node,
                ));
            }
            lemma_all_weighted_decided(&self.node_store, &neighbors, source, target, context);
        }
        let registry: &[String] = self.edge_type_registry.as_slice();
        let found: GraphResult<Option<Vec<WeightedPathStep>>> =
            weighted_shortest_path_with_neighbors_governed_with_context(
            &self.node_store,
            &neighbors,
            source,
            target,
            registry,
            context,
            governor,
        );
        match found {
            Ok(Some(steps)) => {
                proof {
                    let state = final_frontier(
                        self.current_weighted_graph(*delta),
                        self.node_store.nodes().len(),
                        source,
                        target,
                    );
                    let labels = EdgeTypeLabels { registry, resolver: None };
                    assert(weighted_path_view(
                        self.node_store.nodes(),
                        state,
                        source,
                        target,
                        labels,
                    ) =~= weighted_path_rows(
                        self.node_store.nodes(),
                        state,
                        source,
                        target,
                        self.edge_type_registry@,
                    ));
                }
                Ok(steps)
            },
            Ok(None) => {
                let steps: Vec<WeightedPathStep> = Vec::new();
                assert(weighted_step_views(steps@) =~= Seq::<WeightedPathStepView>::empty());
                Ok(steps)
            },
            Err(error) => Err(error),
        }
    }

    /// The cheapest path between two nodes, within a budget. A workspace for
    /// every node and edge stays reserved when the search succeeds.
    pub fn weighted_shortest_path_governed(
        &self,
        source_table_oid: u32,
        source_id: &str,
        target_table_oid: u32,
        target_id: &str,
        delta: &TxDelta,
        governor: &mut ResourceGovernor,
    ) -> (result: GraphResult<Vec<WeightedPathStep>>)
        requires
            self.wf(),
            self.current_edges_bounded(*delta),
        ensures
            self.weighted_path_answer(
                source_table_oid,
                source_id@,
                target_table_oid,
                target_id@,
                *delta,
                old(governor)@,
                final(governor)@,
                weighted_path_result(result),
            ),
    {
        if !self.built {
            return Err(GraphError::NotBuilt);
        }
        let workspace: u64 = self.node_store.node_count() as u64 * WEIGHTED_NODE_BYTES
            + self.edge_store.edge_count() as u64 * WEIGHTED_EDGE_BYTES;
        let overlay_bytes: u64 = match self.reserve_search(
            delta,
            workspace,
            ResourcePhase::QueryPaths,
            ResourcePhase::QueryExpand,
            governor,
        ) {
            Ok(bytes) => bytes,
            Err(error) => return Err(error),
        };
        let found: GraphResult<Vec<WeightedPathStep>> = self.resolve_weighted_path(
            source_table_oid,
            source_id,
            target_table_oid,
            target_id,
            delta,
            governor,
        );
        governor.release_memory(overlay_bytes);
        let path: Vec<WeightedPathStep> = match found {
            Ok(path) => path,
            Err(error) => {
                governor.release_memory(workspace);
                return Err(error);
            },
        };
        if let Err(error) = governor.consume_work(ResourcePhase::QueryPaths, path.len() as u64) {
            governor.release_memory(workspace);
            return Err(error);
        }
        Ok(path)
    }

    /// The part of a search that runs once its workspace is reserved.
    fn resolve_weighted_path(
        &self,
        source_table_oid: u32,
        source_id: &str,
        target_table_oid: u32,
        target_id: &str,
        delta: &TxDelta,
        governor: &mut ResourceGovernor,
    ) -> (result: GraphResult<Vec<WeightedPathStep>>)
        requires
            self.wf(),
            self.current_edges_bounded(*delta),
            self.reads_segments() ==> self.projection_snapshot is Some,
        ensures
            ({
                let deleted = bitmap_contents(delta.deleted_nodes);
                let source = resolved(*self, source_table_oid, source_id@, deleted);
                let target = resolved(*self, target_table_oid, target_id@, deleted);
                &&& if self.weight_refusal(*delta) is Some {
                    result is Err && result->Err_0@ == self.weight_refusal(*delta)->Some_0
                        && final(governor)@ == old(governor)@
                } else if source is None {
                    result is Err && result->Err_0@ == node_not_found(source_table_oid, source_id@)
                        && final(governor)@ == old(governor)@
                } else if target is None {
                    result is Err && result->Err_0@ == node_not_found(target_table_oid, target_id@)
                        && final(governor)@ == old(governor)@
                } else {
                    let work = self.weighted_path_work(*delta, source->Some_0, target->Some_0);
                    &&& charged(old(governor)@, final(governor)@, work)
                    &&& match result {
                        Ok(steps) => {
                            &&& weighted_step_views(steps@) == self.current_weighted_path(
                                *delta,
                                source->Some_0,
                                target->Some_0,
                            )
                            &&& old(governor)@.affords(work)
                            &&& final(governor)@ == old(governor)@.after_work(work)
                        },
                        Err(error) => search_error(error@, old(governor)@, work, false),
                    }
                }
            }),
    {
        let layered: bool = match self.layered_snapshot() {
            Ok(Some(_)) => true,
            _ => false,
        };
        if self.has_edge_overlay(delta) && !layered {
            return Err(
                GraphError::UnsupportedOperation {
                    operation: "graph.weighted_shortest_path() with pending edge overlays".to_owned(),
                    reason:
                        "pending edge overlays do not carry stable edge weights until graph.vacuum() or graph.maintenance() merges them".to_owned(),
                },
            );
        }
        if self.edge_buffer.len() > 0 && layered {
            return Err(
                GraphError::UnsupportedOperation {
                    operation: "graph.weighted_shortest_path() with pending edge overlays".to_owned(),
                    reason:
                        "pending committed edge_buffer overlays do not carry stable edge weights until graph.vacuum() or graph.maintenance() merges them".to_owned(),
                },
            );
        }
        let source: u32 = match self.require_node(source_table_oid, source_id, delta) {
            Ok(source) => source,
            Err(error) => return Err(error),
        };
        let target: u32 = match self.require_node(target_table_oid, target_id, delta) {
            Ok(target) => target,
            Err(error) => return Err(error),
        };
        self.search_weighted_path(source, target, delta, governor)
    }

    /// The cheapest path between two nodes, within a budget of its own.
    pub fn weighted_shortest_path(
        &self,
        source_table_oid: u32,
        source_id: &str,
        target_table_oid: u32,
        target_id: &str,
        delta: &TxDelta,
        limits: ResourceLimits,
    ) -> (result: GraphResult<Vec<WeightedPathStep>>)
        requires
            self.wf(),
            self.current_edges_bounded(*delta),
        ensures
            exists|after: GovernorView|
                #[trigger] self.weighted_path_answer(
                    source_table_oid,
                    source_id@,
                    target_table_oid,
                    target_id@,
                    *delta,
                    fresh_budget(limits),
                    after,
                    weighted_path_result(result),
                ),
    {
        let mut governor = ResourceGovernor::new(limits);
        self.weighted_shortest_path_governed(
            source_table_oid,
            source_id,
            target_table_oid,
            target_id,
            delta,
            &mut governor,
        )
    }
}

/// Where stored edges and pending changes speak of nodes of the store, so does
/// every edge that is searched.
pub proof fn law_bounded_changes_bound_edges(engine: Engine, delta: TxDelta)
    requires
        changes_bounded(engine.edge_buffer@, delta, engine.node_store.nodes().len()),
        forall|node: u32, i: int|
            0 <= i < engine.base_row(node).len() ==> (#[trigger] engine.base_row(node)[i]).target
                < engine.node_store.nodes().len(),
    ensures
        engine.current_edges_bounded(delta),
{
    let nodes = engine.node_store.nodes().len();
    let overlay = overlay_of(engine.edge_buffer@, delta, TraversalDirection::Out);
    lemma_overlay_bounded(engine.edge_buffer@, delta, TraversalDirection::Out, nodes);
    assert forall|node: u32, i: int|
        0 <= i < engine.current_row(delta, TraversalDirection::Out, node).len() implies (
    #[trigger] engine.current_row(delta, TraversalDirection::Out, node)[i]).target < nodes by {
        lemma_overlaid_bounded(engine.base_row(node), node, overlay, nodes);
    }
}

/// The path that an engine answers is a shortest one: there is a path exactly
/// when an admitted walk within the depth limit leads to the target, and no
/// such walk has fewer edges. A graph that is searched from both ends needs an
/// edge back for every edge.
pub proof fn law_path_is_shortest(
    engine: Engine,
    delta: TxDelta,
    source: u32,
    target: u32,
    max_depth: int,
    walk: Seq<Neighbor>,
)
    requires
        source < engine.node_store.nodes().len(),
        source != target,
        0 <= max_depth,
        engine.one_way() || symmetric(engine.current_graph(delta, TraversalDirection::Out)),
    ensures
        ({
            let g = engine.current_graph(delta, TraversalDirection::Out);
            let path = engine.current_path(delta, source, target, max_depth);
            &&& path.len() > 0 <==> exists|other: Seq<Neighbor>| #[trigger]
                walk_between(g, source, target, other) && other.len() <= max_depth
            &&& path.len() > 0 && walk_between(g, source, target, walk) ==> path.len()
                <= walk.len() + 1
        }),
{
    let g = engine.current_graph(delta, TraversalDirection::Out);
    let nodes = engine.node_store.nodes().len();
    assert(bounded(g, nodes));
    law_bfs_finds_iff_walk_exists(g, source, target, max_depth, nodes);
    if !engine.one_way() {
        law_bidirectional_is_shortest(g, source, target, max_depth, nodes);
    }
    if bfs_trail(g, source, target, max_depth) is Some {
        law_bfs_trail_is_shortest(g, source, target, max_depth, walk);
        let own = choose|own: Seq<Neighbor>|
            #![trigger is_walk(g, source, own)]
            walk_between(g, source, target, own) && trail_follows(
                bfs_trail(g, source, target, max_depth)->0,
                source,
                own,
            ) && own.len() <= max_depth;
        assert(bfs_trail(g, source, target, max_depth)->0.len() == own.len() + 1);
    }
}

/// Whether rows list the nodes of a walk from the source, and the labels of its
/// edges.
pub open spec fn rows_follow(
    engine: Engine,
    rows: Seq<PathStepView>,
    source: u32,
    walk: Seq<Neighbor>,
) -> bool {
    let nodes = engine.node_store.nodes();
    &&& rows.len() == walk.len() + 1
    &&& forall|i: int|
        0 <= i < rows.len() ==> {
            let node = nodes[stands_at(source, walk, i) as int];
            &&& (#[trigger] rows[i]).node_table == node.table_oid
            &&& rows[i].node_id == node.key
            &&& rows[i].edge_label == if i == 0 {
                None
            } else {
                Some(registered_label(engine.edge_type_registry@, walk[i - 1].type_id))
            }
        }
}

/// The path that an engine answers follows admitted edges from the source to the
/// target, node by node and label by label. A graph that is searched from both
/// ends needs an edge back of the same type for every edge.
pub proof fn law_path_follows_edges(
    engine: Engine,
    delta: TxDelta,
    source: u32,
    target: u32,
    max_depth: int,
)
    requires
        0 <= max_depth,
        engine.one_way() || typed_symmetric(
            engine.current_graph(delta, TraversalDirection::Out),
        ),
    ensures
        ({
            let g = engine.current_graph(delta, TraversalDirection::Out);
            let path = engine.current_path(delta, source, target, max_depth);
            path.len() > 0 ==> exists|own: Seq<Neighbor>|
                #![trigger is_walk(g, source, own)]
                walk_between(g, source, target, own) && rows_follow(engine, path, source, own)
        }),
{
    let g = engine.current_graph(delta, TraversalDirection::Out);
    if let Some(found) = engine.current_trail(delta, source, target, max_depth) {
        if source == target {
            let none = Seq::<Neighbor>::empty();
            assert(is_walk(g, source, none));
            assert(trail_follows(found, source, none));
        } else if engine.one_way() {
            law_bfs_trail_is_shortest(g, source, target, max_depth, Seq::empty());
        } else {
            law_bidirectional_trail_follows_edges(g, source, target, max_depth);
        }
        let own = choose|own: Seq<Neighbor>|
            #![trigger is_walk(g, source, own)]
            walk_between(g, source, target, own) && trail_follows(found, source, own);
        let path = engine.current_path(delta, source, target, max_depth);
        assert forall|i: int| 0 <= i < path.len() implies found[i].0 == stands_at(source, own, i)
            && (i > 0 ==> (#[trigger] found[i]).1 == own[i - 1].type_id) by {
            if i > 0 {
                let edge = own[i - 1];
                assert(found[(i - 1) + 1] == (edge.target, edge.type_id));
            }
        }
        assert(rows_follow(engine, path, source, own));
        assert(is_walk(g, source, own));
    }
}

/// The weighted path that an engine answers is a cheapest one: no admitted walk
/// costs less than the total that every row tells.
pub proof fn law_weighted_path_is_cheapest(
    engine: Engine,
    delta: TxDelta,
    source: u32,
    target: u32,
    walk: Seq<WeightedNeighbor>,
    at: int,
)
    requires
        engine.current_edges_bounded(delta),
        source < engine.node_store.nodes().len(),
        target < engine.node_store.nodes().len(),
        0 <= at < engine.current_weighted_path(delta, source, target).len(),
        weighted_walk_between(engine.current_weighted_graph(delta), source, target, walk),
        walk_cost(walk, walk.len() as int) < UNREACHED,
    ensures
        engine.current_weighted_path(delta, source, target)[at].total_cost <= walk_cost(
            walk,
            walk.len() as int,
        ),
{
    let g = engine.current_weighted_graph(delta);
    let nodes = engine.node_store.nodes().len();
    assert(weighted_bounded(g, nodes));
    law_recorded_cost_is_least(g, nodes, source, target, walk);
}

/// The last buffered mutation decides of its edge, whichever way edges are
/// followed: an edge that it inserts is followed, and one that it deletes is
/// not.
pub proof fn law_last_mutation_decides(
    engine: Engine,
    delta: TxDelta,
    direction: TraversalDirection,
)
    requires
        engine.edge_buffer@.len() > 0,
        delta.inserted@.len() == 0,
        delta.deleted@.len() == 0,
    ensures
        ({
            let mutation = engine.edge_buffer@.last();
            let edge = facing(mutation_edge(mutation), direction);
            let row = engine.current_row(delta, direction, edge.source);
            match mutation.kind {
                MutationKind::Insert => row.contains(added_edge(edge)),
                MutationKind::Delete => forall|i: int|
                    0 <= i < row.len() ==> !erases(edge, row_edge(edge.source, #[trigger] row[i])),
            }
        }),
{
    let mutation = engine.edge_buffer@.last();
    let edge = facing(mutation_edge(mutation), direction);
    let before = after_mutations(
        engine.edge_buffer@,
        direction,
        (engine.edge_buffer@.len() - 1) as nat,
    );
    let base = match direction {
        TraversalDirection::In => engine.base_inbound_row(edge.source),
        _ => engine.base_row(edge.source),
    };
    match mutation.kind {
        MutationKind::Insert => {
            law_last_insert_shows(base, before, edge);
        },
        MutationKind::Delete => {
            law_last_delete_hides(base, before, edge);
        },
    }
}

} // verus!
