//! Analytics over the engine's whole graph.
use vstd::prelude::*;

use crate::components::{
    components_of, compute_components_with_neighbors_governed, link_graph, links_work,
    ComponentResult, LinkGraph,
};
use crate::edge_store::EdgeStore;
use crate::engine::Engine;
use crate::engine_paths::{fresh_budget, whole_graph_workspace_bytes};
use crate::errors::{ErrorView, GraphError, GraphResult};
use crate::neighbors::strip_weights;
use crate::overlay::{EdgeOverlay, OverlayNeighbors, TxDelta};
use crate::resource::{
    charged, limit_error, GovernorView, ResourceGovernor, ResourceKind, ResourceLimits,
    ResourcePhase,
};
use crate::types::TraversalDirection;

verus! {

/// Bytes that the search for components reserves for each node.
pub const COMPONENT_NODE_BYTES: u64 = 40;

impl Engine {
    /// The live nodes and the edges between them, with pending changes.
    pub open spec fn current_links(&self, delta: TxDelta) -> LinkGraph {
        LinkGraph {
            live: Seq::new(
                self.node_store.nodes().len(),
                |i: int| self.node_store.nodes()[i].active,
            ),
            adjacency: |node: u32|
                strip_weights(self.current_row(delta, TraversalDirection::Out, node)),
        }
    }

    /// What the search for components answers, and what it leaves of a budget.
    /// The first refusal decides; a search that starts finds the components,
    /// or runs out of work.
    pub open spec fn components_answer(
        &self,
        delta: TxDelta,
        before: GovernorView,
        after: GovernorView,
        result: GraphResult<ComponentResult>,
    ) -> bool {
        let workspace = 40 * self.node_store.nodes().len() as int;
        let links = self.current_links(delta);
        let work = links_work(links, links.live.len()) as int;
        let refusal = self.search_refusal(
            delta,
            before,
            workspace,
            ResourcePhase::AnalyticsWorkspace,
            ResourcePhase::AnalyticsWorkspace,
        );
        if !self.built {
            result is Err && result->Err_0@ == ErrorView::NotBuilt && after == before
        } else if refusal is Some {
            result is Err && result->Err_0@ == refusal->Some_0 && after == before
        } else {
            match result {
                Ok(components) => {
                    &&& components_of(links, components)
                    &&& before.affords(work)
                    &&& after == before.after_memory(workspace).after_work(work)
                },
                Err(error) => {
                    &&& error@ == limit_error(ResourcePhase::AnalyticsWorkspace, ResourceKind::Work)
                    &&& !before.affords(work)
                    &&& charged(before, after, work)
                },
            }
        }
    }

    /// Finds the components of the graph, within a budget. A workspace for
    /// every node stays reserved when the search succeeds.
    pub fn connected_components_governed(
        &self,
        delta: &TxDelta,
        governor: &mut ResourceGovernor,
    ) -> (result: GraphResult<ComponentResult>)
        requires
            self.wf(),
        ensures
            self.components_answer(*delta, old(governor)@, final(governor)@, result),
    {
        if !self.built {
            return Err(GraphError::NotBuilt);
        }
        let workspace: u64 = match whole_graph_workspace_bytes(
            self.node_store.node_count(),
            COMPONENT_NODE_BYTES,
        ) {
            Ok(workspace) => workspace,
            Err(error) => return Err(error),
        };
        let overlay_bytes: u64 = match self.reserve_search(
            delta,
            workspace,
            ResourcePhase::AnalyticsWorkspace,
            ResourcePhase::AnalyticsWorkspace,
            governor,
        ) {
            Ok(bytes) => bytes,
            Err(error) => return Err(error),
        };
        let base: &EdgeStore = self.base_store();
        let overlay: EdgeOverlay = self.traversal_edge_overlay(TraversalDirection::Out, delta);
        let neighbors = OverlayNeighbors::new(base, &overlay);
        proof {
            let g = link_graph(&self.node_store, &neighbors);
            let own = self.current_links(*delta);
            assert forall|node: u32| #[trigger] (g.adjacency)(node) == (own.adjacency)(node) by {
                assert(base.row(node) == self.base_row(node));
            }
            assert(g.adjacency =~= own.adjacency);
            assert(g.live =~= own.live);
        }
        let found: GraphResult<ComponentResult> = compute_components_with_neighbors_governed(
            &self.node_store,
            &neighbors,
            governor,
        );
        governor.release_memory(overlay_bytes);
        if found.is_err() {
            governor.release_memory(workspace);
        }
        found
    }

    /// Finds the components of the graph, within a budget of its own.
    pub fn connected_components(&self, delta: &TxDelta, limits: ResourceLimits) -> (result:
        GraphResult<ComponentResult>)
        requires
            self.wf(),
        ensures
            exists|after: GovernorView| #[trigger]
                self.components_answer(*delta, fresh_budget(limits), after, result),
    {
        let mut governor = ResourceGovernor::new(limits);
        self.connected_components_governed(delta, &mut governor)
    }
}

} // verus!
