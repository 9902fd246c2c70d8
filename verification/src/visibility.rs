//! Row visibility and edge admission of one query.
use roaring::RoaringBitmap;
use vstd::prelude::*;

use crate::bitmap::bitmap_contents;
use crate::errors::{internal, ErrorView, GraphError, GraphResult};
use crate::neighbors::Neighbor;
use crate::types::EdgeTypeId;

verus! {

/// What a caller may see.
pub struct VisibilityScope {
    restricted: bool,
    hidden_nodes: RoaringBitmap,
    hidden_relationships: RoaringBitmap,
    protected_edge_types: RoaringBitmap,
}

/// The error for an edge whose visibility cannot be decided.
pub open spec fn undecided_relationship() -> ErrorView {
    ErrorView::Internal("relationship visibility requires a source identity"@)
}

impl VisibilityScope {
    /// Whether the caller may see a node.
    pub closed spec fn shows_node(&self, node: u32) -> bool {
        !self.restricted || !bitmap_contents(self.hidden_nodes).contains(node)
    }

    /// Whether the caller may see a relationship; `None` if an edge of a
    /// protected type carries no identity to decide by.
    pub closed spec fn relationship_verdict(
        &self,
        type_id: EdgeTypeId,
        relationship_id: Option<u32>,
    ) -> Option<bool> {
        if !self.restricted {
            Some(true)
        } else {
            match relationship_id {
                Some(id) => Some(!bitmap_contents(self.hidden_relationships).contains(id)),
                None => if bitmap_contents(self.protected_edge_types).contains(type_id.0) {
                    None
                } else {
                    Some(true)
                },
            }
        }
    }

    /// A scope that shows everything.
    pub fn unrestricted() -> (scope: Self)
        ensures
            forall|node: u32| scope.shows_node(node),
            forall|type_id: EdgeTypeId, id: Option<u32>| #[trigger]
                scope.relationship_verdict(type_id, id) == Some(true),
    {
        VisibilityScope {
            restricted: false,
            hidden_nodes: RoaringBitmap::new(),
            hidden_relationships: RoaringBitmap::new(),
            protected_edge_types: RoaringBitmap::new(),
        }
    }

    /// A scope that hides nodes and relationships, and cannot decide an
    /// unidentified edge of a protected type.
    pub fn enforced(
        hidden_nodes: RoaringBitmap,
        hidden_relationships: RoaringBitmap,
        protected_edge_types: RoaringBitmap,
    ) -> (scope: Self)
        ensures
            forall|node: u32| #[trigger]
                scope.shows_node(node) == !bitmap_contents(hidden_nodes).contains(node),
            forall|type_id: EdgeTypeId, id: u32| #[trigger]
                scope.relationship_verdict(type_id, Some(id)) == Some(
                    !bitmap_contents(hidden_relationships).contains(id),
                ),
            forall|type_id: EdgeTypeId| #[trigger]
                scope.relationship_verdict(type_id, None) == if bitmap_contents(
                    protected_edge_types,
                ).contains(type_id.0) {
                    None
                } else {
                    Some(true)
                },
    {
        VisibilityScope {
            restricted: true,
            hidden_nodes,
            hidden_relationships,
            protected_edge_types,
        }
    }

    /// Whether the caller may see a node.
    pub fn allows_node(&self, node: u32) -> (allowed: bool)
        ensures
            allowed == self.shows_node(node),
    {
        !self.restricted || !self.hidden_nodes.contains(node)
    }

    /// Whether the caller may see a relationship.
    pub fn allows_relationship(&self, type_id: EdgeTypeId, relationship_id: Option<u32>) -> (result:
        GraphResult<bool>)
        ensures
            match self.relationship_verdict(type_id, relationship_id) {
                Some(verdict) => result matches Ok(allowed) && allowed == verdict,
                None => result matches Err(error) && error@ == undecided_relationship(),
            },
    {
        if !self.restricted {
            return Ok(true);
        }
        match relationship_id {
            Some(id) => Ok(!self.hidden_relationships.contains(id)),
            None => if self.protected_edge_types.contains(type_id.get()) {
                Err(internal("relationship visibility requires a source identity"))
            } else {
                Ok(true)
            },
        }
    }
}

/// What decides which edges a query follows.
#[derive(Clone, Copy)]
pub struct QueryExecutionContext<'a> {
    pub visibility: &'a VisibilityScope,
    /// Edge types to follow; `None` follows all.
    pub edge_type_filter: Option<&'a RoaringBitmap>,
    /// Nodes that the running transaction has deleted.
    pub deleted_nodes: &'a RoaringBitmap,
}

impl<'a> QueryExecutionContext<'a> {
    /// Whether an edge type passes the filter.
    pub open spec fn passes_filter(&self, type_id: EdgeTypeId) -> bool {
        match self.edge_type_filter {
            Some(filter) => bitmap_contents(*filter).contains(type_id.0),
            None => true,
        }
    }

    /// Whether the running transaction has deleted a node.
    pub open spec fn deletes(&self, node: u32) -> bool {
        bitmap_contents(*self.deleted_nodes).contains(node)
    }

    /// Whether an edge is visible and passes the filter.
    pub open spec fn shows_edge(&self, edge: Neighbor) -> bool {
        &&& self.visibility.relationship_verdict(edge.type_id, edge.relationship_id) == Some(true)
        &&& self.visibility.shows_node(edge.target)
        &&& self.passes_filter(edge.type_id)
    }

    /// Whether the visibility of an edge cannot be decided.
    pub open spec fn undecided(&self, edge: Neighbor) -> bool {
        self.visibility.relationship_verdict(edge.type_id, edge.relationship_id) is None
    }
}

/// Keeps the first error of a search.
pub fn record_error(slot: &mut Option<GraphError>, error: GraphError)
    ensures
        *final(slot) == if *old(slot) is Some {
            *old(slot)
        } else {
            Some(error)
        },
{
    if slot.is_none() {
        *slot = Some(error);
    }
}

/// Whether an edge is visible and passes the filter. An edge that cannot be
/// decided is not followed, and its error is recorded.
pub fn path_candidate_visible(
    context: QueryExecutionContext<'_>,
    edge: Neighbor,
    error: &mut Option<GraphError>,
) -> (visible: bool)
    ensures
        visible == context.shows_edge(edge),
        !context.undecided(edge) ==> *final(error) == *old(error),
        *old(error) is Some ==> *final(error) == *old(error),
        context.undecided(edge) && *old(error) is None ==> (*final(error) matches Some(value)
            && value@ == undecided_relationship()),
{
    match context.visibility.allows_relationship(edge.type_id, edge.relationship_id) {
        Ok(allowed) => {
            if !allowed || !context.visibility.allows_node(edge.target) {
                return false;
            }
            match context.edge_type_filter {
                Some(filter) => filter.contains(edge.type_id.get()),
                None => true,
            }
        },
        Err(reason) => {
            record_error(error, reason);
            false
        },
    }
}

} // verus!
