//! Adjacency as the searches read it.
use vstd::prelude::*;

use crate::types::EdgeTypeId;

verus! {

/// One outgoing edge of a node.
#[derive(Debug, Clone, Copy, PartialEq, Eq, Structural)]
pub struct Neighbor {
    pub target: u32,
    pub type_id: EdgeTypeId,
    pub schema_reversed: bool,
    pub relationship_id: Option<u32>,
}

/// One outgoing edge of a node, with its weight.
#[derive(Debug, Clone, Copy, PartialEq, Eq, Structural)]
pub struct WeightedNeighbor {
    pub target: u32,
    pub type_id: EdgeTypeId,
    pub schema_reversed: bool,
    pub relationship_id: Option<u32>,
    pub weight: u32,
}

impl WeightedNeighbor {
    /// The edge without its weight.
    pub open spec fn unweighted(self) -> Neighbor {
        Neighbor {
            target: self.target,
            type_id: self.type_id,
            schema_reversed: self.schema_reversed,
            relationship_id: self.relationship_id,
        }
    }

    /// The edge without its weight.
    pub fn to_neighbor(&self) -> (neighbor: Neighbor)
        ensures
            neighbor == self.unweighted(),
    {
        Neighbor {
            target: self.target,
            type_id: self.type_id,
            schema_reversed: self.schema_reversed,
            relationship_id: self.relationship_id,
        }
    }
}

/// Position in the adjacency of one node, owned by a paused search.
#[derive(Debug, Clone, Copy, PartialEq, Eq, Structural)]
pub struct OwnedNeighborCursor {
    pub position: usize,
}

impl OwnedNeighborCursor {
    /// The position before the first edge.
    pub fn start() -> (cursor: Self)
        ensures
            cursor.position == 0,
    {
        OwnedNeighborCursor { position: 0 }
    }
}

/// The lesser of two numbers.
pub open spec fn least(left: int, right: int) -> int {
    if left <= right {
        left
    } else {
        right
    }
}

/// A page of at most `limit` entries from a position.
pub open spec fn page_of<T>(row: Seq<T>, position: int, limit: int) -> Seq<T> {
    if position <= row.len() {
        row.subrange(position, least(position + limit, row.len() as int))
    } else {
        Seq::empty()
    }
}

/// A source of unweighted adjacency.
pub trait NeighborSource {
    /// The outgoing edges of a node, in their stable order.
    spec fn adjacency(&self, node: u32) -> Seq<Neighbor>;

    /// The outgoing edges of a node.
    fn neighbors(&self, node: u32) -> (row: Vec<Neighbor>)
        ensures
            row@ == self.adjacency(node),
    ;

    /// Appends the next edges of a node, at most `limit`, and says whether the
    /// node has none left.
    fn fill_neighbors(
        &self,
        node: u32,
        cursor: &mut OwnedNeighborCursor,
        limit: usize,
        page: &mut Vec<Neighbor>,
    ) -> (exhausted: bool)
        requires
            old(cursor).position <= self.adjacency(node).len(),
        ensures
            final(page)@ == old(page)@ + page_of(
                self.adjacency(node),
                old(cursor).position as int,
                limit as int,
            ),
            final(cursor).position == least(
                old(cursor).position + limit,
                self.adjacency(node).len() as int,
            ),
            exhausted == (final(cursor).position == self.adjacency(node).len()),
    ;
}

/// A source of weighted adjacency.
pub trait WeightedNeighborSource {
    /// The outgoing edges of a node, in their stable order.
    spec fn weighted_adjacency(&self, node: u32) -> Seq<WeightedNeighbor>;

    /// Whether the source carries weights at all.
    spec fn weighted(&self) -> bool;

    /// Whether the source carries weights at all.
    fn has_weighted_edges(&self) -> (weighted: bool)
        ensures
            weighted == self.weighted(),
    ;

    /// The outgoing edges of a node.
    fn weighted_neighbors(&self, node: u32) -> (row: Vec<WeightedNeighbor>)
        ensures
            row@ == self.weighted_adjacency(node),
    ;

    /// Appends the next edges of a node, at most `limit`, and says whether the
    /// node has none left.
    fn fill_weighted_neighbors(
        &self,
        node: u32,
        cursor: &mut OwnedNeighborCursor,
        limit: usize,
        page: &mut Vec<WeightedNeighbor>,
    ) -> (exhausted: bool)
        requires
            old(cursor).position <= self.weighted_adjacency(node).len(),
        ensures
            final(page)@ == old(page)@ + page_of(
                self.weighted_adjacency(node),
                old(cursor).position as int,
                limit as int,
            ),
            final(cursor).position == least(
                old(cursor).position + limit,
                self.weighted_adjacency(node).len() as int,
            ),
            exhausted == (final(cursor).position == self.weighted_adjacency(node).len()),
    ;
}

/// The edges of a weighted row without their weights.
pub open spec fn strip_weights(row: Seq<WeightedNeighbor>) -> Seq<Neighbor> {
    Seq::new(row.len(), |i: int| row[i].unweighted())
}

} // verus!
