//! Durable changes of edges: the rows of a graph once segments are applied.
use vstd::prelude::*;

use crate::edge_store::{
    edges_in, inbound_row, row_views, EdgeStore,
};
use crate::errors::{internal, ErrorView, GraphResult};
use crate::neighbors::WeightedNeighbor;
use crate::overlay::{added_edge, erases, kept_row, row_edge, OverlayEdge};
use crate::projection_install::{ProjectionSegment, SegmentEdgeWeight};

verus! {

/// A row in which the edges that an edge stands for have another weight.
pub open spec fn reweighted(row: Seq<WeightedNeighbor>, change: SegmentEdgeWeight) -> Seq<
    WeightedNeighbor,
> {
    Seq::new(
        row.len(),
        |i: int|
            if erases(change.edge, row_edge(change.edge.source, row[i])) {
                WeightedNeighbor { weight: change.weight, ..row[i] }
            } else {
                row[i]
            },
    )
}

/// Rows after the first removals.
pub open spec fn rows_after_deletes(
    rows: Seq<Seq<WeightedNeighbor>>,
    edges: Seq<OverlayEdge>,
    count: nat,
) -> Seq<Seq<WeightedNeighbor>>
    decreases count,
{
    if count == 0 {
        rows
    } else {
        let before = rows_after_deletes(rows, edges, (count - 1) as nat);
        let edge = edges[count - 1];
        before.update(
            edge.source as int,
            kept_row(before[edge.source as int], edge.source, seq![edge]),
        )
    }
}

/// Rows after the first additions.
pub open spec fn rows_after_inserts(
    rows: Seq<Seq<WeightedNeighbor>>,
    edges: Seq<OverlayEdge>,
    count: nat,
) -> Seq<Seq<WeightedNeighbor>>
    decreases count,
{
    if count == 0 {
        rows
    } else {
        let before = rows_after_inserts(rows, edges, (count - 1) as nat);
        let edge = edges[count - 1];
        before.update(edge.source as int, before[edge.source as int].push(added_edge(edge)))
    }
}

/// Rows after the first changes of weights.
pub open spec fn rows_after_weights(
    rows: Seq<Seq<WeightedNeighbor>>,
    changes: Seq<SegmentEdgeWeight>,
    count: nat,
) -> Seq<Seq<WeightedNeighbor>>
    decreases count,
{
    if count == 0 {
        rows
    } else {
        let before = rows_after_weights(rows, changes, (count - 1) as nat);
        let change = changes[count - 1];
        before.update(
            change.edge.source as int,
            reweighted(before[change.edge.source as int], change),
        )
    }
}

/// Rows after a segment: edges are removed, then added, then weighted.
pub open spec fn rows_after_segment(
    rows: Seq<Seq<WeightedNeighbor>>,
    segment: ProjectionSegment,
) -> Seq<Seq<WeightedNeighbor>> {
    let removed = rows_after_deletes(
        rows,
        segment.edge_deletes@,
        segment.edge_deletes@.len(),
    );
    let added = rows_after_inserts(removed, segment.edge_inserts@, segment.edge_inserts@.len());
    rows_after_weights(added, segment.edge_weights@, segment.edge_weights@.len())
}

/// Rows after the first segments.
pub open spec fn rows_after_segments(
    rows: Seq<Seq<WeightedNeighbor>>,
    segments: Seq<ProjectionSegment>,
    count: nat,
) -> Seq<Seq<WeightedNeighbor>>
    decreases count,
{
    if count == 0 {
        rows
    } else {
        rows_after_segment(
            rows_after_segments(rows, segments, (count - 1) as nat),
            segments[count - 1],
        )
    }
}

/// Whether the edges of a segment join nodes.
pub open spec fn segment_edges_bounded(segment: ProjectionSegment, nodes: nat) -> bool {
    &&& forall|i: int|
        0 <= i < segment.edge_inserts@.len() ==> (#[trigger] segment.edge_inserts@[i]).source
            < nodes && segment.edge_inserts@[i].target < nodes
    &&& forall|i: int|
        0 <= i < segment.edge_deletes@.len() ==> (#[trigger] segment.edge_deletes@[i]).source
            < nodes && segment.edge_deletes@[i].target < nodes
    &&& forall|i: int|
        0 <= i < segment.edge_weights@.len() ==> (#[trigger] segment.edge_weights@[i]).edge.source
            < nodes && segment.edge_weights@[i].edge.target < nodes
}

/// Whether the edges of all segments join nodes.
pub open spec fn segments_bounded(segments: Seq<ProjectionSegment>, nodes: nat) -> bool {
    forall|i: int| 0 <= i < segments.len() ==> segment_edges_bounded(#[trigger] segments[i], nodes)
}

/// Whether some segment gives a weight.
pub open spec fn some_weight(segments: Seq<ProjectionSegment>) -> bool {
    exists|i: int| 0 <= i < segments.len() && (#[trigger] segments[i]).edge_weights@.len() > 0
}

/// The rows of a stored graph, one for each node.
pub open spec fn base_rows(base: EdgeStore, nodes: nat) -> Seq<Seq<WeightedNeighbor>> {
    Seq::new(nodes, |i: int| base.row(i as u32))
}

fn remove_from(row: &Vec<WeightedNeighbor>, edge: &OverlayEdge) -> (kept: Vec<WeightedNeighbor>)
    ensures
        kept@ == kept_row(row@, edge.source, seq![*edge]),
{
    let ghost removals = seq![*edge];
    let mut kept: Vec<WeightedNeighbor> = Vec::new();
    let mut at: usize = 0;
    assert(row@.take(0) =~= Seq::<WeightedNeighbor>::empty());
    while at < row.len()
        invariant
            at <= row@.len(),
            removals == seq![*edge],
            kept@ == kept_row(row@.take(at as int), edge.source, removals),
        decreases row@.len() - at,
    {
        let stored: WeightedNeighbor = row[at];
        proof {
            assert(row@.take(at + 1).drop_last() =~= row@.take(at as int));
            assert(removals[0] == *edge);
            let named = row_edge(edge.source, stored);
            assert(crate::overlay::erased_by_any(removals, named) == erases(*edge, named)) by {
                if crate::overlay::erased_by_any(removals, named) {
                    let i = choose|i: int|
                        0 <= i < removals.len() && erases(#[trigger] removals[i], named);
                    assert(removals[i] == *edge);
                }
                if erases(*edge, named) {
                    assert(erases(removals[0], named));
                }
            }
        }
        if !stands_for(edge, &stored) {
            kept.push(stored);
        }
        at = at + 1;
    }
    assert(row@.take(at as int) =~= row@);
    kept
}

fn stands_for(edge: &OverlayEdge, stored: &WeightedNeighbor) -> (yes: bool)
    ensures
        yes == erases(*edge, row_edge(edge.source, *stored)),
{
    edge.target == stored.target && edge.type_id == stored.type_id && edge.schema_reversed
        == stored.schema_reversed && (edge.relationship_id.is_none() || edge.relationship_id
        == stored.relationship_id)
}

fn weigh(row: &Vec<WeightedNeighbor>, change: &SegmentEdgeWeight) -> (weighed: Vec<WeightedNeighbor>)
    ensures
        weighed@ == reweighted(row@, *change),
{
    let mut weighed: Vec<WeightedNeighbor> = Vec::new();
    let mut at: usize = 0;
    while at < row.len()
        invariant
            at <= row@.len(),
            weighed@ == reweighted(row@, *change).take(at as int),
        decreases row@.len() - at,
    {
        let mut stored: WeightedNeighbor = row[at];
        if stands_for(&change.edge, &stored) {
            stored.weight = change.weight;
        }
        weighed.push(stored);
        proof {
            assert(weighed@ =~= reweighted(row@, *change).take(at + 1));
        }
        at = at + 1;
    }
    assert(reweighted(row@, *change).take(at as int) =~= reweighted(row@, *change));
    weighed
}

/// Applies a segment's edges to rows.
fn apply_segment(rows: &mut Vec<Vec<WeightedNeighbor>>, segment: &ProjectionSegment)
    requires
        segment_edges_bounded(*segment, old(rows)@.len()),
    ensures
        row_views(final(rows)@) == rows_after_segment(row_views(old(rows)@), *segment),
        final(rows)@.len() == old(rows)@.len(),
{
    let ghost begun = row_views(rows@);
    let ghost count = rows@.len();
    let mut at: usize = 0;
    while at < segment.edge_deletes.len()
        invariant
            at <= segment.edge_deletes@.len(),
            segment_edges_bounded(*segment, count),
            rows@.len() == count,
            row_views(rows@) == rows_after_deletes(begun, segment.edge_deletes@, at as nat),
        decreases segment.edge_deletes@.len() - at,
    {
        let edge: OverlayEdge = segment.edge_deletes[at];
        assert(edge == segment.edge_deletes@[at as int]);
        let ghost before = rows@;
        let kept: Vec<WeightedNeighbor> = remove_from(&rows[edge.source as usize], &edge);
        rows.set(edge.source as usize, kept);
        proof {
            assert(row_views(rows@) =~= row_views(before).update(edge.source as int, kept@));
        }
        at = at + 1;
    }
    let ghost removed = row_views(rows@);
    let mut at: usize = 0;
    while at < segment.edge_inserts.len()
        invariant
            at <= segment.edge_inserts@.len(),
            segment_edges_bounded(*segment, count),
            rows@.len() == count,
            row_views(rows@) == rows_after_inserts(removed, segment.edge_inserts@, at as nat),
        decreases segment.edge_inserts@.len() - at,
    {
        let edge: OverlayEdge = segment.edge_inserts[at];
        assert(edge == segment.edge_inserts@[at as int]);
        let ghost before = rows@;
        rows[edge.source as usize].push(
            WeightedNeighbor {
                target: edge.target,
                type_id: edge.type_id,
                schema_reversed: edge.schema_reversed,
                relationship_id: edge.relationship_id,
                weight: 1,
            },
        );
        proof {
            let source = edge.source as int;
            assert(rows@[source]@ =~= before[source]@.push(added_edge(edge)));
            assert(row_views(rows@) =~= row_views(before).update(
                source,
                before[source]@.push(added_edge(edge)),
            ));
        }
        at = at + 1;
    }
    let ghost added = row_views(rows@);
    let mut at: usize = 0;
    while at < segment.edge_weights.len()
        invariant
            at <= segment.edge_weights@.len(),
            segment_edges_bounded(*segment, count),
            rows@.len() == count,
            row_views(rows@) == rows_after_weights(added, segment.edge_weights@, at as nat),
        decreases segment.edge_weights@.len() - at,
    {
        let change: SegmentEdgeWeight = segment.edge_weights[at];
        assert(change == segment.edge_weights@[at as int]);
        let ghost before = rows@;
        let weighed: Vec<WeightedNeighbor> = weigh(&rows[change.edge.source as usize], &change);
        rows.set(change.edge.source as usize, weighed);
        proof {
            assert(row_views(rows@) =~= row_views(before).update(
                change.edge.source as int,
                weighed@,
            ));
        }
        at = at + 1;
    }
}

/// A graph with durable changes applied, in both directions.
pub struct LayeredSnapshot {
    pub forward: EdgeStore,
    pub reverse: EdgeStore,
}

/// Whether a snapshot is that of a graph and segments.
pub open spec fn is_snapshot(
    snapshot: LayeredSnapshot,
    base: EdgeStore,
    segments: Seq<ProjectionSegment>,
    nodes: nat,
) -> bool {
    let rows = rows_after_segments(base_rows(base, nodes), segments, segments.len());
    &&& snapshot.forward.rows() == rows
    &&& snapshot.forward.is_weighted() == (base.is_weighted() || some_weight(segments))
    &&& snapshot.reverse.rows().len() == rows.len()
    &&& forall|target: u32|
        target < rows.len() ==> #[trigger] snapshot.reverse.rows()[target as int] == inbound_row(
            rows,
            target,
            rows.len(),
        )
    &&& snapshot.reverse.is_weighted() == snapshot.forward.is_weighted()
}

impl LayeredSnapshot {
    /// Applies the edges of segments to a stored graph.
    pub fn build(
        base: &EdgeStore,
        segments: &Vec<ProjectionSegment>,
        node_count: u32,
    ) -> (result: GraphResult<Self>)
        requires
            segments_bounded(segments@, node_count as nat),
        ensures
            match result {
                Ok(snapshot) => is_snapshot(snapshot, *base, segments@, node_count as nat),
                Err(error) => {
                    let rows = rows_after_segments(
                        base_rows(*base, node_count as nat),
                        segments@,
                        segments@.len(),
                    );
                    &&& edges_in(rows, rows.len()) > u32::MAX
                    &&& error@ == ErrorView::Internal("projection edge count exceeds u32"@)
                },
            },
    {
        let mut rows: Vec<Vec<WeightedNeighbor>> = base.padded_rows(node_count);
        let ghost first = base_rows(*base, node_count as nat);
        let mut weighted: bool = base.has_weights();
        let mut at: usize = 0;
        proof {
            assert(row_views(rows@) =~= first);
            assert(rows@.len() == row_views(rows@).len());
        }
        while at < segments.len()
            invariant
                at <= segments@.len(),
                rows@.len() == node_count,
                segments_bounded(segments@, node_count as nat),
                row_views(rows@) == rows_after_segments(first, segments@, at as nat),
                weighted == (base.is_weighted() || exists|i: int|
                    0 <= i < at && (#[trigger] segments@[i]).edge_weights@.len() > 0),
            decreases segments@.len() - at,
        {
            apply_segment(&mut rows, &segments[at]);
            if segments[at].edge_weights.len() > 0 {
                weighted = true;
            }
            at = at + 1;
        }
        let forward: EdgeStore = match EdgeStore::from_rows(rows, weighted) {
            Some(forward) => forward,
            None => return Err(internal("projection edge count exceeds u32")),
        };
        let reverse: EdgeStore = forward.reversed();
        Ok(LayeredSnapshot { forward, reverse })
    }
}

} // verus!
