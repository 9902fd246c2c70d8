//! What changes of edges do: durable ones, which segments bring, and pending
//! ones, which lie over the stored rows.
use vstd::prelude::*;

use crate::edge_store::{edges_into, inbound_row, EdgeStore};
use crate::engine::Engine;
use crate::layered::{
    base_rows, is_snapshot, rows_after_deletes, rows_after_inserts, rows_after_segment,
    rows_after_segments, rows_after_weights, segment_edges_bounded, LayeredSnapshot,
};
use crate::neighbors::WeightedNeighbor;
use crate::overlay::{
    added_edge, added_row, after_delete, after_deletes, after_insert, after_inserts,
    after_mutations,
    erased_by_any, erases, facing, kept_row, mutation_edge, others, overlay_of, row_edge, unerased,
    EdgeMutation, MutationKind, OverlayEdge, OverlayView, TxDelta,
};
use crate::projection_install::{ProjectionSegment, SegmentEdgeWeight};
use crate::types::{EdgeTypeId, TraversalDirection};

verus! {

/// Whether an edge of a change names an edge of a node's row: it starts at the
/// node, has the same target, type and orientation and, unless the change leaves
/// it open, the same relationship.
pub open spec fn names(change: OverlayEdge, node: u32, stored: WeightedNeighbor) -> bool {
    &&& change.source == node
    &&& change.target == stored.target
    &&& change.type_id == stored.type_id
    &&& change.schema_reversed == stored.schema_reversed
    &&& change.relationship_id is Some ==> stored.relationship_id == change.relationship_id
}

/// The edges of a node's row that no change names.
pub open spec fn unnamed(changes: Seq<OverlayEdge>, node: u32) -> spec_fn(WeightedNeighbor) -> bool {
    |stored: WeightedNeighbor|
        forall|i: int| 0 <= i < changes.len() ==> !names(#[trigger] changes[i], node, stored)
}

/// A new edge in a row. It weighs one until a weight is given.
pub open spec fn new_edge(edge: OverlayEdge) -> WeightedNeighbor {
    WeightedNeighbor {
        target: edge.target,
        type_id: edge.type_id,
        schema_reversed: edge.schema_reversed,
        relationship_id: edge.relationship_id,
        weight: 1,
    }
}

/// The new edges of a node, in their order.
pub open spec fn new_edges(edges: Seq<OverlayEdge>, node: u32) -> Seq<WeightedNeighbor> {
    edges.filter(|edge: OverlayEdge| edge.source == node).map_values(
        |edge: OverlayEdge| new_edge(edge),
    )
}

proof fn lemma_kept_is_filter(row: Seq<WeightedNeighbor>, node: u32, deletes: Seq<OverlayEdge>)
    ensures
        kept_row(row, node, deletes) == row.filter(unnamed(deletes, node)),
    decreases row.len(),
{
    reveal(Seq::filter);
    if row.len() > 0 {
        lemma_kept_is_filter(row.drop_last(), node, deletes);
        let last = row.last();
        let keep = unnamed(deletes, node);
        if erased_by_any(deletes, row_edge(node, last)) {
            let i = choose|i: int|
                0 <= i < deletes.len() && erases(#[trigger] deletes[i], row_edge(node, last));
            assert(names(deletes[i], node, last));
            assert(!keep(last));
        } else {
            assert forall|i: int| 0 <= i < deletes.len() implies !names(
                #[trigger] deletes[i],
                node,
                last,
            ) by {
                assert(!erases(deletes[i], row_edge(node, last)));
            }
            assert(keep(last));
        }
    }
}

proof fn lemma_filter_twice<T>(
    items: Seq<T>,
    first: spec_fn(T) -> bool,
    second: spec_fn(T) -> bool,
    both: spec_fn(T) -> bool,
)
    requires
        forall|item: T| #[trigger] both(item) == (first(item) && second(item)),
    ensures
        items.filter(first).filter(second) == items.filter(both),
    decreases items.len(),
{
    reveal(Seq::filter);
    if items.len() > 0 {
        let rest = items.drop_last();
        lemma_filter_twice(rest, first, second, both);
        let last = items.last();
        assert(both(last) == (first(last) && second(last)));
        if first(last) {
            let some = rest.filter(first).push(last);
            assert(items.filter(first) == some);
            assert(some.drop_last() =~= rest.filter(first));
        }
    }
}

proof fn lemma_filter_all<T>(items: Seq<T>, keep: spec_fn(T) -> bool)
    requires
        forall|i: int| 0 <= i < items.len() ==> keep(#[trigger] items[i]),
    ensures
        items.filter(keep) == items,
    decreases items.len(),
{
    reveal(Seq::filter);
    if items.len() > 0 {
        let rest = items.drop_last();
        assert forall|i: int| 0 <= i < rest.len() implies keep(#[trigger] rest[i]) by {
            assert(rest[i] == items[i]);
        }
        lemma_filter_all(rest, keep);
        assert(keep(items[items.len() - 1]));
        assert(items =~= rest.push(items.last()));
    }
}

proof fn lemma_deletes(
    rows: Seq<Seq<WeightedNeighbor>>,
    edges: Seq<OverlayEdge>,
    count: nat,
    node: u32,
)
    requires
        count <= edges.len(),
        node < rows.len(),
        forall|i: int| 0 <= i < edges.len() ==> (#[trigger] edges[i]).source < rows.len(),
    ensures
        rows_after_deletes(rows, edges, count).len() == rows.len(),
        rows_after_deletes(rows, edges, count)[node as int] == rows[node as int].filter(
            unnamed(edges.take(count as int), node),
        ),
    decreases count,
{
    let row = rows[node as int];
    if count == 0 {
        lemma_filter_all(row, unnamed(edges.take(0), node));
    } else {
        let at = (count - 1) as nat;
        lemma_deletes(rows, edges, at, node);
        let edge = edges[at as int];
        let first = unnamed(edges.take(at as int), node);
        let both = unnamed(edges.take(count as int), node);
        let before = rows_after_deletes(rows, edges, at);
        let (few, more) = (edges.take(at as int), edges.take(count as int));
        let second = unnamed(seq![edge], node);
        assert forall|stored: WeightedNeighbor| #[trigger] both(stored) == (first(stored)
            && second(stored)) by {
            if both(stored) {
                assert(!names(more[at as int], node, stored));
                assert forall|i: int| 0 <= i < few.len() implies !names(
                    #[trigger] few[i],
                    node,
                    stored,
                ) by {
                    assert(few[i] == more[i]);
                }
            }
            if first(stored) && second(stored) {
                assert(!names(seq![edge][0], node, stored));
                assert forall|i: int| 0 <= i < more.len() implies !names(
                    #[trigger] more[i],
                    node,
                    stored,
                ) by {
                    if i < at {
                        assert(few[i] == more[i]);
                    }
                }
            }
        }
        lemma_filter_twice(row, first, second, both);
        if edge.source == node {
            lemma_kept_is_filter(before[node as int], node, seq![edge]);
        } else {
            let kept = before[node as int];
            assert forall|i: int| 0 <= i < kept.len() implies second(#[trigger] kept[i]) by {}
            lemma_filter_all(kept, second);
        }
    }
}

proof fn lemma_inserts(
    rows: Seq<Seq<WeightedNeighbor>>,
    edges: Seq<OverlayEdge>,
    count: nat,
    node: u32,
)
    requires
        count <= edges.len(),
        node < rows.len(),
        forall|i: int| 0 <= i < edges.len() ==> (#[trigger] edges[i]).source < rows.len(),
    ensures
        rows_after_inserts(rows, edges, count).len() == rows.len(),
        rows_after_inserts(rows, edges, count)[node as int] == rows[node as int] + new_edges(
            edges.take(count as int),
            node,
        ),
    decreases count,
{
    reveal(Seq::filter);
    let row = rows[node as int];
    if count == 0 {
        assert(new_edges(edges.take(0), node) =~= Seq::<WeightedNeighbor>::empty());
        assert(row + new_edges(edges.take(0), node) =~= row);
    } else {
        let at = (count - 1) as nat;
        lemma_inserts(rows, edges, at, node);
        let edge = edges[at as int];
        let (few, more) = (edges.take(at as int), edges.take(count as int));
        assert(more.drop_last() =~= few);
        assert(more.last() == edge);
        if edge.source == node {
            assert(new_edges(more, node) =~= new_edges(few, node).push(new_edge(edge)));
            assert(row + new_edges(more, node) =~= (row + new_edges(few, node)).push(
                new_edge(edge),
            ));
        } else {
            assert(new_edges(more, node) =~= new_edges(few, node));
        }
    }
}

/// Whether a change of weight is the last of a list that names an edge of a row.
pub open spec fn weighs_last(
    changes: Seq<SegmentEdgeWeight>,
    at: int,
    node: u32,
    stored: WeightedNeighbor,
) -> bool {
    &&& 0 <= at < changes.len()
    &&& names(changes[at].edge, node, stored)
    &&& forall|i: int|
        at < i < changes.len() ==> !names((#[trigger] changes[i]).edge, node, stored)
}

/// Whether a row is another one with changes of weights: every edge that a
/// change names has the weight of the last change that names it, every other
/// edge its own, and nothing else differs.
pub open spec fn weighed(
    before: Seq<WeightedNeighbor>,
    after: Seq<WeightedNeighbor>,
    changes: Seq<SegmentEdgeWeight>,
    node: u32,
) -> bool {
    &&& after.len() == before.len()
    &&& forall|i: int|
        0 <= i < before.len() ==> {
            &&& (#[trigger] after[i]).target == before[i].target
            &&& after[i].type_id == before[i].type_id
            &&& after[i].schema_reversed == before[i].schema_reversed
            &&& after[i].relationship_id == before[i].relationship_id
        }
    &&& forall|i: int, at: int|
        0 <= i < before.len() && #[trigger] weighs_last(changes, at, node, before[i])
            ==> after[i].weight == changes[at].weight
    &&& forall|i: int|
        0 <= i < before.len() && (forall|at: int|
            0 <= at < changes.len() ==> !names((#[trigger] changes[at]).edge, node, before[i]))
            ==> (#[trigger] after[i]).weight == before[i].weight
}

proof fn lemma_weights(
    rows: Seq<Seq<WeightedNeighbor>>,
    changes: Seq<SegmentEdgeWeight>,
    count: nat,
    node: u32,
)
    requires
        count <= changes.len(),
        node < rows.len(),
        forall|i: int| 0 <= i < changes.len() ==> (#[trigger] changes[i]).edge.source < rows.len(),
    ensures
        rows_after_weights(rows, changes, count).len() == rows.len(),
        weighed(
            rows[node as int],
            rows_after_weights(rows, changes, count)[node as int],
            changes.take(count as int),
            node,
        ),
    decreases count,
{
    let row = rows[node as int];
    if count > 0 {
        let at = (count - 1) as nat;
        lemma_weights(rows, changes, at, node);
        let change = changes[at as int];
        let (few, more) = (changes.take(at as int), changes.take(count as int));
        let middle = rows_after_weights(rows, changes, at)[node as int];
        let after = rows_after_weights(rows, changes, count)[node as int];
        assert forall|i: int| 0 <= i < row.len() implies {
            &&& (#[trigger] after[i]).target == row[i].target
            &&& after[i].type_id == row[i].type_id
            &&& after[i].schema_reversed == row[i].schema_reversed
            &&& after[i].relationship_id == row[i].relationship_id
            &&& after[i].weight == if names(change.edge, node, row[i]) {
                change.weight
            } else {
                middle[i].weight
            }
        } by {
            assert(middle[i].target == row[i].target);
        }
        assert forall|i: int, k: int|
            0 <= i < row.len() && #[trigger] weighs_last(more, k, node, row[i]) implies
            after[i].weight == more[k].weight by {
            assert(after[i].target == row[i].target);
            if k == at {
                assert(more[k] == change);
            } else {
                assert(!names(more[at as int].edge, node, row[i]));
                assert(few[k] == more[k]);
                assert forall|j: int| k < j < few.len() implies !names(
                    (#[trigger] few[j]).edge,
                    node,
                    row[i],
                ) by {
                    assert(few[j] == more[j]);
                }
                assert(weighs_last(few, k, node, row[i]));
            }
        }
        assert forall|i: int|
            0 <= i < row.len() && (forall|k: int|
                0 <= k < more.len() ==> !names((#[trigger] more[k]).edge, node, row[i])) implies (
        #[trigger] after[i]).weight == row[i].weight by {
            assert(!names(more[at as int].edge, node, row[i]));
            assert forall|k: int| 0 <= k < few.len() implies !names(
                (#[trigger] few[k]).edge,
                node,
                row[i],
            ) by {
                assert(few[k] == more[k]);
            }
            assert(middle[i].weight == row[i].weight);
        }
    }
}

/// A segment changes a node's row so: the edges that it deletes are gone, and
/// all others stay in their order; then come the edges that it inserts, in
/// theirs; and of these edges each has the weight of the last change that names
/// it, or else its own, which is one for a new edge.
pub proof fn law_segment_changes_a_row(
    rows: Seq<Seq<WeightedNeighbor>>,
    segment: ProjectionSegment,
    node: u32,
)
    requires
        segment_edges_bounded(segment, rows.len()),
        node < rows.len(),
    ensures
        rows_after_segment(rows, segment).len() == rows.len(),
        weighed(
            rows[node as int].filter(unnamed(segment.edge_deletes@, node)) + new_edges(
                segment.edge_inserts@,
                node,
            ),
            rows_after_segment(rows, segment)[node as int],
            segment.edge_weights@,
            node,
        ),
{
    let (deletes, inserts, weights) = (
        segment.edge_deletes@,
        segment.edge_inserts@,
        segment.edge_weights@,
    );
    lemma_deletes(rows, deletes, deletes.len(), node);
    assert(deletes.take(deletes.len() as int) =~= deletes);
    let removed = rows_after_deletes(rows, deletes, deletes.len());
    lemma_inserts(removed, inserts, inserts.len(), node);
    assert(inserts.take(inserts.len() as int) =~= inserts);
    let added = rows_after_inserts(removed, inserts, inserts.len());
    lemma_weights(added, weights, weights.len(), node);
    assert(weights.take(weights.len() as int) =~= weights);
}

proof fn lemma_segments_keep_length(
    rows: Seq<Seq<WeightedNeighbor>>,
    segments: Seq<ProjectionSegment>,
    count: nat,
)
    requires
        count <= segments.len(),
        rows.len() <= u32::MAX,
        forall|i: int|
            0 <= i < segments.len() ==> segment_edges_bounded(#[trigger] segments[i], rows.len()),
    ensures
        rows_after_segments(rows, segments, count).len() == rows.len(),
    decreases count,
{
    if count > 0 {
        lemma_segments_keep_length(rows, segments, (count - 1) as nat);
        let before = rows_after_segments(rows, segments, (count - 1) as nat);
        assert(segment_edges_bounded(segments[count - 1], rows.len()));
        if rows.len() > 0 {
            law_segment_changes_a_row(before, segments[count - 1], 0);
        } else {
            let segment = segments[count - 1];
            if segment.edge_deletes@.len() > 0 {
                assert(segment.edge_deletes@[0].source < 0);
            }
            if segment.edge_inserts@.len() > 0 {
                assert(segment.edge_inserts@[0].source < 0);
            }
            if segment.edge_weights@.len() > 0 {
                assert(segment.edge_weights@[0].edge.source < 0);
            }
        }
    }
}

/// An installed snapshot holds, forward, the stored rows changed by every
/// segment in turn: without segments it is the stored rows, and one segment more
/// changes each row as a segment does. An edge whose weight the last segment
/// changes costs what that change says.
pub proof fn law_snapshot_applies_segments_in_turn(
    snapshot: LayeredSnapshot,
    shorter: LayeredSnapshot,
    base: EdgeStore,
    segments: Seq<ProjectionSegment>,
    nodes: nat,
    node: u32,
)
    requires
        nodes <= u32::MAX,
        node < nodes,
        is_snapshot(snapshot, base, segments, nodes),
        forall|i: int|
            0 <= i < segments.len() ==> segment_edges_bounded(#[trigger] segments[i], nodes),
        segments.len() > 0 ==> is_snapshot(shorter, base, segments.drop_last(), nodes),
    ensures
        snapshot.forward.rows().len() == nodes,
        segments.len() == 0 ==> snapshot.forward.rows()[node as int] == base.row(node),
        segments.len() > 0 ==> weighed(
            shorter.forward.rows()[node as int].filter(
                unnamed(segments.last().edge_deletes@, node),
            ) + new_edges(segments.last().edge_inserts@, node),
            snapshot.forward.rows()[node as int],
            segments.last().edge_weights@,
            node,
        ),
        snapshot.forward.is_weighted() == (base.is_weighted() || exists|i: int|
            0 <= i < segments.len() && (#[trigger] segments[i]).edge_weights@.len() > 0),
{
    let rows = base_rows(base, nodes);
    lemma_segments_keep_length(rows, segments, segments.len());
    if segments.len() > 0 {
        let few = segments.drop_last();
        assert forall|i: int| 0 <= i < few.len() implies segment_edges_bounded(
            #[trigger] few[i],
            nodes,
        ) by {
            assert(few[i] == segments[i]);
        }
        lemma_segments_keep_length(rows, few, few.len());
        lemma_segments_prefix(rows, segments, few, few.len());
        assert(segment_edges_bounded(segments[segments.len() - 1], nodes));
        law_segment_changes_a_row(
            rows_after_segments(rows, few, few.len()),
            segments.last(),
            node,
        );
    }
}

proof fn lemma_segments_prefix(
    rows: Seq<Seq<WeightedNeighbor>>,
    segments: Seq<ProjectionSegment>,
    few: Seq<ProjectionSegment>,
    count: nat,
)
    requires
        count <= few.len() <= segments.len(),
        forall|i: int| 0 <= i < few.len() ==> few[i] == #[trigger] segments[i],
    ensures
        rows_after_segments(rows, segments, count) == rows_after_segments(rows, few, count),
    decreases count,
{
    if count > 0 {
        lemma_segments_prefix(rows, segments, few, (count - 1) as nat);
        assert(few[count - 1] == segments[count - 1]);
    }
}

proof fn lemma_into_comes_from(row: Seq<WeightedNeighbor>, source: u32, target: u32, at: int)
    requires
        0 <= at < edges_into(row, source, target).len(),
    ensures
        exists|i: int|
            0 <= i < row.len() && (#[trigger] row[i]).target == target && edges_into(
                row,
                source,
                target,
            )[at] == (WeightedNeighbor { target: source, ..row[i] }),
    decreases row.len(),
{
    let rest = row.drop_last();
    let few = edges_into(rest, source, target);
    if at < few.len() {
        lemma_into_comes_from(rest, source, target, at);
        let i = choose|i: int|
            0 <= i < rest.len() && (#[trigger] rest[i]).target == target && few[at] == (
            WeightedNeighbor { target: source, ..rest[i] });
        assert(row[i] == rest[i]);
    } else {
        assert(row[row.len() - 1].target == target);
    }
}

/// Every edge of a reversed row comes from a forward edge between the same two
/// nodes: of the same type, orientation, relationship and weight, seen from its
/// other end. Together with the law that every edge leads back, the reversed rows
/// hold exactly the forward edges.
pub proof fn law_reversed_edge_comes_from_an_edge(
    rows: Seq<Seq<WeightedNeighbor>>,
    target: u32,
    count: nat,
    at: int,
)
    requires
        count <= rows.len() <= u32::MAX + 1,
        0 <= at < inbound_row(rows, target, count).len(),
    ensures
        ({
            let seen = inbound_row(rows, target, count)[at];
            &&& seen.target < count
            &&& rows[seen.target as int].contains(WeightedNeighbor { target, ..seen })
        }),
    decreases count,
{
    let few = inbound_row(rows, target, (count - 1) as nat);
    if at < few.len() {
        law_reversed_edge_comes_from_an_edge(rows, target, (count - 1) as nat, at);
    } else {
        let source = (count - 1) as u32;
        let row = rows[count - 1];
        let place = at - few.len();
        lemma_into_comes_from(row, source, target, place);
        let i = choose|i: int|
            0 <= i < row.len() && (#[trigger] row[i]).target == target && edges_into(
                row,
                source,
                target,
            )[place] == (WeightedNeighbor { target: source, ..row[i] });
        let seen = inbound_row(rows, target, count)[at];
        assert(seen == WeightedNeighbor { target: source, ..row[i] });
        assert(row[i] == WeightedNeighbor { target, ..seen });
    }
}

/// A pending change of an edge: it is inserted, or it is deleted.
pub struct EdgeEvent {
    pub inserted: bool,
    pub edge: OverlayEdge,
}

/// An edge, seen from its other end where edges are followed backwards.
pub open spec fn seen_from(edge: OverlayEdge, direction: TraversalDirection) -> OverlayEdge {
    if direction is In {
        OverlayEdge {
            source: edge.target,
            target: edge.source,
            type_id: edge.type_id,
            schema_reversed: edge.schema_reversed,
            relationship_id: edge.relationship_id,
        }
    } else {
        edge
    }
}

/// The pending changes in the order in which they count: the buffered ones, then
/// what the running transaction deletes, then what it inserts.
pub open spec fn edge_events(
    mutations: Seq<EdgeMutation>,
    delta: TxDelta,
    direction: TraversalDirection,
) -> Seq<EdgeEvent> {
    Seq::new(
        mutations.len(),
        |i: int|
            EdgeEvent {
                inserted: mutations[i].kind is Insert,
                edge: seen_from(
                    OverlayEdge {
                        source: mutations[i].source,
                        target: mutations[i].target,
                        type_id: EdgeTypeId(mutations[i].type_id as u32),
                        schema_reversed: mutations[i].schema_reversed,
                        relationship_id: mutations[i].relationship_id,
                    },
                    direction,
                ),
            },
    ) + Seq::new(
        delta.deleted@.len(),
        |i: int|
            EdgeEvent { inserted: false, edge: seen_from(delta.deleted@[i], direction) },
    ) + Seq::new(
        delta.inserted@.len(),
        |i: int|
            EdgeEvent { inserted: true, edge: seen_from(delta.inserted@[i], direction) },
    )
}

/// Whether an inserted edge is there: some event inserts it, and no later one
/// deletes it.
pub open spec fn stays_inserted(events: Seq<EdgeEvent>, edge: OverlayEdge) -> bool {
    exists|at: int|
        #![trigger events[at]]
        {
            &&& 0 <= at < events.len()
            &&& events[at].inserted
            &&& events[at].edge == edge
            &&& forall|i: int|
                at < i < events.len() && !(#[trigger] events[i]).inserted ==> !names(
                    events[i].edge,
                    edge.source,
                    new_edge(edge),
                )
        }
}

/// Whether a deletion counts: some event makes it, and no later one inserts just
/// that edge again.
pub open spec fn stays_deleted(events: Seq<EdgeEvent>, edge: OverlayEdge) -> bool {
    exists|at: int|
        #![trigger events[at]]
        {
            &&& 0 <= at < events.len()
            &&& !events[at].inserted
            &&& events[at].edge == edge
            &&& forall|i: int|
                at < i < events.len() && (#[trigger] events[i]).inserted ==> events[i].edge != edge
        }
}

/// Whether an overlay is what events leave.
spec fn overlay_agrees(overlay: OverlayView, events: Seq<EdgeEvent>) -> bool {
    &&& forall|edge: OverlayEdge| #[trigger]
        overlay.inserts.contains(edge) <==> stays_inserted(events, edge)
    &&& forall|edge: OverlayEdge| #[trigger]
        overlay.deletes.contains(edge) <==> stays_deleted(events, edge)
}

proof fn lemma_others_contains(edges: Seq<OverlayEdge>, edge: OverlayEdge, other: OverlayEdge)
    ensures
        others(edges, edge).contains(other) <==> edges.contains(other) && other != edge,
    decreases edges.len(),
{
    if edges.len() > 0 {
        let rest = edges.drop_last();
        lemma_others_contains(rest, edge, other);
        lemma_push_contains(rest, edges.last(), other);
        assert(edges =~= rest.push(edges.last()));
        lemma_push_contains(others(rest, edge), edges.last(), other);
    }
}

proof fn lemma_unerased_contains(edges: Seq<OverlayEdge>, removal: OverlayEdge, other: OverlayEdge)
    ensures
        unerased(edges, removal).contains(other) <==> edges.contains(other) && !erases(
            removal,
            other,
        ),
    decreases edges.len(),
{
    if edges.len() > 0 {
        let rest = edges.drop_last();
        lemma_unerased_contains(rest, removal, other);
        lemma_push_contains(rest, edges.last(), other);
        assert(edges =~= rest.push(edges.last()));
        lemma_push_contains(unerased(rest, removal), edges.last(), other);
    }
}

proof fn lemma_push_contains<T>(items: Seq<T>, last: T, other: T)
    ensures
        items.push(last).contains(other) <==> items.contains(other) || other == last,
{
    let more = items.push(last);
    if more.contains(other) {
        let i = choose|i: int| 0 <= i < more.len() && more[i] == other;
        if i < items.len() {
            assert(items[i] == other);
        }
    }
    if items.contains(other) {
        let i = choose|i: int| 0 <= i < items.len() && items[i] == other;
        assert(more[i] == other);
    }
    if other == last {
        assert(more[items.len() as int] == other);
    }
}

/// One event more.
proof fn lemma_event_step(overlay: OverlayView, events: Seq<EdgeEvent>, event: EdgeEvent)
    requires
        overlay_agrees(overlay, events),
    ensures
        event.inserted ==> overlay_agrees(after_insert(overlay, event.edge), events.push(event)),
        !event.inserted ==> overlay_agrees(after_delete(overlay, event.edge), events.push(event)),
{
    let all = events.push(event);
    let last = events.len() as int;
    let after = if event.inserted {
        after_insert(overlay, event.edge)
    } else {
        after_delete(overlay, event.edge)
    };
    assert forall|edge: OverlayEdge| #[trigger] after.inserts.contains(edge) <==> stays_inserted(
        all,
        edge,
    ) by {
        lemma_push_contains(overlay.inserts, event.edge, edge);
        lemma_unerased_contains(overlay.inserts, event.edge, edge);
        assert(overlay.inserts.contains(edge) <==> stays_inserted(events, edge));
        assert(names(event.edge, edge.source, new_edge(edge)) <==> erases(event.edge, edge));
        if stays_inserted(events, edge) && (event.inserted || !erases(event.edge, edge)) {
            let at = choose|at: int|
                #![trigger events[at]]
                {
                    &&& 0 <= at < events.len()
                    &&& events[at].inserted
                    &&& events[at].edge == edge
                    &&& forall|i: int|
                        at < i < events.len() && !(#[trigger] events[i]).inserted ==> !names(
                            events[i].edge,
                            edge.source,
                            new_edge(edge),
                        )
                };
            assert(all[at] == events[at]);
            assert forall|i: int| at < i < all.len() && !(#[trigger] all[i]).inserted implies !names(
                all[i].edge,
                edge.source,
                new_edge(edge),
            ) by {
                if i < last {
                    assert(all[i] == events[i]);
                }
            }
        }
        if event.inserted && event.edge == edge {
            assert(all[last] == event);
        }
        if stays_inserted(all, edge) {
            let at = choose|at: int|
                #![trigger all[at]]
                {
                    &&& 0 <= at < all.len()
                    &&& all[at].inserted
                    &&& all[at].edge == edge
                    &&& forall|i: int|
                        at < i < all.len() && !(#[trigger] all[i]).inserted ==> !names(
                            all[i].edge,
                            edge.source,
                            new_edge(edge),
                        )
                };
            if at < last {
                assert(events[at] == all[at]);
                assert forall|i: int|
                    at < i < events.len() && !(#[trigger] events[i]).inserted implies !names(
                    events[i].edge,
                    edge.source,
                    new_edge(edge),
                ) by {
                    assert(all[i] == events[i]);
                }
                assert(stays_inserted(events, edge));
                if !event.inserted {
                    assert(!names(all[last].edge, edge.source, new_edge(edge)));
                }
            }
        }
    }
    assert forall|edge: OverlayEdge| #[trigger] after.deletes.contains(edge) <==> stays_deleted(
        all,
        edge,
    ) by {
        lemma_push_contains(overlay.deletes, event.edge, edge);
        lemma_others_contains(overlay.deletes, event.edge, edge);
        assert(overlay.deletes.contains(edge) <==> stays_deleted(events, edge));
        if stays_deleted(events, edge) && (!event.inserted || event.edge != edge) {
            let at = choose|at: int|
                #![trigger events[at]]
                {
                    &&& 0 <= at < events.len()
                    &&& !events[at].inserted
                    &&& events[at].edge == edge
                    &&& forall|i: int|
                        at < i < events.len() && (#[trigger] events[i]).inserted ==> events[i].edge
                            != edge
                };
            assert(all[at] == events[at]);
            assert forall|i: int| at < i < all.len() && (#[trigger] all[i]).inserted implies
                all[i].edge != edge by {
                if i < last {
                    assert(all[i] == events[i]);
                }
            }
        }
        if !event.inserted && event.edge == edge {
            assert(all[last] == event);
        }
        if stays_deleted(all, edge) {
            let at = choose|at: int|
                #![trigger all[at]]
                {
                    &&& 0 <= at < all.len()
                    &&& !all[at].inserted
                    &&& all[at].edge == edge
                    &&& forall|i: int|
                        at < i < all.len() && (#[trigger] all[i]).inserted ==> all[i].edge != edge
                };
            if at < last {
                assert(events[at] == all[at]);
                assert forall|i: int|
                    at < i < events.len() && (#[trigger] events[i]).inserted implies events[i].edge
                    != edge by {
                    assert(all[i] == events[i]);
                }
                assert(stays_deleted(events, edge));
                if event.inserted {
                    assert(all[last].edge != edge);
                }
            }
        }
    }
}

proof fn lemma_events_of_mutations(
    mutations: Seq<EdgeMutation>,
    delta: TxDelta,
    direction: TraversalDirection,
    count: nat,
)
    requires
        count <= mutations.len(),
    ensures
        overlay_agrees(
            after_mutations(mutations, direction, count),
            edge_events(mutations, delta, direction).take(count as int),
        ),
    decreases count,
{
    let events = edge_events(mutations, delta, direction);
    if count == 0 {
        assert(events.take(0).len() == 0);
    } else {
        let at = count - 1;
        lemma_events_of_mutations(mutations, delta, direction, at as nat);
        let before = after_mutations(mutations, direction, at as nat);
        assert(events.take(count as int) =~= events.take(at).push(events[at]));
        assert(events[at].edge == facing(mutation_edge(mutations[at]), direction));
        lemma_event_step(before, events.take(at), events[at]);
    }
}

proof fn lemma_events_of_deletes(
    mutations: Seq<EdgeMutation>,
    delta: TxDelta,
    direction: TraversalDirection,
    count: nat,
)
    requires
        count <= delta.deleted@.len(),
    ensures
        overlay_agrees(
            after_deletes(
                after_mutations(mutations, direction, mutations.len()),
                delta.deleted@,
                direction,
                count,
            ),
            edge_events(mutations, delta, direction).take((mutations.len() + count) as int),
        ),
    decreases count,
{
    let events = edge_events(mutations, delta, direction);
    let buffered = after_mutations(mutations, direction, mutations.len());
    if count == 0 {
        lemma_events_of_mutations(mutations, delta, direction, mutations.len());
    } else {
        let at = count - 1;
        lemma_events_of_deletes(mutations, delta, direction, at as nat);
        let place = mutations.len() + at;
        let before = after_deletes(buffered, delta.deleted@, direction, at as nat);
        assert(events.take(place + 1) =~= events.take(place).push(events[place]));
        assert(events[place].edge == facing(delta.deleted@[at], direction));
        lemma_event_step(before, events.take(place), events[place]);
    }
}

proof fn lemma_events_of_inserts(
    mutations: Seq<EdgeMutation>,
    delta: TxDelta,
    direction: TraversalDirection,
    count: nat,
)
    requires
        count <= delta.inserted@.len(),
    ensures
        overlay_agrees(
            after_inserts(
                after_deletes(
                    after_mutations(mutations, direction, mutations.len()),
                    delta.deleted@,
                    direction,
                    delta.deleted@.len(),
                ),
                delta.inserted@,
                direction,
                count,
            ),
            edge_events(mutations, delta, direction).take(
                (mutations.len() + delta.deleted@.len() + count) as int,
            ),
        ),
    decreases count,
{
    let events = edge_events(mutations, delta, direction);
    let removed = after_deletes(
        after_mutations(mutations, direction, mutations.len()),
        delta.deleted@,
        direction,
        delta.deleted@.len(),
    );
    if count == 0 {
        lemma_events_of_deletes(mutations, delta, direction, delta.deleted@.len());
    } else {
        let at = count - 1;
        lemma_events_of_inserts(mutations, delta, direction, at as nat);
        let place = mutations.len() + delta.deleted@.len() + at;
        let before = after_inserts(removed, delta.inserted@, direction, at as nat);
        assert(events.take(place + 1) =~= events.take(place).push(events[place]));
        assert(events[place].edge == facing(delta.inserted@[at], direction));
        lemma_event_step(before, events.take(place), events[place]);
    }
}

/// The edges of a stored row that no deletion that counts names.
pub open spec fn undeleted(events: Seq<EdgeEvent>, node: u32) -> spec_fn(WeightedNeighbor) -> bool {
    |stored: WeightedNeighbor|
        forall|edge: OverlayEdge| #[trigger]
            stays_deleted(events, edge) ==> !names(edge, node, stored)
}

/// A node's current row holds the stored edges that no counting deletion names,
/// in their order, and after them the inserted edges that are there, each once
/// and with weight one, and no others.
pub proof fn law_current_row_follows_events(
    engine: Engine,
    delta: TxDelta,
    direction: TraversalDirection,
    node: u32,
    inserted: OverlayEdge,
)
    ensures
        ({
            let events = edge_events(engine.edge_buffer@, delta, direction);
            let stored = if direction is In {
                engine.base_inbound_row(node)
            } else {
                engine.base_row(node)
            };
            let kept = stored.filter(undeleted(events, node));
            let row = engine.current_row(delta, direction, node);
            let added = row.skip(kept.len() as int);
            &&& kept.len() <= row.len()
            &&& row.take(kept.len() as int) == kept
            &&& inserted.source == node ==> (added.contains(new_edge(inserted)) <==> stays_inserted(
                events,
                inserted,
            ))
            &&& forall|i: int| 0 <= i < added.len() ==> (#[trigger] added[i]).weight == 1
            &&& added.no_duplicates()
        }),
{
    let mutations = engine.edge_buffer@;
    let events = edge_events(mutations, delta, direction);
    let overlay = overlay_of(mutations, delta, direction);
    lemma_events_of_inserts(mutations, delta, direction, delta.inserted@.len());
    assert(events.take(events.len() as int) =~= events);
    assert(overlay_agrees(overlay, events));
    let stored = if direction is In {
        engine.base_inbound_row(node)
    } else {
        engine.base_row(node)
    };
    let row = engine.current_row(delta, direction, node);
    lemma_kept_is_filter(stored, node, overlay.deletes);
    let keep = unnamed(overlay.deletes, node);
    let asked = undeleted(events, node);
    assert forall|edge: WeightedNeighbor| #[trigger] keep(edge) == asked(edge) by {
        if keep(edge) {
            assert forall|change: OverlayEdge| #[trigger] stays_deleted(events, change) implies !names(
                change,
                node,
                edge,
            ) by {
                assert(overlay.deletes.contains(change));
                let i = choose|i: int|
                    0 <= i < overlay.deletes.len() && overlay.deletes[i] == change;
                assert(!names(overlay.deletes[i], node, edge));
            }
        }
        if asked(edge) {
            assert forall|i: int| 0 <= i < overlay.deletes.len() implies !names(
                #[trigger] overlay.deletes[i],
                node,
                edge,
            ) by {
                assert(overlay.deletes.contains(overlay.deletes[i]));
                assert(stays_deleted(events, overlay.deletes[i]));
            }
        }
    }
    assert(keep =~= asked);
    let kept = stored.filter(asked);
    let more = added_row(overlay.inserts, node);
    assert(row == kept + more);
    assert(row.take(kept.len() as int) =~= kept);
    assert(row.skip(kept.len() as int) =~= more);
    lemma_added_row(overlay.inserts, node, inserted);
    lemma_changes_insert_once(
        mutations,
        delta,
        direction,
        mutations.len(),
        delta.deleted@.len(),
        delta.inserted@.len(),
    );
    lemma_added_once(overlay.inserts, node);
}

proof fn lemma_added_row(inserts: Seq<OverlayEdge>, node: u32, edge: OverlayEdge)
    ensures
        edge.source == node ==> (added_row(inserts, node).contains(new_edge(edge))
            <==> inserts.contains(edge)),
        forall|i: int|
            0 <= i < added_row(inserts, node).len() ==> (#[trigger] added_row(
                inserts,
                node,
            )[i]).weight == 1,
    decreases inserts.len(),
{
    if inserts.len() > 0 {
        let rest = inserts.drop_last();
        let last = inserts.last();
        lemma_added_row(rest, node, edge);
        lemma_push_contains(rest, last, edge);
        assert(inserts =~= rest.push(last));
        lemma_push_contains(added_row(rest, node), new_edge(last), new_edge(edge));
        if edge.source == node && last.source == node && new_edge(last) == new_edge(edge) {
            assert(last == edge);
        }
    }
}

proof fn lemma_unerased_once(edges: Seq<OverlayEdge>, removal: OverlayEdge)
    requires
        edges.no_duplicates(),
    ensures
        unerased(edges, removal).no_duplicates(),
        forall|edge: OverlayEdge| #[trigger]
            unerased(edges, removal).contains(edge) ==> edges.contains(edge),
    decreases edges.len(),
{
    if edges.len() > 0 {
        let rest = edges.drop_last();
        assert(rest.no_duplicates()) by {
            assert forall|i: int, j: int|
                0 <= i < rest.len() && 0 <= j < rest.len() && i != j implies rest[i] != rest[j] by {
                assert(edges[i] != edges[j]);
            }
        }
        lemma_unerased_once(rest, removal);
        let less = unerased(rest, removal);
        let all = unerased(edges, removal);
        assert forall|edge: OverlayEdge| #[trigger] all.contains(edge) implies edges.contains(
            edge,
        ) by {
            let i = choose|i: int| 0 <= i < all.len() && all[i] == edge;
            if i < less.len() {
                assert(less[i] == edge);
                assert(less.contains(edge));
                let k = choose|k: int| 0 <= k < rest.len() && rest[k] == edge;
                assert(edges[k] == edge);
            } else {
                assert(edges[edges.len() - 1] == edge);
            }
        }
        if !erases(removal, edges.last()) {
            assert(!less.contains(edges.last())) by {
                if less.contains(edges.last()) {
                    let k = choose|k: int| 0 <= k < rest.len() && rest[k] == edges.last();
                    assert(edges[k] != edges[edges.len() - 1]);
                }
            }
            lemma_pushed_once(less, edges.last());
        }
    }
}

proof fn lemma_pushed_once<T>(list: Seq<T>, item: T)
    requires
        list.no_duplicates(),
        !list.contains(item),
    ensures
        list.push(item).no_duplicates(),
{
    let all = list.push(item);
    assert forall|i: int, j: int| 0 <= i < all.len() && 0 <= j < all.len() && i != j implies all[i]
        != all[j] by {
        if i < list.len() {
            assert(list.contains(list[i]));
        }
        if j < list.len() {
            assert(list.contains(list[j]));
        }
    }
}

proof fn lemma_changes_insert_once(
    mutations: Seq<EdgeMutation>,
    delta: TxDelta,
    direction: TraversalDirection,
    buffered: nat,
    deleted: nat,
    inserted: nat,
)
    requires
        buffered <= mutations.len(),
        deleted > 0 || inserted > 0 ==> buffered == mutations.len(),
        inserted > 0 ==> deleted == delta.deleted@.len(),
    ensures
        ({
            let first = after_mutations(mutations, direction, buffered);
            let second = after_deletes(first, delta.deleted@, direction, deleted);
            after_inserts(second, delta.inserted@, direction, inserted).inserts.no_duplicates()
        }),
    decreases buffered + deleted + inserted,
{
    let first = after_mutations(mutations, direction, buffered);
    let second = after_deletes(first, delta.deleted@, direction, deleted);
    if inserted > 0 {
        let less = (inserted - 1) as nat;
        lemma_changes_insert_once(mutations, delta, direction, buffered, deleted, less);
        let before = after_inserts(second, delta.inserted@, direction, less);
        let edge = facing(delta.inserted@[inserted - 1], direction);
        if !before.inserts.contains(edge) {
            lemma_pushed_once(before.inserts, edge);
        }
    } else if deleted > 0 {
        let less = (deleted - 1) as nat;
        lemma_changes_insert_once(mutations, delta, direction, buffered, less, 0);
        let before = after_deletes(first, delta.deleted@, direction, less);
        lemma_unerased_once(before.inserts, facing(delta.deleted@[deleted - 1], direction));
    } else if buffered > 0 {
        let less = (buffered - 1) as nat;
        lemma_changes_insert_once(mutations, delta, direction, less, 0, 0);
        let before = after_mutations(mutations, direction, less);
        let edge = facing(mutation_edge(mutations[buffered - 1]), direction);
        match mutations[buffered - 1].kind {
            MutationKind::Insert => {
                if !before.inserts.contains(edge) {
                    lemma_pushed_once(before.inserts, edge);
                }
            },
            MutationKind::Delete => {
                lemma_unerased_once(before.inserts, edge);
            },
        }
    }
}

proof fn lemma_added_once(inserts: Seq<OverlayEdge>, node: u32)
    requires
        inserts.no_duplicates(),
    ensures
        added_row(inserts, node).no_duplicates(),
        forall|edge: WeightedNeighbor| #[trigger]
            added_row(inserts, node).contains(edge) ==> exists|i: int|
                0 <= i < inserts.len() && (#[trigger] inserts[i]).source == node && added_edge(
                    inserts[i],
                ) == edge,
    decreases inserts.len(),
{
    if inserts.len() > 0 {
        let rest = inserts.drop_last();
        assert(rest.no_duplicates()) by {
            assert forall|i: int, j: int|
                0 <= i < rest.len() && 0 <= j < rest.len() && i != j implies rest[i] != rest[j] by {
                assert(inserts[i] != inserts[j]);
            }
        }
        lemma_added_once(rest, node);
        let less = added_row(rest, node);
        let all = added_row(inserts, node);
        let last = inserts.last();
        assert forall|edge: WeightedNeighbor| #[trigger] all.contains(edge) implies exists|i: int|
            0 <= i < inserts.len() && (#[trigger] inserts[i]).source == node && added_edge(
                inserts[i],
            ) == edge by {
            let k = choose|k: int| 0 <= k < all.len() && all[k] == edge;
            if k < less.len() {
                assert(less[k] == edge);
                assert(less.contains(edge));
                let i = choose|i: int|
                    0 <= i < rest.len() && (#[trigger] rest[i]).source == node && added_edge(
                        rest[i],
                    ) == edge;
                assert(inserts[i].source == node && added_edge(inserts[i]) == edge);
            } else {
                assert(inserts[inserts.len() - 1].source == node);
            }
        }
        if last.source == node {
            assert(!less.contains(added_edge(last))) by {
                if less.contains(added_edge(last)) {
                    let i = choose|i: int|
                        0 <= i < rest.len() && (#[trigger] rest[i]).source == node && added_edge(
                            rest[i],
                        ) == added_edge(last);
                    assert(rest[i] == last);
                    assert(inserts[i] != inserts[inserts.len() - 1]);
                }
            }
            lemma_pushed_once(less, added_edge(last));
        }
    }
}

} // verus!
