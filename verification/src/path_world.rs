//! What a resumable path search is right about: a graph together with a rule
//! of visibility, and how answered pages grow a discovery order in it.
use roaring::RoaringBitmap;
use vstd::prelude::*;

use crate::bitmap::bitmap_contents;
use crate::neighbors::{Neighbor, NeighborSource};
use crate::node_store::NodeStore;
use crate::path_finder::search_graph;
use crate::path_machine::{
    filter_passes, passing, BfsAdjacencyCandidate, BfsAdjacencyCandidateBatch, BfsAdjacencyVerdict,
};
use crate::search::{absorb, bounded, discovered, distinct, position_of, SearchGraph, Visit};
use crate::visibility::QueryExecutionContext;

verus! {

/// A graph, the nodes that may be seen, and the number of nodes.
pub struct PathWorld {
    pub graph: SearchGraph,
    pub shows: spec_fn(u32) -> bool,
    pub nodes: nat,
}

impl PathWorld {
    /// Whether this is the graph that a search reads: the same edges, none of
    /// which may be followed against the filter or out of the store.
    pub open spec fn fits<N: NeighborSource>(
        self,
        node_store: &NodeStore,
        neighbors: &N,
        filter: Option<&RoaringBitmap>,
    ) -> bool {
        &&& self.nodes == node_store.nodes().len()
        &&& bounded(self.graph, self.nodes)
        &&& forall|node: u32| #[trigger] (self.graph.adjacency)(node) == neighbors.adjacency(node)
        &&& forall|edge: Neighbor| #[trigger]
            (self.graph.allows)(edge) ==> filter_passes(filter, edge.type_id)
    }

    /// Whether verdicts about edges are those of this graph.
    pub open spec fn judges(
        self,
        node_store: &NodeStore,
        deleted: RoaringBitmap,
        batch: BfsAdjacencyCandidateBatch,
        verdicts: Seq<BfsAdjacencyVerdict>,
    ) -> bool {
        forall|i: int|
            0 <= i < verdicts.len() ==> followed(
                node_store,
                deleted,
                batch.candidates@[i],
                #[trigger] verdicts[i],
            ) == (self.graph.allows)(batch.candidates@[i].edge())
    }
}

/// The world of a query.
pub open spec fn query_world<N: NeighborSource>(
    node_store: &NodeStore,
    neighbors: &N,
    context: QueryExecutionContext<'_>,
) -> PathWorld {
    PathWorld {
        graph: search_graph(node_store, neighbors, context),
        shows: |node: u32| context.visibility.shows_node(node),
        nodes: node_store.nodes().len(),
    }
}

/// Whether an answered candidate is followed: it may be seen, and its node is
/// live and not deleted by the running transaction.
pub open spec fn followed(
    node_store: &NodeStore,
    deleted: RoaringBitmap,
    candidate: BfsAdjacencyCandidate,
    verdict: BfsAdjacencyVerdict,
) -> bool {
    verdict.shown() && node_store.live(candidate.target_node) && !bitmap_contents(deleted).contains(
        candidate.target_node,
    )
}

/// Whether an answered candidate is followed.
pub fn is_followed(
    node_store: &NodeStore,
    deleted: &RoaringBitmap,
    candidate: &BfsAdjacencyCandidate,
    verdict: &BfsAdjacencyVerdict,
) -> (yes: bool)
    requires
        node_store.wf(),
    ensures
        yes == followed(node_store, *deleted, *candidate, *verdict),
{
    verdict.visible() && node_store.is_active(candidate.target_node) && !deleted.contains(
        candidate.target_node,
    )
}

/// Which answered candidates are followed.
pub open spec fn outcomes(
    node_store: &NodeStore,
    deleted: RoaringBitmap,
    batch: BfsAdjacencyCandidateBatch,
    verdicts: Seq<BfsAdjacencyVerdict>,
) -> Seq<bool> {
    Seq::new(
        verdicts.len(),
        |i: int| followed(node_store, deleted, batch.candidates@[i], verdicts[i]),
    )
}

/// The order after answered edges: each one that is followed to a new node
/// appends it.
pub open spec fn settled(
    order: Seq<Visit>,
    from: int,
    label: int,
    edges: Seq<Neighbor>,
    ok: Seq<bool>,
) -> Seq<Visit>
    decreases edges.len(),
{
    if edges.len() == 0 {
        order
    } else {
        let before = settled(order, from, label, edges.drop_last(), ok);
        let edge = edges.last();
        if ok[edges.len() - 1] && !discovered(before, edge.target) {
            before.push(Visit { node: edge.target, from, edge_type: edge.type_id, label })
        } else {
            before
        }
    }
}

/// One more answered edge.
pub proof fn lemma_settled_next(
    order: Seq<Visit>,
    from: int,
    label: int,
    edges: Seq<Neighbor>,
    ok: Seq<bool>,
    at: int,
)
    requires
        0 <= at < edges.len(),
    ensures
        ({
            let before = settled(order, from, label, edges.take(at), ok);
            settled(order, from, label, edges.take(at + 1), ok) == if ok[at] && !discovered(
                before,
                edges[at].target,
            ) {
                before.push(
                    Visit { node: edges[at].target, from, edge_type: edges[at].type_id, label },
                )
            } else {
                before
            }
        }),
{
    assert(edges.take(at + 1).drop_last() =~= edges.take(at));
}

/// How many nodes answered edges discover, up to and with the target if one is
/// given.
pub open spec fn newly_found(
    order: Seq<Visit>,
    from: int,
    label: int,
    edges: Seq<Neighbor>,
    ok: Seq<bool>,
    target: Option<u32>,
) -> int {
    let after = settled(order, from, label, edges, ok);
    if target is Some && discovered(after, target->Some_0) {
        position_of(after, target->Some_0) + 1 - order.len()
    } else {
        after.len() - order.len()
    }
}

/// More answered edges only append.
pub proof fn lemma_settled_grows(
    order: Seq<Visit>,
    from: int,
    label: int,
    edges: Seq<Neighbor>,
    ok: Seq<bool>,
    small: int,
    large: int,
)
    requires
        0 <= small <= large <= edges.len(),
    ensures
        ({
            let before = settled(order, from, label, edges.take(small), ok);
            let after = settled(order, from, label, edges.take(large), ok);
            &&& order.len() <= before.len() <= after.len()
            &&& forall|i: int| 0 <= i < before.len() ==> #[trigger] after[i] == before[i]
            &&& distinct(order) ==> distinct(after)
        }),
    decreases large,
{
    if large > 0 {
        let middle = settled(order, from, label, edges.take(large - 1), ok);
        lemma_settled_next(order, from, label, edges, ok, large - 1);
        if small < large {
            lemma_settled_grows(order, from, label, edges, ok, small, large - 1);
        } else {
            lemma_settled_grows(order, from, label, edges, ok, small - 1, large - 1);
        }
        let after = settled(order, from, label, edges.take(large), ok);
        if distinct(order) {
            assert forall|i: int, j: int| 0 <= i < j < after.len() implies (
            #[trigger] after[i]).node != (#[trigger] after[j]).node by {
                if j == middle.len() {
                    assert(middle[i].node == after[i].node);
                } else {
                    assert(middle[i] == after[i] && middle[j] == after[j]);
                }
            }
        }
    }
}

/// Answers that are those of a graph grow the order as the graph does.
pub proof fn lemma_settled_absorbs(
    g: SearchGraph,
    order: Seq<Visit>,
    from: int,
    label: int,
    edges: Seq<Neighbor>,
    ok: Seq<bool>,
)
    requires
        forall|i: int| 0 <= i < edges.len() ==> ok[i] == (g.allows)(#[trigger] edges[i]),
    ensures
        settled(order, from, label, edges, ok) == absorb(g, order, from, label, edges),
    decreases edges.len(),
{
    if edges.len() > 0 {
        assert forall|i: int| 0 <= i < edges.drop_last().len() implies ok[i] == (g.allows)(
            #[trigger] edges.drop_last()[i],
        ) by {
            assert(edges.drop_last()[i] == edges[i]);
        }
        lemma_settled_absorbs(g, order, from, label, edges.drop_last(), ok);
    }
}

/// Looking at edges in two parts is looking at all of them.
pub proof fn lemma_absorb_joined(
    g: SearchGraph,
    order: Seq<Visit>,
    from: int,
    label: int,
    first: Seq<Neighbor>,
    rest: Seq<Neighbor>,
)
    ensures
        absorb(g, absorb(g, order, from, label, first), from, label, rest) == absorb(
            g,
            order,
            from,
            label,
            first + rest,
        ),
    decreases rest.len(),
{
    if rest.len() == 0 {
        assert(first + rest =~= first);
    } else {
        lemma_absorb_joined(g, order, from, label, first, rest.drop_last());
        assert((first + rest).drop_last() =~= first + rest.drop_last());
    }
}

/// Edges that a filter keeps out, and that the graph does not allow either,
/// make no difference.
pub proof fn lemma_absorb_passing(
    g: SearchGraph,
    order: Seq<Visit>,
    from: int,
    label: int,
    edges: Seq<Neighbor>,
    filter: Option<&RoaringBitmap>,
)
    requires
        forall|edge: Neighbor| #[trigger]
            (g.allows)(edge) ==> filter_passes(filter, edge.type_id),
    ensures
        absorb(g, order, from, label, passing(edges, filter)) == absorb(
            g,
            order,
            from,
            label,
            edges,
        ),
    decreases edges.len(),
{
    if edges.len() > 0 {
        lemma_absorb_passing(g, order, from, label, edges.drop_last(), filter);
        let rest = passing(edges.drop_last(), filter);
        if filter_passes(filter, edges.last().type_id) {
            assert(passing(edges, filter).drop_last() =~= rest);
        }
    }
}

/// A page of a row, without what the filter keeps out, takes the order from
/// where it was before the page to where it is after it.
pub proof fn lemma_page_absorbed(
    g: SearchGraph,
    base: Seq<Visit>,
    from: int,
    label: int,
    row: Seq<Neighbor>,
    first: int,
    next: int,
    filter: Option<&RoaringBitmap>,
)
    requires
        0 <= first <= next <= row.len(),
        forall|edge: Neighbor| #[trigger]
            (g.allows)(edge) ==> filter_passes(filter, edge.type_id),
    ensures
        absorb(
            g,
            absorb(g, base, from, label, row.take(first)),
            from,
            label,
            passing(row.subrange(first, next), filter),
        ) == absorb(g, base, from, label, row.take(next)),
{
    let before = absorb(g, base, from, label, row.take(first));
    lemma_absorb_passing(g, before, from, label, row.subrange(first, next), filter);
    lemma_absorb_joined(g, base, from, label, row.take(first), row.subrange(first, next));
    assert(row.take(first) + row.subrange(first, next) =~= row.take(next));
}

} // verus!
