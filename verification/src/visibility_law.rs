//! What a caller may not see can be cut out of the graph: a search finds the
//! same paths as it would in a graph without it.
use roaring::RoaringBitmap;
use vstd::prelude::*;

use crate::bitmap::bitmap_contents;
use crate::edge_labels::EdgeTypeLabels;
use crate::errors::GraphResult;
use crate::meeting::{level, meet, next_round, round_meeting, start_sides, Sides};
use crate::neighbors::{Neighbor, NeighborSource, WeightedNeighbor, WeightedNeighborSource};
use crate::node_store::NodeStore;
use crate::path_finder::{search_graph, unweighted_path, UnweightedPathRequest};
use crate::relaxation::{
    final_frontier, is_over, least_entry, lemma_ends, lemma_run_is_final, lemma_start, relax, run,
    settle, start_frontier, take_entry, Frontier, WeightedGraph,
};
use crate::search::{
    absorb, bfs_trail, discovered, expanded, lemma_found_trail, position_of, SearchGraph,
    Visit,
};
use crate::types::EdgeTypeId;
use crate::visibility::{QueryExecutionContext, VisibilityScope};
use crate::weighted_path::{lemma_weighted_bounded, weighted_graph, weighted_path};

verus! {

/// Whether a caller may see an edge: the relationship itself, and the node that
/// it leads to.
pub open spec fn visible(scope: VisibilityScope, edge: Neighbor) -> bool {
    scope.relationship_verdict(edge.type_id, edge.relationship_id) == Some(true)
        && scope.shows_node(edge.target)
}

/// Whether a caller may see everything.
pub open spec fn sees_all(scope: VisibilityScope) -> bool {
    forall|edge: Neighbor| #[trigger] visible(scope, edge)
}

/// Whether two queries differ in nothing but what their callers may see.
pub open spec fn same_but_for_visibility(
    left: QueryExecutionContext<'_>,
    right: QueryExecutionContext<'_>,
) -> bool {
    left.edge_type_filter == right.edge_type_filter && left.deleted_nodes == right.deleted_nodes
}

/// Whether a graph is another one without the edges that are not kept.
spec fn cut_from(g: SearchGraph, h: SearchGraph, kept: spec_fn(Neighbor) -> bool) -> bool {
    &&& forall|node: u32| #[trigger] (h.adjacency)(node) == (g.adjacency)(node).filter(kept)
    &&& forall|edge: Neighbor| #[trigger] (g.allows)(edge) == (kept(edge) && (h.allows)(edge))
}

proof fn lemma_absorb_cut(
    g: SearchGraph,
    h: SearchGraph,
    kept: spec_fn(Neighbor) -> bool,
    order: Seq<Visit>,
    from: int,
    label: int,
    edges: Seq<Neighbor>,
)
    requires
        cut_from(g, h, kept),
    ensures
        absorb(g, order, from, label, edges) == absorb(h, order, from, label, edges.filter(kept)),
    decreases edges.len(),
{
    reveal(Seq::filter);
    if edges.len() > 0 {
        let rest = edges.drop_last();
        lemma_absorb_cut(g, h, kept, order, from, label, rest);
        let edge = edges.last();
        assert((g.allows)(edge) == (kept(edge) && (h.allows)(edge)));
        if kept(edge) {
            assert(edges.filter(kept) == rest.filter(kept).push(edge));
            assert(edges.filter(kept).drop_last() =~= rest.filter(kept));
        }
    }
}

proof fn lemma_expanded_cut(
    g: SearchGraph,
    h: SearchGraph,
    kept: spec_fn(Neighbor) -> bool,
    root: u32,
    max_depth: int,
    count: nat,
)
    requires
        cut_from(g, h, kept),
    ensures
        expanded(g, root, max_depth, count) == expanded(h, root, max_depth, count),
    decreases count,
{
    if count > 0 {
        let at = count - 1;
        lemma_expanded_cut(g, h, kept, root, max_depth, at as nat);
        let before = expanded(g, root, max_depth, at as nat);
        if at < before.len() && before[at].label < max_depth {
            let node = before[at].node;
            assert((h.adjacency)(node) == (g.adjacency)(node).filter(kept));
            lemma_absorb_cut(
                g,
                h,
                kept,
                before,
                at,
                before[at].label + 1,
                (g.adjacency)(node),
            );
        }
    }
}

proof fn lemma_bfs_cut(
    g: SearchGraph,
    h: SearchGraph,
    kept: spec_fn(Neighbor) -> bool,
    source: u32,
    target: u32,
    max_depth: int,
)
    requires
        cut_from(g, h, kept),
    ensures
        bfs_trail(g, source, target, max_depth) == bfs_trail(h, source, target, max_depth),
{
    assert forall|count: nat| #[trigger] expanded(g, source, max_depth, count) == expanded(
        h,
        source,
        max_depth,
        count,
    ) by {
        lemma_expanded_cut(g, h, kept, source, max_depth, count);
    }
    if crate::search::found(g, source, max_depth, target) {
        let count = choose|count: nat|
            discovered(#[trigger] expanded(g, source, max_depth, count), target);
        let order = expanded(g, source, max_depth, count);
        let at = position_of(order, target);
        lemma_found_trail(g, source, target, max_depth, count, at);
        lemma_expanded_cut(g, h, kept, source, max_depth, count);
        lemma_found_trail(h, source, target, max_depth, count, at);
    } else if crate::search::found(h, source, max_depth, target) {
        let count = choose|count: nat|
            discovered(#[trigger] expanded(h, source, max_depth, count), target);
        lemma_expanded_cut(g, h, kept, source, max_depth, count);
        assert(discovered(expanded(g, source, max_depth, count), target));
    }
}

proof fn lemma_level_cut(
    g: SearchGraph,
    h: SearchGraph,
    kept: spec_fn(Neighbor) -> bool,
    order: Seq<Visit>,
    done: int,
    upto: int,
    label: int,
)
    requires
        cut_from(g, h, kept),
    ensures
        level(g, order, done, upto, label) == level(h, order, done, upto, label),
    decreases upto - done,
{
    if upto > done {
        lemma_level_cut(g, h, kept, order, done, upto - 1, label);
        let node = order[upto - 1].node;
        assert((h.adjacency)(node) == (g.adjacency)(node).filter(kept));
        lemma_absorb_cut(
            g,
            h,
            kept,
            level(g, order, done, upto - 1, label),
            upto - 1,
            label,
            (g.adjacency)(node),
        );
    }
}

proof fn lemma_meet_cut(
    g: SearchGraph,
    h: SearchGraph,
    kept: spec_fn(Neighbor) -> bool,
    sides: Sides,
    depth: int,
    max_depth: int,
)
    requires
        cut_from(g, h, kept),
    ensures
        meet(g, sides, depth, max_depth) == meet(h, sides, depth, max_depth),
    decreases max_depth - depth,
{
    if depth < max_depth {
        lemma_level_cut(
            g,
            h,
            kept,
            sides.forward,
            sides.forward_done,
            sides.forward.len() as int,
            depth + 1,
        );
        lemma_level_cut(
            g,
            h,
            kept,
            sides.backward,
            sides.backward_done,
            sides.backward.len() as int,
            depth + 1,
        );
        assert(next_round(g, sides, depth) == next_round(h, sides, depth));
        assert(round_meeting(g, sides, depth) == round_meeting(h, sides, depth));
        lemma_meet_cut(g, h, kept, next_round(g, sides, depth), depth + 1, max_depth);
    }
}

/// A search by a caller who may not see some nodes and relationships finds, step
/// by step, what a search by a caller who sees everything finds in the graph
/// without the edges to these nodes and without these relationships.
pub proof fn law_hidden_parts_can_be_cut_out<N: NeighborSource, M: NeighborSource>(
    node_store: &NodeStore,
    whole: &N,
    cut: &M,
    request: UnweightedPathRequest<'_>,
    context: QueryExecutionContext<'_>,
    full: QueryExecutionContext<'_>,
)
    requires
        same_but_for_visibility(context, full),
        sees_all(*full.visibility),
        context.visibility.shows_node(request.source),
        context.visibility.shows_node(request.target),
        forall|node: u32| #[trigger]
            cut.adjacency(node) == whole.adjacency(node).filter(
                |edge: Neighbor| visible(*context.visibility, edge),
            ),
    ensures
        unweighted_path(node_store, whole, request, context) == unweighted_path(
            node_store,
            cut,
            request,
            full,
        ),
{
    let g = search_graph(node_store, whole, context);
    let h = search_graph(node_store, cut, full);
    let kept = |edge: Neighbor| visible(*context.visibility, edge);
    assert(cut_from(g, h, kept)) by {
        assert forall|node: u32| #[trigger] (h.adjacency)(node) == (g.adjacency)(node).filter(
            kept,
        ) by {
            assert(cut.adjacency(node) == whole.adjacency(node).filter(kept));
        }
        assert forall|edge: Neighbor| #[trigger] (g.allows)(edge) == (kept(edge) && (h.allows)(
            edge,
        )) by {
            assert(visible(*full.visibility, edge));
        }
    }
    lemma_all_nodes_shown(*full.visibility, request.source);
    lemma_all_nodes_shown(*full.visibility, request.target);
    let depth = request.max_depth as int;
    lemma_bfs_cut(g, h, kept, request.source, request.target, depth);
    lemma_meet_cut(g, h, kept, start_sides(request.source, request.target), 0, depth);
}

/// A caller who sees everything sees every node.
pub proof fn lemma_all_nodes_shown(scope: VisibilityScope, node: u32)
    requires
        sees_all(scope),
    ensures
        scope.shows_node(node),
{
    let edge = Neighbor {
        target: node,
        type_id: crate::types::EdgeTypeId(0),
        schema_reversed: false,
        relationship_id: None,
    };
    assert(visible(scope, edge));
}

/// Whether a weighted graph is another one without the edges that are not kept.
spec fn weighted_cut_from(
    g: WeightedGraph,
    h: WeightedGraph,
    kept: spec_fn(WeightedNeighbor) -> bool,
) -> bool {
    &&& forall|node: u32| #[trigger] (h.adjacency)(node) == (g.adjacency)(node).filter(kept)
    &&& forall|edge: WeightedNeighbor| #[trigger]
        (g.allows)(edge) == (kept(edge) && (h.allows)(edge))
}

proof fn lemma_relax_cut(
    g: WeightedGraph,
    h: WeightedGraph,
    kept: spec_fn(WeightedNeighbor) -> bool,
    state: Frontier,
    node: u32,
    cost: u64,
    edges: Seq<WeightedNeighbor>,
)
    requires
        weighted_cut_from(g, h, kept),
    ensures
        relax(g, state, node, cost, edges) == relax(h, state, node, cost, edges.filter(kept)),
    decreases edges.len(),
{
    reveal(Seq::filter);
    if edges.len() > 0 {
        let rest = edges.drop_last();
        lemma_relax_cut(g, h, kept, state, node, cost, rest);
        let edge = edges.last();
        assert((g.allows)(edge) == (kept(edge) && (h.allows)(edge)));
        if kept(edge) {
            assert(edges.filter(kept) == rest.filter(kept).push(edge));
            assert(edges.filter(kept).drop_last() =~= rest.filter(kept));
        }
    }
}

proof fn lemma_run_cut(
    g: WeightedGraph,
    h: WeightedGraph,
    kept: spec_fn(WeightedNeighbor) -> bool,
    state: Frontier,
    target: u32,
    steps: nat,
)
    requires
        weighted_cut_from(g, h, kept),
    ensures
        run(g, state, target, steps) == run(h, state, target, steps),
    decreases steps,
{
    if steps > 0 && !is_over(state, target) {
        let entry = least_entry(state.queue);
        assert((h.adjacency)(entry.1) == (g.adjacency)(entry.1).filter(kept));
        lemma_relax_cut(
            g,
            h,
            kept,
            take_entry(state, entry),
            entry.1,
            entry.0,
            (g.adjacency)(entry.1),
        );
        assert(settle(g, state) == settle(h, state));
        lemma_run_cut(g, h, kept, settle(g, state), target, (steps - 1) as nat);
    }
}

/// A weighted search by a caller who may not see some nodes and relationships
/// finds, step by step and cost by cost, what a search by a caller who sees
/// everything finds in the graph without the edges to these nodes and without
/// these relationships.
pub proof fn law_hidden_parts_can_be_cut_out_of_weighted_searches<
    W: WeightedNeighborSource,
    V: WeightedNeighborSource,
>(
    node_store: &NodeStore,
    whole: &W,
    cut: &V,
    source: u32,
    target: u32,
    labels: EdgeTypeLabels<'_>,
    context: QueryExecutionContext<'_>,
    full: QueryExecutionContext<'_>,
)
    requires
        same_but_for_visibility(context, full),
        sees_all(*full.visibility),
        context.visibility.shows_node(source),
        context.visibility.shows_node(target),
        whole.weighted() == cut.weighted(),
        forall|node: u32| #[trigger]
            cut.weighted_adjacency(node) == whole.weighted_adjacency(node).filter(
                |edge: WeightedNeighbor| visible(*context.visibility, edge.unweighted()),
            ),
    ensures
        weighted_path(node_store, whole, source, target, labels, context) == weighted_path(
            node_store,
            cut,
            source,
            target,
            labels,
            full,
        ),
{
    let g = weighted_graph(node_store, whole, context);
    let h = weighted_graph(node_store, cut, full);
    let kept = |edge: WeightedNeighbor| visible(*context.visibility, edge.unweighted());
    let count = node_store.nodes().len();
    assert(weighted_cut_from(g, h, kept)) by {
        assert forall|node: u32| #[trigger] (h.adjacency)(node) == (g.adjacency)(node).filter(
            kept,
        ) by {
            assert(cut.weighted_adjacency(node) == whole.weighted_adjacency(node).filter(kept));
        }
        assert forall|edge: WeightedNeighbor| #[trigger] (g.allows)(edge) == (kept(edge)
            && (h.allows)(edge)) by {
            assert(visible(*full.visibility, edge.unweighted()));
        }
    }
    lemma_all_nodes_shown(*full.visibility, source);
    lemma_all_nodes_shown(*full.visibility, target);
    if source < count {
        let start = start_frontier(count, source);
        lemma_weighted_bounded(node_store, whole, context);
        lemma_start(g, count, source);
        let steps = lemma_ends(g, start, target, count, source);
        lemma_run_cut(g, h, kept, start, target, steps);
        lemma_run_is_final(g, count, source, target, steps);
        lemma_run_is_final(h, count, source, target, steps);
        assert(final_frontier(g, count, source, target) == final_frontier(
            h,
            count,
            source,
            target,
        ));
    }
}

/// What a scope decides. One that enforces shows exactly the nodes and the
/// relationships that are not hidden, cannot decide an edge without an identity
/// whose type is protected, and shows every other. One without restrictions shows
/// everything.
pub proof fn law_scopes_show_what_is_not_hidden(
    hidden_nodes: RoaringBitmap,
    hidden_relationships: RoaringBitmap,
    protected: RoaringBitmap,
    enforced: VisibilityScope,
    free: VisibilityScope,
    node: u32,
    type_id: EdgeTypeId,
    relationship: Option<u32>,
    seen: bool,
    verdict: GraphResult<bool>,
    freely_seen: bool,
    free_verdict: GraphResult<bool>,
)
    requires
        call_ensures(
            VisibilityScope::enforced,
            (hidden_nodes, hidden_relationships, protected),
            enforced,
        ),
        call_ensures(VisibilityScope::unrestricted, (), free),
        call_ensures(VisibilityScope::allows_node, (&enforced, node), seen),
        call_ensures(
            VisibilityScope::allows_relationship,
            (&enforced, type_id, relationship),
            verdict,
        ),
        call_ensures(VisibilityScope::allows_node, (&free, node), freely_seen),
        call_ensures(
            VisibilityScope::allows_relationship,
            (&free, type_id, relationship),
            free_verdict,
        ),
    ensures
        seen <==> !bitmap_contents(hidden_nodes).contains(node),
        relationship matches Some(id) ==> (verdict matches Ok(allowed) && (allowed
            <==> !bitmap_contents(hidden_relationships).contains(id))),
        relationship is None && bitmap_contents(protected).contains(type_id.0) ==> verdict is Err,
        relationship is None && !bitmap_contents(protected).contains(type_id.0) ==> (
        verdict matches Ok(allowed) && allowed),
        freely_seen,
        free_verdict matches Ok(allowed) && allowed,
{
    if let Some(id) = relationship {
        assert(enforced.relationship_verdict(type_id, Some(id)) == Some(
            !bitmap_contents(hidden_relationships).contains(id),
        ));
    }
}

/// A query follows an edge exactly if its relationship and its target may be
/// seen and its type is one that is asked for.
pub proof fn law_followed_edges_are_seen(
    context: QueryExecutionContext<'_>,
    edge: Neighbor,
    verdict: GraphResult<bool>,
    seen: bool,
)
    requires
        call_ensures(
            VisibilityScope::allows_relationship,
            (context.visibility, edge.type_id, edge.relationship_id),
            verdict,
        ),
        call_ensures(VisibilityScope::allows_node, (context.visibility, edge.target), seen),
    ensures
        context.shows_edge(edge) <==> {
            &&& verdict matches Ok(allowed) && allowed
            &&& seen
            &&& context.edge_type_filter matches Some(asked) ==> bitmap_contents(
                *asked,
            ).contains(edge.type_id.0)
        },
        context.undecided(edge) <==> verdict is Err,
        context.deletes(edge.target) <==> bitmap_contents(*context.deleted_nodes).contains(
            edge.target,
        ),
{
}

} // verus!
