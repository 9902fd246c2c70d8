//! What the rows of paths tell: one walk over edges that the query may follow,
//! node by node and edge by edge, and no other walk is shorter or cheaper.
use vstd::prelude::*;

use crate::bitmap::bitmap_contents;
use crate::edge_labels::EdgeTypeLabels;
use crate::engine::Engine;
use crate::engine_paths::registered_label;
use crate::meeting::{
    bidirectional_trail, law_bidirectional_is_shortest, law_bidirectional_trail_follows_edges,
    linked, linked_by, symmetric, typed_symmetric,
};
use crate::neighbors::{Neighbor, NeighborSource, WeightedNeighbor, WeightedNeighborSource};
use crate::node_store::{NodeStore, NodeView};
use crate::overlay::TxDelta;
use crate::path_finder::{
    path_view, request_labels, search_graph, unweighted_path, UnweightedPathRequest,
};
use crate::relaxation::{
    final_frontier, is_weighted_walk, law_recorded_cost_is_least, lineage, lineage_follows, stands,
    walk_cost, weighted_walk_between, Frontier, WeightedGraph,
};
use crate::search::{
    bfs_trail, bounded, is_walk, law_bfs_finds_iff_walk_exists, law_bfs_trail_is_shortest,
    trail_follows, walk_between, SearchGraph,
};
use crate::types::{EdgeTypeId, PathStepView, TraversalDirection, WeightedPathStepView};
use crate::visibility::QueryExecutionContext;
use crate::weighted_path::{weighted_graph, weighted_path};

verus! {

/// Whether a query may follow an edge: the caller may see the relationship and
/// the node that it leads to, the edge's type is asked for, and the node is a
/// live one that the running transaction has not deleted.
pub open spec fn may_follow(
    nodes: Seq<NodeView>,
    context: QueryExecutionContext<'_>,
    edge: Neighbor,
) -> bool {
    &&& context.visibility.relationship_verdict(edge.type_id, edge.relationship_id) == Some(true)
    &&& context.visibility.shows_node(edge.target)
    &&& context.edge_type_filter is Some ==> bitmap_contents(
        *context.edge_type_filter->Some_0,
    ).contains(edge.type_id.0)
    &&& edge.target < nodes.len()
    &&& nodes[edge.target as int].active
    &&& !bitmap_contents(*context.deleted_nodes).contains(edge.target)
}

/// The edges of a source that a query may follow.
pub open spec fn followed_graph<N: NeighborSource>(
    node_store: &NodeStore,
    neighbors: &N,
    context: QueryExecutionContext<'_>,
) -> SearchGraph {
    SearchGraph {
        adjacency: |node: u32| neighbors.adjacency(node),
        allows: |edge: Neighbor| may_follow(node_store.nodes(), context, edge),
    }
}

/// The weighted edges of a source that a query may follow.
pub open spec fn followed_weighted_graph<W: WeightedNeighborSource>(
    node_store: &NodeStore,
    neighbors: &W,
    context: QueryExecutionContext<'_>,
) -> WeightedGraph {
    WeightedGraph {
        adjacency: |node: u32| neighbors.weighted_adjacency(node),
        allows: |edge: WeightedNeighbor|
            may_follow(
                node_store.nodes(),
                context,
                Neighbor {
                    target: edge.target,
                    type_id: edge.type_id,
                    schema_reversed: edge.schema_reversed,
                    relationship_id: edge.relationship_id,
                },
            ),
    }
}

/// Whether rows tell a walk: each row its place, the table and key of the walk's
/// node there and, but for the first, the label of the edge that leads to it.
pub open spec fn rows_tell(
    nodes: Seq<NodeView>,
    label: spec_fn(EdgeTypeId) -> Seq<char>,
    rows: Seq<PathStepView>,
    source: u32,
    walk: Seq<Neighbor>,
) -> bool {
    &&& rows.len() == walk.len() + 1
    &&& rows[0].edge_label is None
    &&& rows[0].node_table == nodes[source as int].table_oid
    &&& rows[0].node_id == nodes[source as int].key
    &&& forall|i: int|
        0 < i < rows.len() ==> {
            let edge = walk[i - 1];
            &&& (#[trigger] rows[i]).node_table == nodes[edge.target as int].table_oid
            &&& rows[i].node_id == nodes[edge.target as int].key
            &&& rows[i].edge_label == Some(label(edge.type_id))
        }
    &&& forall|i: int|
        0 <= i < rows.len() && rows.len() <= i32::MAX ==> (#[trigger] rows[i]).step == i
}

/// Whether weighted rows tell a walk: as rows do, and besides the weight of the
/// edge that leads to each node, the sum of the weights up to it, and the sum of
/// all.
pub open spec fn weighted_rows_tell(
    nodes: Seq<NodeView>,
    label: spec_fn(EdgeTypeId) -> Seq<char>,
    rows: Seq<WeightedPathStepView>,
    source: u32,
    walk: Seq<WeightedNeighbor>,
) -> bool {
    &&& rows.len() == walk.len() + 1
    &&& rows[0].edge_label is None
    &&& rows[0].edge_weight is None
    &&& rows[0].node_table == nodes[source as int].table_oid
    &&& rows[0].node_id == nodes[source as int].key
    &&& rows[0].step_cost == 0
    &&& forall|i: int|
        0 < i < rows.len() ==> {
            let edge = walk[i - 1];
            &&& (#[trigger] rows[i]).node_table == nodes[edge.target as int].table_oid
            &&& rows[i].node_id == nodes[edge.target as int].key
            &&& rows[i].edge_label == Some(label(edge.type_id))
            &&& rows[i].edge_weight == Some(edge.weight)
            &&& rows[i].step_cost == rows[i - 1].step_cost + edge.weight
        }
    &&& forall|i: int|
        0 <= i < rows.len() ==> (#[trigger] rows[i]).total_cost == rows[walk.len() as int].step_cost
    &&& forall|i: int|
        0 <= i < rows.len() && rows.len() <= i32::MAX ==> (#[trigger] rows[i]).step == i
}

/// The label of an edge type that has no label of its own in a request is the
/// registered one; one that the request labels has the first label that it is
/// given; a type that is not registered is told by its number.
pub proof fn law_labels_name_edge_types(labels: EdgeTypeLabels<'_>, type_id: EdgeTypeId, at: int)
    ensures
        labels.resolver is None && type_id.0 < labels.registry@.len() ==> labels.label(type_id)
            == labels.registry@[type_id.0 as int]@,
        labels.resolver is None && type_id.0 >= labels.registry@.len() ==> labels.label(type_id)
            == "type_"@ + crate::text::decimal(type_id.0 as nat),
        labels.resolver matches Some(table) ==> {
            let entries = table.entries();
            &&& 0 <= at < entries.len() && entries[at].0 == type_id && (forall|i: int|
                0 <= i < at ==> (#[trigger] entries[i]).0 != type_id) ==> labels.label(type_id)
                == entries[at].1@
            &&& (forall|i: int| 0 <= i < entries.len() ==> (#[trigger] entries[i]).0 != type_id)
                && type_id.0 < labels.registry@.len() ==> labels.label(type_id)
                == labels.registry@[type_id.0 as int]@
        },
{
    if let Some(table) = labels.resolver {
        let entries = table.entries();
        if 0 <= at < entries.len() && entries[at].0 == type_id && (forall|i: int|
            0 <= i < at ==> (#[trigger] entries[i]).0 != type_id) {
            lemma_first_label(entries, type_id, at);
        }
        if forall|i: int| 0 <= i < entries.len() ==> (#[trigger] entries[i]).0 != type_id {
            lemma_no_label(entries, type_id);
        }
    }
}

proof fn lemma_first_label(entries: Seq<(EdgeTypeId, String)>, type_id: EdgeTypeId, at: int)
    requires
        0 <= at < entries.len(),
        entries[at].0 == type_id,
        forall|i: int| 0 <= i < at ==> (#[trigger] entries[i]).0 != type_id,
    ensures
        crate::edge_labels::first_label(entries, type_id) == Some(entries[at].1@),
    decreases at,
{
    if at > 0 {
        assert(entries[0].0 != type_id);
        let rest = entries.drop_first();
        assert forall|i: int| 0 <= i < at - 1 implies (#[trigger] rest[i]).0 != type_id by {
            assert(rest[i] == entries[i + 1]);
        }
        assert(rest[at - 1] == entries[at]);
        lemma_first_label(rest, type_id, at - 1);
    }
}

proof fn lemma_no_label(entries: Seq<(EdgeTypeId, String)>, type_id: EdgeTypeId)
    requires
        forall|i: int| 0 <= i < entries.len() ==> (#[trigger] entries[i]).0 != type_id,
    ensures
        crate::edge_labels::first_label(entries, type_id) is None,
    decreases entries.len(),
{
    if entries.len() > 0 {
        assert(entries[0].0 != type_id);
        let rest = entries.drop_first();
        assert forall|i: int| 0 <= i < rest.len() implies (#[trigger] rest[i]).0 != type_id by {
            assert(rest[i] == entries[i + 1]);
        }
        lemma_no_label(rest, type_id);
    }
}

/// The rows of a trail along a walk tell the walk.
proof fn lemma_trail_rows(
    nodes: Seq<NodeView>,
    trail: Seq<(u32, EdgeTypeId)>,
    labels: EdgeTypeLabels<'_>,
    source: u32,
    own: Seq<Neighbor>,
)
    requires
        trail_follows(trail, source, own),
    ensures
        rows_tell(
            nodes,
            |type_id: EdgeTypeId| labels.label(type_id),
            path_view(nodes, trail, labels),
            source,
            own,
        ),
{
    let rows = path_view(nodes, trail, labels);
    assert forall|i: int| 0 < i < rows.len() implies {
        let edge = own[i - 1];
        &&& (#[trigger] rows[i]).node_table == nodes[edge.target as int].table_oid
        &&& rows[i].node_id == nodes[edge.target as int].key
        &&& rows[i].edge_label == Some(labels.label(edge.type_id))
    } by {
        let edge = own[i - 1];
        assert(trail[(i - 1) + 1] == (edge.target, edge.type_id));
    }
}

/// A symmetric graph with types is symmetric.
proof fn lemma_typed_is_symmetric(g: SearchGraph)
    requires
        typed_symmetric(g),
    ensures
        symmetric(g),
{
    assert forall|from: u32, to: u32| #[trigger] linked(g, from, to) implies linked(g, to, from) by {
        let i = choose|i: int|
            0 <= i < (g.adjacency)(from).len() && (g.allows)((#[trigger] (g.adjacency)(from)[i]))
                && (g.adjacency)(from)[i].target == to;
        let kind = (g.adjacency)(from)[i].type_id;
        assert(linked_by(g, from, to, kind));
        assert(linked_by(g, to, from, kind));
        let k = choose|k: int|
            0 <= k < (g.adjacency)(to).len() && (g.allows)((#[trigger] (g.adjacency)(to)[k]))
                && (g.adjacency)(to)[k].target == from && (g.adjacency)(to)[k].type_id == kind;
        assert((g.allows)((g.adjacency)(to)[k]));
    }
}

/// A request for a path is answered with the rows of a walk from the source to
/// the target over edges that the query may follow, within the depth limit, if
/// and only if there is one, and no such walk has fewer edges. A node is its own
/// path. There is no path from or to a node that does not exist or may not be
/// seen. A request that is searched from both ends needs an edge back of the same
/// type for every edge.
pub proof fn law_path_rows_tell_a_shortest_walk<N: NeighborSource>(
    node_store: &NodeStore,
    neighbors: &N,
    request: UnweightedPathRequest<'_>,
    context: QueryExecutionContext<'_>,
    other: Seq<Neighbor>,
)
    requires
        0 <= request.max_depth,
        request.has_unidirectional_edges || typed_symmetric(
            followed_graph(node_store, neighbors, context),
        ),
    ensures
        ({
            let g = followed_graph(node_store, neighbors, context);
            let nodes = node_store.nodes();
            let labels = request_labels(request);
            let (source, target) = (request.source, request.target);
            let path = unweighted_path(node_store, neighbors, request, context);
            let asked = source < nodes.len() && target < nodes.len()
                && context.visibility.shows_node(source) && context.visibility.shows_node(target);
            &&& !asked ==> path is None
            &&& asked && source == target ==> path is Some
            &&& asked && walk_between(g, source, target, other) && other.len() <= request.max_depth
                ==> path is Some && path->Some_0.len() <= other.len() + 1
            &&& path matches Some(rows) ==> exists|own: Seq<Neighbor>|
                #![trigger is_walk(g, source, own)]
                walk_between(g, source, target, own) && own.len() <= request.max_depth && rows_tell(
                    nodes,
                    |type_id: EdgeTypeId| labels.label(type_id),
                    rows,
                    source,
                    own,
                )
        }),
{
    let g = followed_graph(node_store, neighbors, context);
    let nodes = node_store.nodes();
    let labels = request_labels(request);
    let (source, target) = (request.source, request.target);
    let depth = request.max_depth as int;
    let query = search_graph(node_store, neighbors, context);
    assert(g.adjacency =~= query.adjacency);
    assert(g.allows =~= query.allows);
    let asked = source < nodes.len() && target < nodes.len() && context.visibility.shows_node(
        source,
    ) && context.visibility.shows_node(target);
    if asked {
        if source == target {
            let none = Seq::<Neighbor>::empty();
            assert(is_walk(g, source, none));
            assert(walk_between(g, source, target, none));
            let trail = seq![(source, EdgeTypeId(0))];
            lemma_trail_rows(nodes, trail, labels, source, none);
        } else {
            assert(bounded(g, nodes.len()));
            law_bfs_finds_iff_walk_exists(g, source, target, depth, nodes.len());
            if bfs_trail(g, source, target, depth) is Some {
                law_bfs_trail_is_shortest(g, source, target, depth, other);
            }
            if !request.has_unidirectional_edges {
                lemma_typed_is_symmetric(g);
                law_bidirectional_is_shortest(g, source, target, depth, nodes.len());
                law_bidirectional_trail_follows_edges(g, source, target, depth);
            }
            let found = if request.has_unidirectional_edges {
                bfs_trail(g, source, target, depth)
            } else {
                bidirectional_trail(g, source, target, depth)
            };
            if let Some(trail) = found {
                let own = choose|own: Seq<Neighbor>|
                    #![trigger is_walk(g, source, own)]
                    walk_between(g, source, target, own) && trail_follows(trail, source, own);
                let short = choose|short: Seq<Neighbor>|
                    #![trigger is_walk(g, source, short)]
                    walk_between(g, source, target, short) && trail_follows(
                        bfs_trail(g, source, target, depth)->0,
                        source,
                        short,
                    ) && short.len() <= depth;
                assert(own.len() == short.len());
                lemma_trail_rows(nodes, trail, labels, source, own);
                assert(is_walk(g, source, own));
            }
        }
    }
}

/// The rows along recorded parents tell the walk along them.
proof fn lemma_lineage_rows(
    nodes: Seq<NodeView>,
    label: spec_fn(EdgeTypeId) -> Seq<char>,
    rows: Seq<WeightedPathStepView>,
    state: Frontier,
    source: u32,
    target: u32,
    own: Seq<WeightedNeighbor>,
)
    requires
        lineage_follows(state, source, target, own),
        stands(source, own, own.len() as int) == target,
        walk_cost(own, own.len() as int) == state.dist[target as int],
        rows.len() == lineage(state, source, target).len(),
        forall|i: int|
            0 <= i < rows.len() ==> {
                let node = lineage(state, source, target)[i];
                &&& (#[trigger] rows[i]).step == i as i32
                &&& rows[i].node_table == nodes[node as int].table_oid
                &&& rows[i].node_id == nodes[node as int].key
                &&& rows[i].edge_label == if i == 0 {
                    None
                } else {
                    Some(label(state.parent[node].edge_type))
                }
                &&& rows[i].edge_weight == if i == 0 {
                    None
                } else {
                    Some(state.parent[node].edge_weight)
                }
                &&& rows[i].step_cost == state.dist[node as int]
                &&& rows[i].total_cost == state.dist[target as int]
            },
    ensures
        weighted_rows_tell(nodes, label, rows, source, own),
{
    let line = lineage(state, source, target);
    assert(line[0] == stands(source, own, 0));
    assert forall|i: int| 0 < i < rows.len() implies {
        let edge = own[i - 1];
        &&& (#[trigger] rows[i]).node_table == nodes[edge.target as int].table_oid
        &&& rows[i].node_id == nodes[edge.target as int].key
        &&& rows[i].edge_label == Some(label(edge.type_id))
        &&& rows[i].edge_weight == Some(edge.weight)
        &&& rows[i].step_cost == rows[i - 1].step_cost + edge.weight
    } by {
        let edge = own[i - 1];
        assert(line[i] == stands(source, own, i));
        assert(line[i - 1] == stands(source, own, i - 1));
        assert(state.parent[edge.target].edge_type == edge.type_id);
        assert(rows[i - 1].step_cost == state.dist[line[i - 1] as int]);
        assert(walk_cost(own, i) == walk_cost(own, i - 1) + edge.weight);
    }
    let last = own.len() as int;
    assert(line[last] == stands(source, own, last));
    assert(rows[last].step_cost == state.dist[line[last] as int]);
}

/// A request for a weighted path is answered with the rows of a walk from the
/// source to the target over edges that the query may follow, with the label and
/// weight of every edge and the cost of every node, if and only if there is such
/// a walk whose cost can be told, and no such walk costs less. There is no
/// weighted path from or to a node that does not exist or may not be seen, nor
/// over edges without weights.
pub proof fn law_weighted_rows_tell_a_cheapest_walk<W: WeightedNeighborSource>(
    node_store: &NodeStore,
    neighbors: &W,
    source: u32,
    target: u32,
    labels: EdgeTypeLabels<'_>,
    context: QueryExecutionContext<'_>,
    other: Seq<WeightedNeighbor>,
)
    ensures
        ({
            let g = followed_weighted_graph(node_store, neighbors, context);
            let nodes = node_store.nodes();
            let path = weighted_path(node_store, neighbors, source, target, labels, context);
            let asked = source < nodes.len() && target < nodes.len()
                && context.visibility.shows_node(source) && context.visibility.shows_node(target)
                && neighbors.weighted();
            let cost = walk_cost(other, other.len() as int);
            &&& !asked ==> path is None
            &&& asked && weighted_walk_between(g, source, target, other) && cost
                < 0xffff_ffff_ffff_ffff ==> path is Some && path->Some_0[0].total_cost <= cost
            &&& path matches Some(rows) ==> exists|own: Seq<WeightedNeighbor>|
                #![trigger is_weighted_walk(g, source, own)]
                weighted_walk_between(g, source, target, own) && weighted_rows_tell(
                    nodes,
                    |type_id: EdgeTypeId| labels.label(type_id),
                    rows,
                    source,
                    own,
                )
        }),
{
    let g = followed_weighted_graph(node_store, neighbors, context);
    let nodes = node_store.nodes();
    let query = weighted_graph(node_store, neighbors, context);
    assert(g.adjacency =~= query.adjacency);
    assert forall|edge: WeightedNeighbor| #[trigger] (g.allows)(edge) == (query.allows)(edge) by {}
    assert(g.allows =~= query.allows);
    if source < nodes.len() && target < nodes.len() {
        let label = |type_id: EdgeTypeId| labels.label(type_id);
        let state = final_frontier(g, nodes.len(), source, target);
        law_recorded_cost_is_least(g, nodes.len(), source, target, other);
        if let Some(rows) = weighted_path(node_store, neighbors, source, target, labels, context) {
            let own = choose|own: Seq<WeightedNeighbor>|
                #![trigger is_weighted_walk(g, source, own)]
                weighted_walk_between(g, source, target, own) && walk_cost(own, own.len() as int)
                    == state.dist[target as int] && lineage_follows(state, source, target, own);
            lemma_lineage_rows(nodes, label, rows, state, source, target, own);
            assert(is_weighted_walk(g, source, own));
        }
    }
}

/// The edges that an engine's queries may follow: those of the current rows, to
/// live nodes that the running transaction has not deleted.
pub open spec fn current_followed(engine: Engine, delta: TxDelta) -> SearchGraph {
    SearchGraph {
        adjacency: |node: u32|
            {
                let row = engine.current_row(delta, TraversalDirection::Out, node);
                Seq::new(
                    row.len(),
                    |i: int|
                        Neighbor {
                            target: row[i].target,
                            type_id: row[i].type_id,
                            schema_reversed: row[i].schema_reversed,
                            relationship_id: row[i].relationship_id,
                        },
                )
            },
        allows: |edge: Neighbor|
            edge.target < engine.node_store.nodes().len()
                && engine.node_store.nodes()[edge.target as int].active && !bitmap_contents(
                delta.deleted_nodes,
            ).contains(edge.target),
    }
}

/// The weighted edges that an engine's queries may follow.
pub open spec fn current_weighted_followed(engine: Engine, delta: TxDelta) -> WeightedGraph {
    WeightedGraph {
        adjacency: |node: u32| engine.current_row(delta, TraversalDirection::Out, node),
        allows: |edge: WeightedNeighbor|
            edge.target < engine.node_store.nodes().len()
                && engine.node_store.nodes()[edge.target as int].active && !bitmap_contents(
                delta.deleted_nodes,
            ).contains(edge.target),
    }
}

/// The path that an engine answers has the rows of a walk from the source to the
/// target over current edges, within the depth limit, if and only if there is
/// one, and no such walk has fewer edges. A graph that is searched from both ends
/// needs an edge back of the same type for every edge.
#[verifier::spinoff_prover]
#[verifier::rlimit(60)]
pub proof fn law_engine_path_tells_a_shortest_walk(
    engine: Engine,
    delta: TxDelta,
    source: u32,
    target: u32,
    max_depth: int,
    other: Seq<Neighbor>,
)
    requires
        0 <= max_depth,
        source < engine.node_store.nodes().len(),
        engine.one_way() || typed_symmetric(current_followed(engine, delta)),
    ensures
        ({
            let g = current_followed(engine, delta);
            let rows = engine.current_path(delta, source, target, max_depth);
            &&& source == target ==> rows.len() == 1
            &&& walk_between(g, source, target, other) && other.len() <= max_depth ==> 1
                <= rows.len() <= other.len() + 1
            &&& rows.len() > 0 ==> exists|own: Seq<Neighbor>|
                #![trigger is_walk(g, source, own)]
                walk_between(g, source, target, own) && own.len() <= max_depth && rows_tell(
                    engine.node_store.nodes(),
                    |type_id: EdgeTypeId| registered_label(engine.edge_type_registry@, type_id),
                    rows,
                    source,
                    own,
                )
        }),
{
    let g = current_followed(engine, delta);
    let nodes = engine.node_store.nodes();
    let label = |type_id: EdgeTypeId| registered_label(engine.edge_type_registry@, type_id);
    let current = engine.current_graph(delta, TraversalDirection::Out);
    assert forall|node: u32| #[trigger] (g.adjacency)(node) == (current.adjacency)(node) by {
        assert((g.adjacency)(node) =~= (current.adjacency)(node));
    }
    assert(g.adjacency =~= current.adjacency);
    assert(g.allows =~= current.allows);
    let rows = engine.current_path(delta, source, target, max_depth);
    assert(bounded(g, nodes.len()));
    if source != target {
        law_bfs_finds_iff_walk_exists(g, source, target, max_depth, nodes.len());
        if bfs_trail(g, source, target, max_depth) is Some {
            law_bfs_trail_is_shortest(g, source, target, max_depth, other);
        }
        if !engine.one_way() {
            lemma_typed_is_symmetric(g);
            law_bidirectional_is_shortest(g, source, target, max_depth, nodes.len());
            law_bidirectional_trail_follows_edges(g, source, target, max_depth);
        }
    } else {
        let none = Seq::<Neighbor>::empty();
        assert(is_walk(g, source, none));
        assert(trail_follows(seq![(source, EdgeTypeId(0))], source, none));
    }
    if let Some(trail) = engine.current_trail(delta, source, target, max_depth) {
        let own = choose|own: Seq<Neighbor>|
            #![trigger is_walk(g, source, own)]
            walk_between(g, source, target, own) && trail_follows(trail, source, own);
        if source != target {
            let short = choose|short: Seq<Neighbor>|
                #![trigger is_walk(g, source, short)]
                walk_between(g, source, target, short) && trail_follows(
                    bfs_trail(g, source, target, max_depth)->0,
                    source,
                    short,
                ) && short.len() <= max_depth;
            assert(own.len() == short.len());
        } else {
            assert(own.len() == 0);
        }
        assert forall|i: int| 0 < i < rows.len() implies {
            let edge = own[i - 1];
            &&& (#[trigger] rows[i]).node_table == nodes[edge.target as int].table_oid
            &&& rows[i].node_id == nodes[edge.target as int].key
            &&& rows[i].edge_label == Some(label(edge.type_id))
        } by {
            let edge = own[i - 1];
            assert(trail[(i - 1) + 1] == (edge.target, edge.type_id));
        }
        assert(rows_tell(nodes, label, rows, source, own));
        assert(is_walk(g, source, own));
    }
}

/// The weighted path that an engine answers has the rows of a walk from the
/// source to the target over current edges, with the label and weight of every
/// edge and the cost of every node, if and only if there is such a walk whose
/// cost can be told, and no such walk costs less.
#[verifier::spinoff_prover]
#[verifier::rlimit(60)]
pub proof fn law_engine_weighted_path_tells_a_cheapest_walk(
    engine: Engine,
    delta: TxDelta,
    source: u32,
    target: u32,
    other: Seq<WeightedNeighbor>,
)
    requires
        source < engine.node_store.nodes().len(),
        target < engine.node_store.nodes().len(),
    ensures
        ({
            let g = current_weighted_followed(engine, delta);
            let rows = engine.current_weighted_path(delta, source, target);
            let cost = walk_cost(other, other.len() as int);
            &&& !engine.base_weighted() ==> rows.len() == 0
            &&& engine.base_weighted() && weighted_walk_between(g, source, target, other) && cost
                < 0xffff_ffff_ffff_ffff ==> rows.len() > 0 && rows[0].total_cost <= cost
            &&& rows.len() > 0 ==> exists|own: Seq<WeightedNeighbor>|
                #![trigger is_weighted_walk(g, source, own)]
                weighted_walk_between(g, source, target, own) && weighted_rows_tell(
                    engine.node_store.nodes(),
                    |type_id: EdgeTypeId| registered_label(engine.edge_type_registry@, type_id),
                    rows,
                    source,
                    own,
                )
        }),
{
    let g = current_weighted_followed(engine, delta);
    let nodes = engine.node_store.nodes();
    let label = |type_id: EdgeTypeId| registered_label(engine.edge_type_registry@, type_id);
    let current = engine.current_weighted_graph(delta);
    assert(g.adjacency =~= current.adjacency);
    assert(g.allows =~= current.allows);
    let state = final_frontier(g, nodes.len(), source, target);
    let rows = engine.current_weighted_path(delta, source, target);
    law_recorded_cost_is_least(g, nodes.len(), source, target, other);
    if rows.len() > 0 || (engine.base_weighted() && state.dist[target as int]
        < 0xffff_ffff_ffff_ffff) {
        let own = choose|own: Seq<WeightedNeighbor>|
            #![trigger is_weighted_walk(g, source, own)]
            weighted_walk_between(g, source, target, own) && walk_cost(own, own.len() as int)
                == state.dist[target as int] && lineage_follows(state, source, target, own);
        lemma_lineage_rows(nodes, label, rows, state, source, target, own);
        assert(is_weighted_walk(g, source, own));
    }
}

/// A registered edge type has its registered label, and any other one is told by
/// its number.
pub proof fn law_registered_labels(registry: Seq<String>, type_id: EdgeTypeId)
    ensures
        type_id.0 < registry.len() ==> registered_label(registry, type_id)
            == registry[type_id.0 as int]@,
        type_id.0 >= registry.len() ==> registered_label(registry, type_id) == "type_"@
            + crate::text::decimal(type_id.0 as nat),
{
}

} // verus!
