//! What an engine's queries answer to their callers: what they refuse, that they
//! refuse nothing else, and that what they hand out is what they found.
use vstd::prelude::*;

use crate::bitmap::bitmap_contents;
use crate::components::ComponentResult;
use crate::engine::Engine;
use crate::engine_nodes::resolved;
use crate::engine_traversal::{row_bytes, TraversalRequest};
use crate::errors::{ErrorView, GraphResult};
use crate::filter_value::FilterOp;
use crate::node_store::longest_key;
use crate::overlay::TxDelta;
use crate::path_law::{
    current_followed, current_weighted_followed, law_engine_path_tells_a_shortest_walk,
    law_engine_weighted_path_tells_a_cheapest_walk,
};
use crate::meeting::typed_symmetric;
use crate::neighbors::{Neighbor, WeightedNeighbor};
use crate::relaxation::{is_weighted_walk, walk_cost, weighted_walk_between};
use crate::resource::ResourceGovernor;
use crate::scan_edges::label_views;
use crate::search::{is_walk, walk_between};
use crate::text::decimal;
use crate::types::{PathStep, TraversalResult, WeightedPathStep};

verus! {

/// Whether queries read durable segments: the mode says so, and a projection with
/// segments or chunks was installed.
pub open spec fn reads_durable(engine: Engine) -> bool {
    &&& !(engine.projection_mode is CsrReadonly)
    &&& engine.projection_manifest matches Some(manifest) && manifest.segment_count
        + manifest.base_chunk_count > 0
}

/// Queries follow the rows of the installed snapshot where durable segments are
/// read, and those of the engine's own stores else; backward they follow the
/// reverse rows.
pub proof fn law_queries_follow_the_base(engine: Engine, node: u32)
    ensures
        reads_durable(engine) && engine.projection_snapshot is Some ==> {
            let snapshot = engine.projection_snapshot->Some_0;
            &&& engine.base_row(node) == snapshot.forward.row(node)
            &&& engine.base_inbound_row(node) == snapshot.reverse.row(node)
            &&& engine.base_weighted() == snapshot.forward.is_weighted()
        },
        !reads_durable(engine) ==> {
            &&& engine.base_row(node) == engine.edge_store.row(node)
            &&& engine.base_inbound_row(node) == engine.reverse_edge_store.row(node)
            &&& engine.base_weighted() == engine.edge_store.is_weighted()
        },
{
}

/// Whether a graph can be searched without a limit: it was built, its snapshot is
/// there if it is read, and the pending changes can be counted.
pub open spec fn searchable(engine: Engine, delta: TxDelta) -> bool {
    &&& engine.built
    &&& reads_durable(engine) ==> engine.projection_snapshot is Some
    &&& 320 * (engine.edge_buffer@.len() + delta.inserted@.len() + delta.deleted@.len())
        <= usize::MAX
}

/// Whether a query fails with an error.
pub open spec fn fails_with<T>(result: GraphResult<T>, error: ErrorView) -> bool {
    result matches Err(own) && own@ == error
}

/// The node that a table and key name for a query.
pub open spec fn named_node(engine: Engine, delta: TxDelta, table: u32, key: Seq<char>) -> Option<
    u32,
> {
    resolved(engine, table, key, bitmap_contents(delta.deleted_nodes))
}

/// A search for a path in a graph that was not built is refused as such, and one
/// from or to a node that is not there by its table and key; without a limit
/// nothing else is refused. What is refused so uses nothing of the budget.
pub proof fn law_path_search_refuses_only_unknown_nodes(
    engine: Engine,
    source_table: u32,
    source: &str,
    target_table: u32,
    target: &str,
    max_depth: i32,
    delta: TxDelta,
    governor: &mut ResourceGovernor,
    result: GraphResult<Vec<PathStep>>,
)
    requires
        call_ensures(
            Engine::shortest_path_governed,
            (&engine, source_table, source, target_table, target, max_depth, &delta, governor),
            result,
        ),
    ensures
        ({
            let from = named_node(engine, delta, source_table, source@);
            let to = named_node(engine, delta, target_table, target@);
            &&& !engine.built ==> fails_with(result, ErrorView::NotBuilt)
            &&& engine.built && from is None ==> fails_with(
                result,
                (ErrorView::NodeNotFound { table: decimal(source_table as nat), pk: source@ }),
            )
            &&& engine.built && from is Some && to is None ==> fails_with(
                result,
                (ErrorView::NodeNotFound { table: decimal(target_table as nat), pk: target@ }),
            )
            &&& !engine.built || from is None || to is None ==> final(governor)@ == old(governor)@
            &&& searchable(engine, delta) && from is Some && to is Some && !old(governor)@.enforced
                ==> result is Ok
        }),
{
}

/// The steps that a search hands out are those of a walk from the source to the
/// target over current edges, within the depth limit, if there is one, and none
/// has fewer edges.
#[verifier::spinoff_prover]
#[verifier::rlimit(60)]
pub proof fn law_handed_out_path_is_a_shortest_walk(
    engine: Engine,
    source_table: u32,
    source: &str,
    target_table: u32,
    target: &str,
    max_depth: i32,
    delta: TxDelta,
    governor: &mut ResourceGovernor,
    steps: Vec<PathStep>,
    other: Seq<Neighbor>,
)
    requires
        call_ensures(
            Engine::shortest_path_governed,
            (&engine, source_table, source, target_table, target, max_depth, &delta, governor),
            Ok(steps),
        ),
        0 <= max_depth,
        engine.one_way() || typed_symmetric(current_followed(engine, delta)),
    ensures
        ({
            let g = current_followed(engine, delta);
            let nodes = engine.node_store.nodes();
            let from = named_node(engine, delta, source_table, source@);
            let to = named_node(engine, delta, target_table, target@);
            &&& from is Some && to is Some
            &&& walk_between(g, from->Some_0, to->Some_0, other) && other.len() <= max_depth
                ==> 1 <= steps@.len() <= other.len() + 1
            &&& steps@.len() > 0 ==> exists|own: Seq<Neighbor>|
                #![trigger is_walk(g, from->Some_0, own)]
                {
                    &&& walk_between(g, from->Some_0, to->Some_0, own)
                    &&& own.len() <= max_depth
                    &&& steps@.len() == own.len() + 1
                    &&& steps@[0].edge_label is None
                    &&& steps@[0].node_table.0 == nodes[from->Some_0 as int].table_oid
                    &&& steps@[0].node_id@ == nodes[from->Some_0 as int].key
                    &&& forall|i: int|
                        0 < i < steps@.len() ==> {
                            let edge = own[i - 1];
                            &&& (#[trigger] steps@[i]).node_table.0
                                == nodes[edge.target as int].table_oid
                            &&& steps@[i].node_id@ == nodes[edge.target as int].key
                            &&& steps@[i].edge_label is Some
                            &&& edge.type_id.0 < engine.edge_type_registry@.len()
                                ==> steps@[i].edge_label->Some_0@
                                == engine.edge_type_registry@[edge.type_id.0 as int]@
                        }
                }
        }),
{
    let g = current_followed(engine, delta);
    let nodes = engine.node_store.nodes();
    let from = named_node(engine, delta, source_table, source@)->Some_0;
    let to = named_node(engine, delta, target_table, target@)->Some_0;
    crate::engine_nodes::law_resolved_has_identity(
        engine,
        source_table,
        source@,
        bitmap_contents(delta.deleted_nodes),
    );
    law_engine_path_tells_a_shortest_walk(engine, delta, from, to, max_depth as int, other);
    let rows = engine.current_path(delta, from, to, max_depth as int);
    assert(crate::path_finder::step_views(steps@) == rows);
    assert(rows.len() == steps@.len());
    if rows.len() > 0 {
        let own = choose|own: Seq<Neighbor>|
            #![trigger is_walk(g, from, own)]
            walk_between(g, from, to, own) && own.len() <= max_depth && crate::path_law::rows_tell(
                nodes,
                |type_id: crate::types::EdgeTypeId|
                    crate::engine_paths::registered_label(engine.edge_type_registry@, type_id),
                rows,
                from,
                own,
            );
        assert(rows[0] == steps@[0]@);
        assert forall|i: int| 0 < i < steps@.len() implies {
            let edge = own[i - 1];
            &&& (#[trigger] steps@[i]).node_table.0 == nodes[edge.target as int].table_oid
            &&& steps@[i].node_id@ == nodes[edge.target as int].key
            &&& steps@[i].edge_label is Some
            &&& edge.type_id.0 < engine.edge_type_registry@.len() ==> steps@[i].edge_label->Some_0@
                == engine.edge_type_registry@[edge.type_id.0 as int]@
        } by {
            assert(rows[i] == steps@[i]@);
        }
        assert(is_walk(g, from, own));
    }
}

/// A weighted search in a graph that was not built is refused as such, one with
/// edges that carry no weights yet, buffered ones or, where no durable segments are
/// read, those of the running transaction, because of these, and one from or to a
/// node that is not there by its table and key; without a limit nothing else is
/// refused.
pub proof fn law_weighted_search_refuses_only_pending_edges(
    engine: Engine,
    source_table: u32,
    source: &str,
    target_table: u32,
    target: &str,
    delta: TxDelta,
    governor: &mut ResourceGovernor,
    result: GraphResult<Vec<WeightedPathStep>>,
)
    requires
        call_ensures(
            Engine::weighted_shortest_path_governed,
            (&engine, source_table, source, target_table, target, &delta, governor),
            result,
        ),
    ensures
        ({
            let from = named_node(engine, delta, source_table, source@);
            let to = named_node(engine, delta, target_table, target@);
            let pending = engine.edge_buffer@.len() > 0 || !reads_durable(engine) && (
            delta.inserted@.len() > 0 || delta.deleted@.len() > 0);
            let open_search = searchable(engine, delta) && !old(governor)@.enforced;
            &&& !engine.built ==> fails_with(result, ErrorView::NotBuilt)
            &&& pending ==> result is Err
            &&& open_search && pending ==> (result matches Err(error) && error@ is UnsupportedOperation)
            &&& open_search && !pending && from is None ==> fails_with(
                result,
                (ErrorView::NodeNotFound { table: decimal(source_table as nat), pk: source@ }),
            )
            &&& open_search && !pending && from is Some && to is None ==> fails_with(
                result,
                (ErrorView::NodeNotFound {
                table: decimal(target_table as nat),
                pk: target@,
            }),
            )
            &&& open_search && !pending && from is Some && to is Some ==> result is Ok
        }),
{
}

/// The steps that a weighted search hands out are those of a walk from the source
/// to the target, with each edge's weight and the cost so far, if there is one,
/// and none costs less.
#[verifier::spinoff_prover]
#[verifier::rlimit(60)]
pub proof fn law_handed_out_weighted_path_is_a_cheapest_walk(
    engine: Engine,
    source_table: u32,
    source: &str,
    target_table: u32,
    target: &str,
    delta: TxDelta,
    governor: &mut ResourceGovernor,
    steps: Vec<WeightedPathStep>,
    other: Seq<WeightedNeighbor>,
)
    requires
        call_ensures(
            Engine::weighted_shortest_path_governed,
            (&engine, source_table, source, target_table, target, &delta, governor),
            Ok(steps),
        ),
    ensures
        ({
            let g = current_weighted_followed(engine, delta);
            let nodes = engine.node_store.nodes();
            let from = named_node(engine, delta, source_table, source@);
            let to = named_node(engine, delta, target_table, target@);
            let cost = walk_cost(other, other.len() as int);
            &&& from is Some && to is Some
            &&& engine.base_weighted() && weighted_walk_between(
                g,
                from->Some_0,
                to->Some_0,
                other,
            ) && cost < 0xffff_ffff_ffff_ffff ==> steps@.len() > 0 && steps@[0].total_cost <= cost
            &&& steps@.len() > 0 ==> exists|own: Seq<WeightedNeighbor>|
                #![trigger is_weighted_walk(g, from->Some_0, own)]
                {
                    &&& weighted_walk_between(g, from->Some_0, to->Some_0, own)
                    &&& steps@.len() == own.len() + 1
                    &&& steps@[0].node_table.0 == nodes[from->Some_0 as int].table_oid
                    &&& steps@[0].node_id@ == nodes[from->Some_0 as int].key
                    &&& steps@[0].step_cost == 0
                    &&& steps@[0].edge_label is None && steps@[0].edge_weight is None
                    &&& forall|i: int|
                        0 < i < steps@.len() ==> {
                            let edge = own[i - 1];
                            &&& (#[trigger] steps@[i]).node_table.0
                                == nodes[edge.target as int].table_oid
                            &&& steps@[i].node_id@ == nodes[edge.target as int].key
                            &&& steps@[i].edge_weight == Some(edge.weight)
                            &&& steps@[i].step_cost == steps@[i - 1].step_cost + edge.weight
                            &&& steps@[i].edge_label is Some
                            &&& edge.type_id.0 < engine.edge_type_registry@.len()
                                ==> steps@[i].edge_label->Some_0@
                                == engine.edge_type_registry@[edge.type_id.0 as int]@
                        }
                    &&& forall|i: int|
                        0 <= i < steps@.len() ==> (#[trigger] steps@[i]).total_cost
                            == steps@[own.len() as int].step_cost
                }
        }),
{
    let g = current_weighted_followed(engine, delta);
    let nodes = engine.node_store.nodes();
    let deleted = bitmap_contents(delta.deleted_nodes);
    let from = named_node(engine, delta, source_table, source@)->Some_0;
    let to = named_node(engine, delta, target_table, target@)->Some_0;
    crate::engine_nodes::law_resolved_has_identity(engine, source_table, source@, deleted);
    crate::engine_nodes::law_resolved_has_identity(engine, target_table, target@, deleted);
    law_engine_weighted_path_tells_a_cheapest_walk(engine, delta, from, to, other);
    let rows = engine.current_weighted_path(delta, from, to);
    assert(crate::weighted_path::weighted_step_views(steps@) == rows);
    assert(rows.len() == steps@.len());
    assert forall|i: int| 0 <= i < rows.len() implies #[trigger] rows[i] == steps@[i]@ by {}
    if rows.len() > 0 {
        let own = choose|own: Seq<WeightedNeighbor>|
            #![trigger is_weighted_walk(g, from, own)]
            weighted_walk_between(g, from, to, own) && crate::path_law::weighted_rows_tell(
                nodes,
                |type_id: crate::types::EdgeTypeId|
                    crate::engine_paths::registered_label(engine.edge_type_registry@, type_id),
                rows,
                from,
                own,
            );
        assert(rows[0] == steps@[0]@);
        assert forall|i: int| 0 < i < steps@.len() implies {
            let edge = own[i - 1];
            &&& (#[trigger] steps@[i]).node_table.0 == nodes[edge.target as int].table_oid
            &&& steps@[i].node_id@ == nodes[edge.target as int].key
            &&& steps@[i].edge_weight == Some(edge.weight)
            &&& steps@[i].step_cost == steps@[i - 1].step_cost + edge.weight
            &&& steps@[i].edge_label is Some
            &&& edge.type_id.0 < engine.edge_type_registry@.len() ==> steps@[i].edge_label->Some_0@
                == engine.edge_type_registry@[edge.type_id.0 as int]@
        } by {
            assert(rows[i] == steps@[i]@);
            assert(rows[i - 1] == steps@[i - 1]@);
        }
        assert forall|i: int| 0 <= i < steps@.len() implies (#[trigger] steps@[i]).total_cost
            == steps@[own.len() as int].step_cost by {
            assert(rows[i] == steps@[i]@);
            assert(rows[own.len() as int] == steps@[own.len() as int]@);
        }
        assert(is_weighted_walk(g, from, own));
    }
}

/// The search for components is refused in a graph that was not built, and
/// without a limit in no other.
pub proof fn law_component_search_refuses_only_unbuilt_graphs(
    engine: Engine,
    delta: TxDelta,
    governor: &mut ResourceGovernor,
    result: GraphResult<ComponentResult>,
)
    requires
        call_ensures(Engine::connected_components_governed, (&engine, &delta, governor), result),
    ensures
        !engine.built ==> fails_with(result, ErrorView::NotBuilt),
        searchable(engine, delta) && !old(governor)@.enforced ==> result is Ok,
{
}

/// A traversal of a graph that was not built is refused as such, one from a node
/// that is not there by its table and key, and one that asks for a label that is
/// not registered because of a label; without a limit, and as long as the rows
/// can be counted, nothing else is refused.
pub proof fn law_traversal_refuses_only_unknown_names(
    engine: Engine,
    request: TraversalRequest,
    seed_id: &str,
    edge_types: Option<Vec<String>>,
    filter_ops: Vec<FilterOp>,
    tenant: Option<&str>,
    delta: TxDelta,
    governor: &mut ResourceGovernor,
    result: GraphResult<Vec<TraversalResult>>,
)
    requires
        request == (TraversalRequest {
            seed_id: seed_id@,
            edge_types: match edge_types {
                Some(labels) => Some(label_views(labels@)),
                None => None,
            },
            filter_ops: filter_ops@,
            tenant: match tenant {
                Some(name) => Some(name@),
                None => None,
            },
            ..request
        }),
        call_ensures(
            Engine::traverse_with_filter_ops_governed,
            (
                &engine,
                request.seed_table_oid,
                seed_id,
                request.limits.max_depth,
                request.limits.max_nodes,
                request.limits.max_frontier,
                edge_types,
                filter_ops,
                tenant,
                request.strategy,
                request.direction,
                &delta,
                governor,
            ),
            result,
        ),
    ensures
        ({
            let registry = label_views(engine.edge_type_registry@);
            let seed = named_node(engine, delta, request.seed_table_oid, request.seed_id);
            let known = request.edge_types matches Some(labels) ==> forall|i: int|
                0 <= i < labels.len() ==> registry.contains(#[trigger] labels[i]);
            let depth = if request.limits.max_depth < 0 {
                0
            } else {
                request.limits.max_depth as int
            };
            let each = row_bytes(
                request.limits.max_depth as int,
                longest_key(engine.node_store.nodes()),
                crate::engine_traversal::longest_text(registry),
            );
            let listed = engine.traversal_order(request, delta, seed->Some_0).len();
            &&& !engine.built ==> fails_with(result, ErrorView::NotBuilt)
            &&& engine.built && seed is None ==> fails_with(
                result,
                (ErrorView::NodeNotFound {
                table: decimal(request.seed_table_oid as nat),
                pk: request.seed_id,
            }),
            )
            &&& engine.built && seed is Some && !known ==> (result matches Err(error) && error@ is InvalidFilter)
            &&& searchable(engine, delta) && !old(governor)@.enforced && seed is Some && known
                && each <= u64::MAX && listed * each <= u64::MAX && listed * (depth + 1)
                <= u64::MAX ==> result is Ok
        }),
{
    let registry = label_views(engine.edge_type_registry@);
    if let Some(labels) = request.edge_types {
        lemma_first_unknown(registry, labels);
    }
}

proof fn lemma_first_unknown(registry: Seq<Seq<char>>, labels: Seq<Seq<char>>)
    ensures
        crate::engine_traversal::first_unknown(registry, labels) is None <==> forall|i: int|
            0 <= i < labels.len() ==> registry.contains(#[trigger] labels[i]),
    decreases labels.len(),
{
    if labels.len() > 0 {
        let rest = labels.drop_last();
        lemma_first_unknown(registry, rest);
        if forall|i: int| 0 <= i < labels.len() ==> registry.contains(#[trigger] labels[i]) {
            assert forall|i: int| 0 <= i < rest.len() implies registry.contains(
                #[trigger] rest[i],
            ) by {
                assert(registry.contains(labels[i]));
            }
            assert(registry.contains(labels[labels.len() - 1]));
        }
        if crate::engine_traversal::first_unknown(registry, labels) is None {
            assert forall|i: int| 0 <= i < labels.len() implies registry.contains(
                #[trigger] labels[i],
            ) by {
                if i < rest.len() {
                    assert(registry.contains(rest[i]));
                }
            }
        }
    }
}

} // verus!
