//! Weighted shortest paths: Dijkstra's search over a priority queue of costs.
use roaring::RoaringBitmap;
use std::collections::HashMap;
use vstd::prelude::*;

use crate::cost_heap::CostHeap;
use crate::edge_labels::{resolve_edge_type_label, EdgeTypeLabels};
use crate::edge_store::EdgeStore;
use crate::errors::{GraphError, GraphResult};
use crate::neighbors::{Neighbor, WeightedNeighbor, WeightedNeighborSource};
use crate::node_store::{NodeStore, NodeView};
use crate::path_finder::{consume_path_work, search_error};
use crate::relaxation::{
    complete_inv, final_frontier, final_looks, final_work, is_over, lemma_closed_fit,
    lemma_frontier_shape, lemma_least_unique, lemma_reached, lemma_relax_next, lemma_run_is_final,
    lemma_run_looks_next, lemma_run_looks_none, lemma_run_looks_within, lemma_run_split,
    lemma_run_work_next, lemma_run_work_within, lemma_settle, lemma_start, lemma_take_fresh,
    lineage, rank, relax, relax_edge, run, run_looks, run_work, settle, start_frontier, take_entry,
    weighted_bounded, Frontier, WeightedGraph, WeightedParentStep, UNREACHED,
};
use crate::resource::{charged, ResourceGovernor};
use crate::search::{lemma_such_next, some_such};
use crate::types::{EdgeTypeId, TableOid, WeightedPathStep, WeightedPathStepView};
use crate::visibility::{
    path_candidate_visible, undecided_relationship, QueryExecutionContext, VisibilityScope,
};

verus! {

broadcast use {vstd::std_specs::hash::group_hash_axioms, vstd::seq::group_seq_axioms};

/// The weighted graph that a query searches.
pub open spec fn weighted_graph<W: WeightedNeighborSource>(
    nodes: &NodeStore,
    neighbors: &W,
    context: QueryExecutionContext<'_>,
) -> WeightedGraph {
    WeightedGraph {
        adjacency: |node: u32| neighbors.weighted_adjacency(node),
        allows: |edge: WeightedNeighbor|
            context.shows_edge(edge.unweighted()) && nodes.live(edge.target) && !context.deletes(
                edge.target,
            ),
    }
}

/// The weighted edges whose visibility a query cannot decide.
pub open spec fn undecided_weighted_edges(context: QueryExecutionContext<'_>) -> spec_fn(
    WeightedNeighbor,
) -> bool {
    |edge: WeightedNeighbor| context.undecided(edge.unweighted())
}

/// Whether every edge that a query shows leads to a slot of the store.
pub open spec fn shown_edges_in_store<W: WeightedNeighborSource>(
    nodes: &NodeStore,
    neighbors: &W,
    context: QueryExecutionContext<'_>,
) -> bool {
    forall|node: u32, i: int|
        0 <= i < neighbors.weighted_adjacency(node).len() && context.shows_edge(
            (#[trigger] neighbors.weighted_adjacency(node)[i]).unweighted(),
        ) ==> neighbors.weighted_adjacency(node)[i].target < nodes.nodes().len()
}

/// What a weighted path lists for each node between two ends.
pub open spec fn weighted_path_view(
    nodes: Seq<NodeView>,
    state: Frontier,
    source: u32,
    target: u32,
    labels: EdgeTypeLabels<'_>,
) -> Seq<WeightedPathStepView> {
    let line = lineage(state, source, target);
    Seq::new(line.len(), |i: int| weighted_step_view(nodes, state, line, i, target, labels))
}

/// What a weighted path lists for one of its nodes.
pub open spec fn weighted_step_view(
    nodes: Seq<NodeView>,
    state: Frontier,
    line: Seq<u32>,
    i: int,
    target: u32,
    labels: EdgeTypeLabels<'_>,
) -> WeightedPathStepView {
    WeightedPathStepView {
        step: i as i32,
        node_table: nodes[line[i] as int].table_oid,
        node_id: nodes[line[i] as int].key,
        edge_label: if i == 0 {
            None
        } else {
            Some(labels.label(state.parent[line[i]].edge_type))
        },
        edge_weight: if i == 0 {
            None
        } else {
            Some(state.parent[line[i]].edge_weight)
        },
        step_cost: state.dist[line[i] as int] as int,
        total_cost: state.dist[target as int] as int,
    }
}

/// The weighted path that a query is answered with.
pub open spec fn weighted_path<W: WeightedNeighborSource>(
    node_store: &NodeStore,
    neighbors: &W,
    source: u32,
    target: u32,
    labels: EdgeTypeLabels<'_>,
    context: QueryExecutionContext<'_>,
) -> Option<Seq<WeightedPathStepView>> {
    let count = node_store.nodes().len();
    let state = final_frontier(
        weighted_graph(node_store, neighbors, context),
        count,
        source,
        target,
    );
    if source >= count || target >= count || !context.visibility.shows_node(source)
        || !context.visibility.shows_node(target) || !neighbors.weighted()
        || state.dist[target as int] == UNREACHED {
        None
    } else {
        Some(weighted_path_view(node_store.nodes(), state, source, target, labels))
    }
}

/// What rows say.
pub open spec fn weighted_step_views(steps: Seq<WeightedPathStep>) -> Seq<WeightedPathStepView> {
    Seq::new(steps.len(), |i: int| steps[i]@)
}

/// What an optional list of rows says.
pub open spec fn weighted_path_views(path: Option<Vec<WeightedPathStep>>) -> Option<
    Seq<WeightedPathStepView>,
> {
    match path {
        Some(steps) => Some(weighted_step_views(steps@)),
        None => None,
    }
}

/// The nodes from the source to a node, collected along recorded parents.
pub(crate) fn lineage_nodes(
    parent: &HashMap<u32, WeightedParentStep>,
    source: u32,
    node: u32,
    Ghost(g): Ghost<WeightedGraph>,
    Ghost(state): Ghost<Frontier>,
) -> (nodes: Vec<u32>)
    requires
        complete_inv(g, state, state.dist.len(), source),
        parent@ == state.parent,
        node < state.dist.len(),
        state.dist[node as int] < UNREACHED,
    ensures
        nodes@ == lineage(state, source, node),
{
    let mut reversed: Vec<u32> = Vec::new();
    let mut current: u32 = node;
    proof {
        assert(lineage(state, source, node) =~= lineage(state, source, current)
            + reversed@.reverse());
    }
    while current != source
        invariant
            complete_inv(g, state, state.dist.len(), source),
            parent@ == state.parent,
            current < state.dist.len(),
            state.dist[current as int] < UNREACHED,
            lineage(state, source, node) == lineage(state, source, current) + reversed@.reverse(),
        decreases rank(state, current),
    {
        proof {
            lemma_reached(g, state, state.dist.len(), source, current);
        }
        let ghost collected = reversed@;
        reversed.push(current);
        let next: u32 = match parent.get(&current) {
            Some(step) => step.parent,
            None => source,
        };
        proof {
            assert(reversed@.reverse() =~= seq![current] + collected.reverse());
            assert(lineage(state, source, current) == lineage(state, source, next).push(current));
            assert(lineage(state, source, node) =~= lineage(state, source, next)
                + reversed@.reverse());
        }
        current = next;
    }
    let ghost collected = reversed@;
    reversed.push(source);
    proof {
        assert(lineage(state, source, current) =~= seq![source]);
        assert(reversed@.reverse() =~= seq![source] + collected.reverse());
        assert(lineage(state, source, node) == reversed@.reverse());
    }
    let mut nodes: Vec<u32> = Vec::new();
    let mut left: usize = reversed.len();
    while left > 0
        invariant
            left <= reversed@.len(),
            nodes@ == reversed@.reverse().take(reversed@.len() - left),
        decreases left,
    {
        left = left - 1;
        nodes.push(reversed[left]);
        proof {
            assert(nodes@ =~= reversed@.reverse().take(reversed@.len() - left));
        }
    }
    proof {
        assert(reversed@.reverse().take(reversed@.len() as int) =~= reversed@.reverse());
    }
    nodes
}

/// The rows of a weighted path.
pub(crate) fn weighted_path_steps(
    node_store: &NodeStore,
    nodes: &Vec<u32>,
    target: u32,
    dist: &Vec<u64>,
    parent: &HashMap<u32, WeightedParentStep>,
    labels: EdgeTypeLabels<'_>,
    Ghost(state): Ghost<Frontier>,
) -> (steps: Vec<WeightedPathStep>)
    requires
        node_store.wf(),
        dist@ == state.dist,
        dist@.len() <= node_store.nodes().len(),
        parent@ == state.parent,
        target < dist@.len(),
        forall|i: int|
            0 <= i < nodes@.len() ==> (#[trigger] nodes@[i]) < dist@.len()
                && state.parent.dom().contains(nodes@[i]),
    ensures
        weighted_step_views(steps@) == Seq::new(
            nodes@.len(),
            |i: int|
                weighted_step_view(node_store.nodes(), state, nodes@, i, target, labels),
        ),
{
    let total_cost: u64 = dist[target as usize];
    let mut steps: Vec<WeightedPathStep> = Vec::new();
    let mut index: usize = 0;
    while index < nodes.len()
        invariant
            index <= nodes@.len(),
            steps@.len() == index,
            node_store.wf(),
            dist@ == state.dist,
            dist@.len() <= node_store.nodes().len(),
            parent@ == state.parent,
            target < dist@.len(),
            total_cost == dist@[target as int],
            forall|i: int|
                0 <= i < nodes@.len() ==> (#[trigger] nodes@[i]) < dist@.len()
                    && state.parent.dom().contains(nodes@[i]),
            forall|i: int|
                0 <= i < index ==> (#[trigger] steps@[i])@ == weighted_step_view(
                    node_store.nodes(),
                    state,
                    nodes@,
                    i,
                    target,
                    labels,
                ),
        decreases nodes@.len() - index,
    {
        let node: u32 = nodes[index];
        let step: WeightedParentStep = match parent.get(&node) {
            Some(step) => *step,
            None => WeightedParentStep {
                parent: node,
                edge_type: EdgeTypeId::untyped(),
                edge_weight: 0,
            },
        };
        let table: u32 = match node_store.table_oid(node) {
            Some(oid) => oid,
            None => 0,
        };
        let key: String = match node_store.primary_key(node) {
            Some(text) => text.to_owned(),
            None => String::new(),
        };
        let label: Option<String> = if index == 0 {
            None
        } else {
            Some(resolve_edge_type_label(labels, step.edge_type))
        };
        steps.push(
            WeightedPathStep {
                step: index as i32,
                node_table: TableOid(table),
                node_id: key,
                edge_label: label,
                edge_weight: if index == 0 {
                    None
                } else {
                    Some(step.edge_weight)
                },
                step_cost: dist[node as usize],
                total_cost,
            },
        );
        index = index + 1;
    }
    proof {
        assert(weighted_step_views(steps@) =~= Seq::new(
            nodes@.len(),
            |i: int| weighted_step_view(node_store.nodes(), state, nodes@, i, target, labels),
        ));
    }
    steps
}

/// Whether a weighted edge may be followed.
fn weighted_edge_shown(
    context: QueryExecutionContext<'_>,
    edge: WeightedNeighbor,
    error: &mut Option<GraphError>,
) -> (shown: bool)
    ensures
        shown == context.shows_edge(edge.unweighted()),
        !context.undecided(edge.unweighted()) ==> *final(error) == *old(error),
        *old(error) is Some ==> *final(error) == *old(error),
        context.undecided(edge.unweighted()) && *old(error) is None ==> (*final(error) matches Some(
            value,
        ) && value@ == undecided_relationship()),
{
    path_candidate_visible(context, edge.to_neighbor(), error)
}

pub proof fn lemma_weighted_bounded<W: WeightedNeighborSource>(
    node_store: &NodeStore,
    neighbors: &W,
    context: QueryExecutionContext<'_>,
)
    ensures
        weighted_bounded(
            weighted_graph(node_store, neighbors, context),
            node_store.nodes().len(),
        ),
{
}

/// The nodes of a lineage have recorded parents.
pub proof fn lemma_lineage_recorded(
    g: WeightedGraph,
    state: Frontier,
    node_count: nat,
    source: u32,
    node: u32,
)
    requires
        complete_inv(g, state, node_count, source),
        node < node_count,
        state.dist[node as int] < UNREACHED,
    ensures
        forall|i: int|
            0 <= i < lineage(state, source, node).len() ==> (#[trigger] lineage(
                state,
                source,
                node,
            )[i]) < node_count && state.parent.dom().contains(lineage(state, source, node)[i]),
    decreases rank(state, node),
{
    lemma_frontier_shape(g, state, node_count, source);
    let line = lineage(state, source, node);
    if node == source {
        assert(line =~= seq![source]);
    } else {
        lemma_reached(g, state, node_count, source, node);
        let p = state.parent[node].parent;
        lemma_lineage_recorded(g, state, node_count, source, p);
        assert(line == lineage(state, source, p).push(node));
        assert forall|i: int| 0 <= i < line.len() implies (#[trigger] line[i]) < node_count
            && state.parent.dom().contains(line[i]) by {
            if i < line.len() - 1 {
                assert(line[i] == lineage(state, source, p)[i]);
            }
        }
    }
}

/// How many edges are looked at for a weighted path: each is a unit of work.
pub open spec fn weighted_work<W: WeightedNeighborSource>(
    node_store: &NodeStore,
    neighbors: &W,
    source: u32,
    target: u32,
    context: QueryExecutionContext<'_>,
) -> int {
    let count = node_store.nodes().len();
    if source >= count || target >= count || !context.visibility.shows_node(source)
        || !context.visibility.shows_node(target) || !neighbors.weighted() {
        0
    } else {
        final_work(weighted_graph(node_store, neighbors, context), count, source, target) as int
    }
}

/// Whether an edge is looked at for a weighted path whose visibility cannot be
/// decided.
pub open spec fn looks_undecided_weighted<W: WeightedNeighborSource>(
    node_store: &NodeStore,
    neighbors: &W,
    source: u32,
    target: u32,
    context: QueryExecutionContext<'_>,
) -> bool {
    let count = node_store.nodes().len();
    source < count && target < count && context.visibility.shows_node(source)
        && context.visibility.shows_node(target) && neighbors.weighted() && final_looks(
        weighted_graph(node_store, neighbors, context),
        undecided_weighted_edges(context),
        count,
        source,
        target,
    )
}

/// Where every edge can be decided, none that cannot is looked at.
pub proof fn lemma_all_weighted_decided<W: WeightedNeighborSource>(
    node_store: &NodeStore,
    neighbors: &W,
    source: u32,
    target: u32,
    context: QueryExecutionContext<'_>,
)
    requires
        forall|edge: Neighbor| !#[trigger] context.undecided(edge),
    ensures
        !looks_undecided_weighted(node_store, neighbors, source, target, context),
{
    let g = weighted_graph(node_store, neighbors, context);
    let start = start_frontier(node_store.nodes().len(), source);
    lemma_run_looks_none(
        g,
        undecided_weighted_edges(context),
        start,
        target,
        choose|steps: nat| is_over(#[trigger] run(g, start, target, steps), target),
    );
}

/// Dijkstra's search from the source.
#[verifier::spinoff_prover]
#[verifier::rlimit(80)]
fn weighted_shortest_path_with_neighbors_inner<W: WeightedNeighborSource>(
    node_store: &NodeStore,
    neighbors: &W,
    source: u32,
    target: u32,
    labels: EdgeTypeLabels<'_>,
    context: QueryExecutionContext<'_>,
    governor: &mut ResourceGovernor,
    error: &mut Option<GraphError>,
) -> (path: Option<Vec<WeightedPathStep>>)
    requires
        node_store.addressable(),
        shown_edges_in_store(node_store, neighbors, context),
        *old(error) is None,
    ensures
        ({
            let work = weighted_work(node_store, neighbors, source, target, context);
            let undecided = looks_undecided_weighted(
                node_store,
                neighbors,
                source,
                target,
                context,
            );
            &&& charged(old(governor)@, final(governor)@, work)
            &&& *final(error) is None ==> {
                &&& !undecided
                &&& old(governor)@.affords(work)
                &&& final(governor)@ == old(governor)@.after_work(work)
            }
            &&& *final(error) matches Some(value) ==> search_error(
                value@,
                old(governor)@,
                work,
                undecided,
            )
        }),
        *final(error) is None || !old(governor)@.enforced ==> weighted_path_views(path)
            == weighted_path(node_store, neighbors, source, target, labels, context),
{
    let count: u32 = node_store.node_count();
    if source >= count || target >= count || !context.visibility.allows_node(source)
        || !context.visibility.allows_node(target) || !neighbors.has_weighted_edges() {
        return None;
    }
    let ghost g = weighted_graph(node_store, neighbors, context);
    let ghost total = node_store.nodes().len();
    let ghost start = start_frontier(total, source);
    let mut dist: Vec<u64> = Vec::new();
    dist.resize(count as usize, UNREACHED);
    dist[source as usize] = 0;
    let mut parent: HashMap<u32, WeightedParentStep> = HashMap::new();
    parent.insert(
        source,
        WeightedParentStep { parent: source, edge_type: EdgeTypeId::untyped(), edge_weight: 0 },
    );
    let mut heap = CostHeap::new();
    heap.push((0, source));
    let ghost mut state = start;
    let ghost mut steps: nat = 0;
    let ghost work = final_work(g, total, source, target) as int;
    let ghost such = undecided_weighted_edges(context);
    let ghost looked = final_looks(g, such, total, source, target);
    let ghost mut used: int = 0;
    proof {
        broadcast use vstd::multiset::group_multiset_axioms;

        lemma_weighted_bounded(node_store, neighbors, context);
        lemma_start(g, total, source);
        assert(dist@ =~= start.dist);
        assert(parent@ =~= start.parent);
        assert(heap@ =~= start.queue);
    }
    let mut over: bool = false;
    while !over
        invariant
            g == weighted_graph(node_store, neighbors, context),
            total == node_store.nodes().len(),
            total == count,
            start == start_frontier(total, source),
            node_store.addressable(),
            shown_edges_in_store(node_store, neighbors, context),
            weighted_bounded(g, total),
            source < total,
            target < total,
            state == run(g, start, target, steps),
            complete_inv(g, state, total, source),
            dist@ == state.dist,
            parent@ == state.parent,
            heap.wf(),
            !over ==> heap@ == state.queue,
            over ==> is_over(state, target),
            work == final_work(g, total, source, target),
            work == weighted_work(node_store, neighbors, source, target, context),
            used == run_work(g, start, target, steps),
            governor@ == old(governor)@.after_work(used),
            old(governor)@.affords(used),
            such == undecided_weighted_edges(context),
            looked == final_looks(g, such, total, source, target),
            looked == looks_undecided_weighted(node_store, neighbors, source, target, context),
            *error is Some <==> run_looks(g, such, start, target, steps),
            *error matches Some(value) ==> value@ == undecided_relationship(),
        decreases
                total - state.closed.len(),
                state.queue.len(),
                if over {
                    0int
                } else {
                    1int
                },
    {
        let popped = heap.pop();
        let (cost, current): (u64, u32) = match popped {
            Some(entry) => entry,
            None => {
                over = true;
                continue ;
            },
        };
        proof {
            lemma_least_unique(state.queue, (cost, current));
            lemma_nonempty(state.queue, (cost, current));
        }
        if current == target {
            over = true;
            continue ;
        }
        proof {
            assert(!is_over(state, target));
            lemma_run_work_next(g, start, target, steps);
            lemma_run_work_within(g, total, source, target, steps + 1);
            lemma_run_looks_next(g, such, start, target, steps);
            lemma_run_looks_within(g, such, total, source, target, steps + 1);
            lemma_run_split(g, start, target, steps, 1);
            assert(run(g, settle(g, state), target, 0) == settle(g, state));
            assert(run(g, state, target, 1) == settle(g, state));
            lemma_settle(g, state, total, source);
            lemma_closed_fit(g, state, total, source);
            lemma_closed_fit(g, settle(g, state), total, source);
            lemma_frontier_shape(g, state, total, source);
            assert(state.queue.contains((cost, current)));
        }
        let ghost taken = take_entry(state, (cost, current));
        if cost > dist[current as usize] {
            proof {
                state = settle(g, state);
                steps = steps + 1;
            }
            continue ;
        }
        proof {
            lemma_take_fresh(g, state, total, source);
            assert(taken.closed.last() == current);
        }
        let row: Vec<WeightedNeighbor> = neighbors.weighted_neighbors(current);
        let ghost mut now = taken;
        let mut at: usize = 0;
        proof {
            assert((g.adjacency)(current) == row@);
            assert(row@.take(0) =~= Seq::empty());
        }
        while at < row.len()
            invariant
                at <= row@.len(),
                g == weighted_graph(node_store, neighbors, context),
                total == node_store.nodes().len(),
                total == count,
                node_store.addressable(),
                shown_edges_in_store(node_store, neighbors, context),
                weighted_bounded(g, total),
                row@ == (g.adjacency)(current),
                row@ == neighbors.weighted_adjacency(current),
                now == relax(g, taken, current, cost, row@.take(at as int)),
                now.dist.len() == total,
                dist@ == now.dist,
                parent@ == now.parent,
                heap.wf(),
                heap@ == now.queue,
                0 <= used,
                work == weighted_work(node_store, neighbors, source, target, context),
                used + row@.len() - at <= work,
                used + row@.len() - at == run_work(g, start, target, steps + 1),
                governor@ == old(governor)@.after_work(used),
                old(governor)@.affords(used),
                such == undecided_weighted_edges(context),
                looked == looks_undecided_weighted(node_store, neighbors, source, target, context),
                run_looks(g, such, start, target, steps) || some_such(such, row@) ==> looked,
                *error is Some <==> run_looks(g, such, start, target, steps) || some_such(
                    such,
                    row@.take(at as int),
                ),
                *error matches Some(value) ==> value@ == undecided_relationship(),
            decreases row@.len() - at,
        {
            let edge: WeightedNeighbor = row[at];
            proof {
                lemma_relax_next(g, taken, current, cost, row@, at as int);
                lemma_such_next(such, row@, at as int);
                assert(neighbors.weighted_adjacency(current)[at as int] == edge);
            }
            if !consume_path_work(governor, error) {
                return None;
            }
            proof {
                used = used + 1;
            }
            let shown: bool = weighted_edge_shown(context, edge, error);
            if !shown {
                proof {
                    now = relax_edge(g, now, current, cost, edge);
                }
                at = at + 1;
                continue ;
            }
            if let Some(new_cost) = cost.checked_add(edge.weight as u64) {
                if new_cost < dist[edge.target as usize] && node_store.is_active(edge.target)
                    && !context.deleted_nodes.contains(edge.target) {
                    dist[edge.target as usize] = new_cost;
                    parent.insert(
                        edge.target,
                        WeightedParentStep {
                            parent: current,
                            edge_type: edge.type_id,
                            edge_weight: edge.weight,
                        },
                    );
                    heap.push((new_cost, edge.target));
                }
            }
            proof {
                now = relax_edge(g, now, current, cost, edge);
                assert(dist@ =~= now.dist);
            }
            at = at + 1;
        }
        proof {
            assert(row@.take(row@.len() as int) =~= row@);
            state = settle(g, state);
            steps = steps + 1;
        }
    }
    proof {
        lemma_run_is_final(g, total, source, target, steps);
        lemma_run_work_within(g, total, source, target, steps);
        lemma_run_looks_within(g, such, total, source, target, steps);
        lemma_frontier_shape(g, state, total, source);
    }
    if dist[target as usize] == UNREACHED {
        return None;
    }
    let nodes: Vec<u32> = lineage_nodes(&parent, source, target, Ghost(g), Ghost(state));
    proof {
        lemma_lineage_recorded(g, state, total, source, target);
    }
    Some(weighted_path_steps(node_store, &nodes, target, &dist, &parent, labels, Ghost(state)))
}

proof fn lemma_nonempty(queue: vstd::multiset::Multiset<(u64, u32)>, entry: (u64, u32))
    requires
        queue.contains(entry),
    ensures
        queue.len() > 0,
{
    broadcast use vstd::multiset::group_multiset_axioms;

    assert(queue.remove(entry).len() == queue.len() - 1);
}

/// Finds the cheapest weighted path over any neighbor source.
pub fn weighted_shortest_path_with_neighbors<W: WeightedNeighborSource>(
    node_store: &NodeStore,
    neighbors: &W,
    source: u32,
    target: u32,
    edge_type_registry: &[String],
    context: QueryExecutionContext<'_>,
) -> (path: Option<Vec<WeightedPathStep>>)
    requires
        node_store.addressable(),
        shown_edges_in_store(node_store, neighbors, context),
    ensures
        weighted_path_views(path) == weighted_path(
            node_store,
            neighbors,
            source,
            target,
            EdgeTypeLabels { registry: edge_type_registry, resolver: None },
            context,
        ),
{
    let mut governor = ResourceGovernor::unlimited();
    let mut error: Option<GraphError> = None;
    weighted_shortest_path_with_neighbors_inner(
        node_store,
        neighbors,
        source,
        target,
        EdgeTypeLabels { registry: edge_type_registry, resolver: None },
        context,
        &mut governor,
        &mut error,
    )
}

/// Finds the cheapest weighted path within a budget. Work is charged per edge;
/// the search fails once the budget refuses more, once its time is up, or when
/// the visibility of an edge cannot be decided.
pub fn weighted_shortest_path_with_neighbors_governed_with_context<W: WeightedNeighborSource>(
    node_store: &NodeStore,
    neighbors: &W,
    source: u32,
    target: u32,
    edge_type_registry: &[String],
    context: QueryExecutionContext<'_>,
    governor: &mut ResourceGovernor,
) -> (result: GraphResult<Option<Vec<WeightedPathStep>>>)
    requires
        node_store.addressable(),
        shown_edges_in_store(node_store, neighbors, context),
    ensures
        ({
            let work = weighted_work(node_store, neighbors, source, target, context);
            let undecided = looks_undecided_weighted(
                node_store,
                neighbors,
                source,
                target,
                context,
            );
            &&& charged(old(governor)@, final(governor)@, work)
            &&& match result {
                Ok(path) => {
                    &&& weighted_path_views(path) == weighted_path(
                        node_store,
                        neighbors,
                        source,
                        target,
                        EdgeTypeLabels { registry: edge_type_registry, resolver: None },
                        context,
                    )
                    &&& !undecided
                    &&& old(governor)@.affords(work)
                    &&& final(governor)@ == old(governor)@.after_work(work)
                },
                Err(error) => search_error(
                    error@,
                    old(governor)@,
                    work,
                    undecided,
                ),
            }
        }),
{
    let mut error: Option<GraphError> = None;
    let path = weighted_shortest_path_with_neighbors_inner(
        node_store,
        neighbors,
        source,
        target,
        EdgeTypeLabels { registry: edge_type_registry, resolver: None },
        context,
        governor,
        &mut error,
    );
    match error {
        Some(reason) => Err(reason),
        None => Ok(path),
    }
}

/// A weighted graph whose every edge to a live node may be followed.
pub open spec fn live_weighted_graph<W: WeightedNeighborSource>(
    nodes: &NodeStore,
    neighbors: &W,
) -> WeightedGraph {
    WeightedGraph {
        adjacency: |node: u32| neighbors.weighted_adjacency(node),
        allows: |edge: WeightedNeighbor| nodes.live(edge.target),
    }
}

/// The cheapest path in a graph whose every edge to a live node may be followed.
pub open spec fn plain_weighted_path<W: WeightedNeighborSource>(
    node_store: &NodeStore,
    neighbors: &W,
    source: u32,
    target: u32,
    labels: EdgeTypeLabels<'_>,
) -> Option<Seq<WeightedPathStepView>> {
    let count = node_store.nodes().len();
    let state = final_frontier(
        live_weighted_graph(node_store, neighbors),
        count,
        source,
        target,
    );
    if source >= count || target >= count || !neighbors.weighted() || state.dist[target as int]
        == UNREACHED {
        None
    } else {
        Some(weighted_path_view(node_store.nodes(), state, source, target, labels))
    }
}

/// Where everything may be seen and nothing is filtered or deleted, the path is
/// that of the plain graph.
pub proof fn lemma_plain_weighted_path<W: WeightedNeighborSource>(
    node_store: &NodeStore,
    neighbors: &W,
    source: u32,
    target: u32,
    labels: EdgeTypeLabels<'_>,
    context: QueryExecutionContext<'_>,
)
    requires
        forall|edge: Neighbor| #[trigger] context.shows_edge(edge),
        forall|node: u32| !#[trigger] context.deletes(node),
        forall|node: u32| #[trigger] context.visibility.shows_node(node),
    ensures
        weighted_path(node_store, neighbors, source, target, labels, context)
            == plain_weighted_path(node_store, neighbors, source, target, labels),
{
    let g = weighted_graph(node_store, neighbors, context);
    let plain = live_weighted_graph(node_store, neighbors);
    assert(g.adjacency =~= plain.adjacency);
    assert(g.allows =~= plain.allows);
}

/// Finds the cheapest path between two nodes of a store that the caller may
/// see as a whole. A store without weights has none.
pub fn weighted_shortest_path(
    node_store: &NodeStore,
    edge_store: &EdgeStore,
    source: u32,
    target: u32,
    edge_type_registry: &[String],
) -> (path: Option<Vec<WeightedPathStep>>)
    requires
        node_store.addressable(),
        forall|node: u32, i: int|
            0 <= i < edge_store.row(node).len() ==> (#[trigger] edge_store.row(node)[i]).target
                < node_store.nodes().len(),
    ensures
        weighted_path_views(path) == plain_weighted_path(
            node_store,
            edge_store,
            source,
            target,
            EdgeTypeLabels { registry: edge_type_registry, resolver: None },
        ),
{
    let visibility = VisibilityScope::unrestricted();
    let deleted = RoaringBitmap::new();
    let context = QueryExecutionContext {
        visibility: &visibility,
        edge_type_filter: None,
        deleted_nodes: &deleted,
    };
    proof {
        lemma_plain_weighted_path(
            node_store,
            edge_store,
            source,
            target,
            EdgeTypeLabels { registry: edge_type_registry, resolver: None },
            context,
        );
    }
    weighted_shortest_path_with_neighbors(
        node_store,
        edge_store,
        source,
        target,
        edge_type_registry,
        context,
    )
}

} // verus!
