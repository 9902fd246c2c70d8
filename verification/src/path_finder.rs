//! Unweighted shortest paths: breadth-first search from one end or from both.
use roaring::RoaringBitmap;
use std::collections::{HashMap, VecDeque};
use vstd::prelude::*;

use crate::bitmap::bitmap_contents;
use crate::edge_labels::{resolve_edge_type_label, EdgeLabelTable, EdgeTypeLabels};
use crate::edge_store::EdgeStore;
use crate::errors::{ErrorView, GraphError, GraphResult};
use crate::meeting::{
    back_trail, best_meeting, bidirectional_trail, disjoint, goes_forward, joined_trail,
    lemma_absorb_rooted, lemma_best_is_least, lemma_best_prefix, lemma_level, lemma_level_looks,
    lemma_level_rooted, lemma_level_work, lemma_meet_looks_none, lemma_meeting, lemma_no_meeting,
    level, level_looks, level_work, meet, meet_looks, meet_work, next_round, round_looks,
    round_meeting, round_work, start_sides, Sides,
};
use crate::neighbors::{Neighbor, NeighborSource};
use crate::node_store::{NodeStore, NodeView};
use crate::resource::{
    charged, limit_error, GovernorView, ResourceGovernor, ResourceKind, ResourcePhase,
};
use crate::search::{
    absorb, bfs_looks, bfs_trail, bfs_work, bounded, discovered, distinct, edges_until, expanded,
    leads_to, lemma_absorb, lemma_absorb_next, lemma_absorb_take, lemma_bfs_looks_none,
    lemma_edges_until_next, lemma_edges_until_none, lemma_expanded, lemma_found_trail,
    lemma_looks_next, lemma_not_found, lemma_order_bounded, lemma_such_next, lemma_trail_prefix,
    looks_until, position_of, reaches, root_visit, rooted, some_leads_to, some_such, trail,
    SearchGraph, Visit,
};
use crate::types::{EdgeTypeId, PathStep, PathStepView, TableOid};
use crate::visibility::{
    path_candidate_visible, record_error, undecided_relationship, QueryExecutionContext,
    VisibilityScope,
};

verus! {

broadcast use {vstd::std_specs::hash::group_hash_axioms, vstd::seq::group_seq_axioms};

/// How a node was found.
#[derive(Debug, Clone, Copy, PartialEq, Eq, Structural)]
pub struct ParentStep {
    pub parent: u32,
    pub edge_type: EdgeTypeId,
    /// Depth recorded when the node was found.
    pub depth: i32,
}

/// One side of a search: what it has found, how, and what it expands next.
#[derive(Debug)]
pub struct PathSideState {
    pub visited: RoaringBitmap,
    pub parent: HashMap<u32, ParentStep>,
    pub frontier: VecDeque<u32>,
}

/// The graph that a query searches: edges that it shows, to live nodes that
/// the running transaction has not deleted.
pub open spec fn search_graph<N: NeighborSource>(
    nodes: &NodeStore,
    neighbors: &N,
    context: QueryExecutionContext<'_>,
) -> SearchGraph {
    SearchGraph {
        adjacency: |node: u32| neighbors.adjacency(node),
        allows: |edge: Neighbor|
            context.shows_edge(edge) && nodes.live(edge.target) && !context.deletes(edge.target),
    }
}

/// The edges whose visibility a query cannot decide.
pub open spec fn undecided_edges(context: QueryExecutionContext<'_>) -> spec_fn(Neighbor) -> bool {
    |edge: Neighbor| context.undecided(edge)
}

/// What a path lists for each node of a trail.
pub open spec fn path_view(
    nodes: Seq<NodeView>,
    trail: Seq<(u32, EdgeTypeId)>,
    labels: EdgeTypeLabels<'_>,
) -> Seq<PathStepView> {
    Seq::new(
        trail.len(),
        |i: int|
            PathStepView {
                step: i as i32,
                node_table: nodes[trail[i].0 as int].table_oid,
                node_id: nodes[trail[i].0 as int].key,
                edge_label: if i == 0 {
                    None
                } else {
                    Some(labels.label(trail[i].1))
                },
            },
    )
}

/// What rows say.
pub open spec fn step_views(steps: Seq<PathStep>) -> Seq<PathStepView> {
    Seq::new(steps.len(), |i: int| steps[i]@)
}

/// What an optional list of rows says.
pub open spec fn path_views(path: Option<Vec<PathStep>>) -> Option<Seq<PathStepView>> {
    match path {
        Some(steps) => Some(step_views(steps@)),
        None => None,
    }
}

/// Whether recorded parents are those of a discovery order.
pub open spec fn parents_match(order: Seq<Visit>, parent: Map<u32, ParentStep>) -> bool {
    forall|i: int|
        0 <= i < order.len() ==> parent.dom().contains((#[trigger] order[i]).node)
            && parent[order[i].node] == (ParentStep {
            parent: order[order[i].from].node,
            edge_type: order[i].edge_type,
            depth: order[i].label as i32,
        })
}

/// Whether a bitmap holds exactly the discovered nodes.
pub open spec fn visited_matches(order: Seq<Visit>, visited: Set<u32>) -> bool {
    forall|node: u32| #[trigger] visited.contains(node) <==> discovered(order, node)
}

pub(crate) proof fn lemma_push_tracked(
    order: Seq<Visit>,
    visit: Visit,
    parent: Map<u32, ParentStep>,
    visited: Set<u32>,
)
    requires
        parents_match(order, parent),
        visited_matches(order, visited),
        !discovered(order, visit.node),
        0 <= visit.from < order.len(),
        forall|i: int| 0 <= i < order.len() ==> 0 <= (#[trigger] order[i]).from < order.len(),
    ensures
        parents_match(
            order.push(visit),
            parent.insert(
                visit.node,
                ParentStep {
                    parent: order[visit.from].node,
                    edge_type: visit.edge_type,
                    depth: visit.label as i32,
                },
            ),
        ),
        visited_matches(order.push(visit), visited.insert(visit.node)),
{
    let after = order.push(visit);
    assert forall|node: u32| #[trigger] visited.insert(visit.node).contains(node) <==> discovered(
        after,
        node,
    ) by {
        if discovered(order, node) {
            let p = position_of(order, node);
            assert(after[p].node == node);
        }
        if node == visit.node {
            assert(after[order.len() as int].node == node);
        }
        if discovered(after, node) && node != visit.node {
            let p = position_of(after, node);
            assert(order[p].node == node);
        }
    }
    assert forall|i: int| 0 <= i < after.len() implies (#[trigger] after[i]).node == visit.node || (
    i < order.len() && after[i] == order[i] && order[i].node != visit.node) by {
        if i < order.len() {
            assert(after[i] == order[i]);
        }
    }
}

/// Whether an order starts at a root and every other node was found from an
/// earlier one.
pub open spec fn chained(root: u32, order: Seq<Visit>) -> bool {
    &&& order.len() > 0
    &&& order[0] == root_visit(root)
    &&& forall|i: int| 0 < i < order.len() ==> 0 <= (#[trigger] order[i]).from < i
}

/// The nodes of a trail, collected along recorded parents.
pub(crate) fn trail_nodes(
    parent: &HashMap<u32, ParentStep>,
    root: u32,
    node: u32,
    Ghost(order): Ghost<Seq<Visit>>,
    Ghost(at): Ghost<int>,
) -> (nodes: Vec<(u32, EdgeTypeId)>)
    requires
        chained(root, order),
        distinct(order),
        parents_match(order, parent@),
        0 <= at < order.len(),
        order[at].node == node,
    ensures
        nodes@ == trail(order, at),
{
    let mut reversed: Vec<(u32, EdgeTypeId)> = Vec::new();
    let mut current: u32 = node;
    let ghost mut here = at;
    proof {
        assert(trail(order, at) =~= trail(order, here) + reversed@.reverse());
    }
    while current != root
        invariant
            chained(root, order),
            distinct(order),
            parents_match(order, parent@),
            0 <= here < order.len(),
            order[here].node == current,
            trail(order, at) == trail(order, here) + reversed@.reverse(),
        decreases here,
    {
        proof {
            assert(order[0].node == root);
            assert(here > 0);
            assert(parent@.dom().contains(order[here].node));
        }
        let step: ParentStep = match parent.get(&current) {
            Some(step) => *step,
            None => ParentStep { parent: root, edge_type: EdgeTypeId::untyped(), depth: 0 },
        };
        let ghost collected = reversed@;
        reversed.push((current, step.edge_type));
        proof {
            assert(parent@[order[here].node] == step);
            let from = order[here].from;
            assert(reversed@.reverse() =~= seq![(current, step.edge_type)] + collected.reverse());
            assert(trail(order, here) == trail(order, from).push((current, step.edge_type)));
            assert(trail(order, at) =~= trail(order, from) + reversed@.reverse());
            here = from;
        }
        current = step.parent;
    }
    let ghost collected = reversed@;
    reversed.push((root, EdgeTypeId::untyped()));
    proof {
        if here > 0 {
            assert(order[0].node == order[here].node);
        }
        assert(trail(order, here) =~= seq![(root, EdgeTypeId(0))]);
        assert(reversed@.reverse() =~= seq![(root, EdgeTypeId(0))] + collected.reverse());
        assert(trail(order, at) == reversed@.reverse());
    }
    let mut nodes: Vec<(u32, EdgeTypeId)> = Vec::new();
    let mut left: usize = reversed.len();
    while left > 0
        invariant
            left <= reversed@.len(),
            nodes@ == reversed@.reverse().take(reversed@.len() - left),
        decreases left,
    {
        left = left - 1;
        nodes.push(reversed[left]);
        proof {
            assert(nodes@ =~= reversed@.reverse().take(reversed@.len() - left));
        }
    }
    proof {
        assert(reversed@.reverse().take(reversed@.len() as int) =~= reversed@.reverse());
    }
    nodes
}

/// The nodes of a backward trail, collected along recorded parents.
pub(crate) fn back_trail_nodes(
    parent: &HashMap<u32, ParentStep>,
    root: u32,
    node: u32,
    Ghost(order): Ghost<Seq<Visit>>,
    Ghost(at): Ghost<int>,
) -> (nodes: Vec<(u32, EdgeTypeId)>)
    requires
        chained(root, order),
        distinct(order),
        parents_match(order, parent@),
        0 <= at < order.len(),
        order[at].node == node,
    ensures
        nodes@ == back_trail(order, at),
{
    let mut nodes: Vec<(u32, EdgeTypeId)> = Vec::new();
    let mut current: u32 = node;
    let ghost mut here = at;
    proof {
        assert(back_trail(order, at) =~= nodes@ + back_trail(order, here));
    }
    while current != root
        invariant
            chained(root, order),
            distinct(order),
            parents_match(order, parent@),
            0 <= here < order.len(),
            order[here].node == current,
            back_trail(order, at) == nodes@ + back_trail(order, here),
        decreases here,
    {
        proof {
            assert(order[0].node == root);
            assert(here > 0);
            assert(parent@.dom().contains(order[here].node));
        }
        let step: ParentStep = match parent.get(&current) {
            Some(step) => *step,
            None => ParentStep { parent: root, edge_type: EdgeTypeId::untyped(), depth: 0 },
        };
        let ghost collected = nodes@;
        nodes.push((step.parent, step.edge_type));
        proof {
            assert(parent@[order[here].node] == step);
            let from = order[here].from;
            assert(back_trail(order, at) =~= nodes@ + back_trail(order, from));
            here = from;
        }
        current = step.parent;
    }
    proof {
        if here > 0 {
            assert(order[0].node == order[here].node);
        }
        assert(back_trail(order, here) =~= Seq::empty());
        assert(nodes@ =~= back_trail(order, at));
    }
    nodes
}

/// The rows of a path.
pub fn path_steps(
    node_store: &NodeStore,
    path: &Vec<(u32, EdgeTypeId)>,
    labels: EdgeTypeLabels<'_>,
) -> (steps: Vec<PathStep>)
    requires
        node_store.wf(),
        forall|i: int| 0 <= i < path@.len() ==> (#[trigger] path@[i]).0 < node_store.nodes().len(),
    ensures
        step_views(steps@) == path_view(node_store.nodes(), path@, labels),
{
    let mut steps: Vec<PathStep> = Vec::new();
    let mut index: usize = 0;
    while index < path.len()
        invariant
            index <= path@.len(),
            steps@.len() == index,
            node_store.wf(),
            forall|i: int|
                0 <= i < path@.len() ==> (#[trigger] path@[i]).0 < node_store.nodes().len(),
            forall|i: int|
                0 <= i < index ==> (#[trigger] steps@[i])@ == path_view(
                    node_store.nodes(),
                    path@,
                    labels,
                )[i],
        decreases path@.len() - index,
    {
        let (node, edge_type): (u32, EdgeTypeId) = path[index];
        let table: u32 = match node_store.table_oid(node) {
            Some(oid) => oid,
            None => 0,
        };
        let key: String = match node_store.primary_key(node) {
            Some(text) => text.to_owned(),
            None => String::new(),
        };
        let label: Option<String> = if index == 0 {
            None
        } else {
            Some(resolve_edge_type_label(labels, edge_type))
        };
        steps.push(
            PathStep {
                step: index as i32,
                node_table: TableOid(table),
                node_id: key,
                edge_label: label,
            },
        );
        index = index + 1;
    }
    proof {
        assert(step_views(steps@) =~= path_view(node_store.nodes(), path@, labels));
    }
    steps
}

/// Whether an error is one that a governed search can report, which starts
/// with this governor and needs this much work.
pub open spec fn search_error(
    error: ErrorView,
    governor: GovernorView,
    work: int,
    undecided: bool,
) -> bool {
    ||| error == limit_error(ResourcePhase::QueryPaths, ResourceKind::Work)
        && !governor.affords(work)
    ||| error == limit_error(ResourcePhase::QueryPaths, ResourceKind::Elapsed)
        && governor.can_expire()
    ||| error == undecided_relationship() && undecided
}

/// Charges one unit of path work, and looks at the clock once in a while.
/// A refusal is recorded and stops the search.
pub fn consume_path_work(governor: &mut ResourceGovernor, error: &mut Option<GraphError>) -> (more:
    bool)
    requires
        *old(error) matches Some(value) ==> value@ == undecided_relationship(),
    ensures
        charged(old(governor)@, final(governor)@, 1),
        more ==> {
            &&& *final(error) == *old(error)
            &&& old(governor)@.admits_work(1)
            &&& final(governor)@ == old(governor)@.after_work(1)
        },
        !old(governor)@.enforced ==> more,
        !more ==> {
            &&& *final(error) is Some
            &&& *old(error) is Some ==> *final(error) == *old(error)
            &&& *old(error) is None ==> search_error(final(error)->0@, old(governor)@, 1, false)
        },
{
    match governor.consume_work(ResourcePhase::QueryPaths, 1) {
        Ok(_) => {},
        Err(reason) => {
            record_error(error, reason);
            return false;
        },
    }
    if governor.work_used() % 1024 == 0 {
        match governor.check_elapsed(ResourcePhase::QueryPaths) {
            Ok(_) => {},
            Err(reason) => {
                record_error(error, reason);
                return false;
            },
        }
    }
    true
}

/// Whether an edge may be followed.
fn edge_allowed<N: NeighborSource>(
    node_store: &NodeStore,
    context: QueryExecutionContext<'_>,
    edge: Neighbor,
    error: &mut Option<GraphError>,
    neighbors: &N,
) -> (allowed: bool)
    requires
        node_store.wf(),
    ensures
        allowed == (search_graph(node_store, neighbors, context).allows)(edge),
        !context.undecided(edge) ==> *final(error) == *old(error),
        *old(error) is Some ==> *final(error) == *old(error),
        context.undecided(edge) && *old(error) is None ==> (*final(error) matches Some(value)
            && value@ == undecided_relationship()),
{
    path_candidate_visible(context, edge, error) && node_store.is_active(edge.target)
        && !context.deleted_nodes.contains(edge.target)
}

proof fn lemma_graph_bounded<N: NeighborSource>(
    node_store: &NodeStore,
    neighbors: &N,
    context: QueryExecutionContext<'_>,
)
    ensures
        bounded(search_graph(node_store, neighbors, context), node_store.nodes().len()),
{
}

/// A beginning of a rooted order is rooted.
proof fn lemma_rooted_prefix(g: SearchGraph, root: u32, small: Seq<Visit>, large: Seq<Visit>)
    requires
        rooted(g, root, large),
        distinct(large),
        0 < small.len() <= large.len(),
        forall|i: int| 0 <= i < small.len() ==> #[trigger] large[i] == small[i],
    ensures
        rooted(g, root, small),
        distinct(small),
{
    assert forall|i: int| 0 < i < small.len() implies {
        &&& 0 <= (#[trigger] small[i]).from < i
        &&& reaches(g, small[small[i].from].node, small[i])
    } by {
        assert(large[i] == small[i]);
        assert(large[small[i].from] == small[small[i].from]);
    }
    assert forall|i: int, j: int| 0 <= i < j < small.len() implies (#[trigger] small[i]).node != (
    #[trigger] small[j]).node by {
        assert(large[i] == small[i] && large[j] == small[j]);
    }
    assert(large[0] == small[0]);
}

/// Every node of a trail is in the order.
pub(crate) proof fn lemma_trail_in_order(order: Seq<Visit>, at: int)
    requires
        0 <= at < order.len(),
    ensures
        trail(order, at).len() > 0,
        forall|i: int|
            0 <= i < trail(order, at).len() ==> discovered(order, (#[trigger] trail(order, at)[i]).0),
    decreases at,
{
    assert(order[at].node == order[at].node);
    if 0 <= order[at].from < at {
        lemma_trail_in_order(order, order[at].from);
    }
}

/// The order in the middle of an expansion is a beginning of the order after it.
pub(crate) proof fn lemma_partial_order(
    g: SearchGraph,
    root: u32,
    max_depth: int,
    done: nat,
    at: int,
)
    requires
        done < expanded(g, root, max_depth, done).len(),
        expanded(g, root, max_depth, done)[done as int].label < max_depth,
        0 <= at <= (g.adjacency)(expanded(g, root, max_depth, done)[done as int].node).len(),
    ensures
        ({
            let base = expanded(g, root, max_depth, done);
            let whole = expanded(g, root, max_depth, (done + 1) as nat);
            let label = base[done as int].label + 1;
            let row = (g.adjacency)(base[done as int].node);
            let order = absorb(g, base, done as int, label, row.take(at));
            &&& base.len() <= order.len() <= whole.len()
            &&& forall|i: int| 0 <= i < order.len() ==> #[trigger] whole[i] == order[i]
            &&& order[done as int] == base[done as int]
            &&& rooted(g, root, order)
            &&& distinct(order)
            &&& forall|i: int|
                0 <= i < order.len() ==> 0 <= (#[trigger] order[i]).from < order.len()
        }),
{
    let base = expanded(g, root, max_depth, done);
    let whole = expanded(g, root, max_depth, (done + 1) as nat);
    let label = base[done as int].label + 1;
    let row = (g.adjacency)(base[done as int].node);
    let order = absorb(g, base, done as int, label, row.take(at));
    assert(whole == absorb(g, base, done as int, label, row));
    lemma_expanded(g, root, max_depth, (done + 1) as nat);
    lemma_absorb(g, base, done as int, label, row.take(at));
    lemma_absorb_take(g, base, done as int, label, row, at);
    lemma_rooted_prefix(g, root, order, whole);
    assert forall|i: int| 0 <= i < order.len() implies 0 <= (#[trigger] order[i]).from
        < order.len() by {
        if i == 0 {
            assert(order[0] == root_visit(root));
        }
    }
}

/// What waits in the queue once the first `done` nodes have left it.
pub open spec fn waiting(order: Seq<Visit>, done: int) -> Seq<(u32, i32)> {
    Seq::new(
        (order.len() - done) as nat,
        |i: int| (order[done + i].node, order[done + i].label as i32),
    )
}

/// Bounds on the next visit to expand.
proof fn lemma_next_visit(g: SearchGraph, root: u32, max_depth: int, done: nat, bound: nat)
    requires
        bounded(g, bound),
        root < bound,
        done < expanded(g, root, max_depth, done).len(),
    ensures
        done < bound,
        expanded(g, root, max_depth, done).len() <= bound,
        0 <= expanded(g, root, max_depth, done)[done as int].label,
        expanded(g, root, max_depth, done)[done as int].label <= max_depth || expanded(
            g,
            root,
            max_depth,
            done,
        )[done as int].label == 0,
        expanded(g, root, max_depth, done)[done as int].node < bound,
{
    let order = expanded(g, root, max_depth, done);
    lemma_expanded(g, root, max_depth, done);
    lemma_order_bounded(g, root, order, bound);
    assert(order[0].label <= order[done as int].label);
}

/// Breadth-first search from the source.
#[verifier::spinoff_prover]
#[verifier::rlimit(60)]
pub fn single_direction_bfs<N: NeighborSource>(
    node_store: &NodeStore,
    neighbors: &N,
    source: u32,
    target: u32,
    max_depth: i32,
    labels: EdgeTypeLabels<'_>,
    context: QueryExecutionContext<'_>,
    governor: &mut ResourceGovernor,
    error: &mut Option<GraphError>,
) -> (path: Option<Vec<PathStep>>)
    requires
        node_store.addressable(),
        source < node_store.nodes().len(),
        source != target,
        *old(error) is None,
    ensures
        ({
            let work = bfs_work(
                search_graph(node_store, neighbors, context),
                source,
                target,
                max_depth as int,
                0,
                node_store.nodes().len(),
            ) as int;
            let undecided = bfs_looks(
                search_graph(node_store, neighbors, context),
                undecided_edges(context),
                source,
                target,
                max_depth as int,
                0,
                node_store.nodes().len(),
            );
            &&& charged(old(governor)@, final(governor)@, work)
            &&& *final(error) is None ==> {
                &&& !undecided
                &&& old(governor)@.affords(work)
                &&& final(governor)@ == old(governor)@.after_work(work)
            }
            &&& *final(error) matches Some(value) ==> search_error(
                value@,
                old(governor)@,
                work,
                undecided,
            )
        }),
        *final(error) is None || !old(governor)@.enforced ==> path_views(path) == match bfs_trail(
            search_graph(node_store, neighbors, context),
            source,
            target,
            max_depth as int,
        ) {
            Some(found) => Some(path_view(node_store.nodes(), found, labels)),
            None => None,
        },
{
    let ghost g = search_graph(node_store, neighbors, context);
    let ghost limit = max_depth as int;
    let ghost total = node_store.nodes().len();
    let mut visited = RoaringBitmap::new();
    let mut parent: HashMap<u32, ParentStep> = HashMap::new();
    let mut frontier: VecDeque<(u32, i32)> = VecDeque::new();
    visited.insert(source);
    parent.insert(
        source,
        ParentStep { parent: source, edge_type: EdgeTypeId::untyped(), depth: 0 },
    );
    frontier.push_back((source, 0));
    let ghost work = bfs_work(g, source, target, limit, 0, total) as int;
    let ghost such = undecided_edges(context);
    let ghost looked = bfs_looks(g, such, source, target, limit, 0, total);
    let ghost mut used: int = 0;
    let ghost mut done: nat = 0;
    let ghost mut order = expanded(g, source, limit, 0);
    proof {
        lemma_graph_bounded(node_store, neighbors, context);
        assert(order =~= seq![root_visit(source)]);
        assert(discovered(order, source)) by {
            assert(order[0].node == source);
        }
        assert(frontier@ =~= waiting(order, done as int));
    }
    while frontier.len() > 0
        invariant
            g == search_graph(node_store, neighbors, context),
            limit == max_depth as int,
            total == node_store.nodes().len(),
            node_store.addressable(),
            bounded(g, total),
            source < total,
            source != target,
            order == expanded(g, source, limit, done),
            done <= order.len(),
            !discovered(order, target),
            parents_match(order, parent@),
            visited_matches(order, bitmap_contents(visited)),
            frontier@ == waiting(order, done as int),
            work == bfs_work(g, source, target, limit, 0, total),
            governor@ == old(governor)@.after_work(used),
            0 <= used,
            old(governor)@.affords(used),
            done <= total,
            work == used + bfs_work(g, source, target, limit, done, (total - done) as nat),
            such == undecided_edges(context),
            looked == bfs_looks(g, such, source, target, limit, 0, total),
            looked == (*error is Some || bfs_looks(
                g,
                such,
                source,
                target,
                limit,
                done,
                (total - done) as nat,
            )),
            *error matches Some(value) ==> value@ == undecided_relationship(),
        decreases total - done,
    {
        proof {
            lemma_next_visit(g, source, limit, done, total);
            assert(frontier@[0] == (order[done as int].node, order[done as int].label as i32));
            assert(frontier@.drop_first() =~= waiting(order, (done + 1) as int));
        }
        let (current, current_depth): (u32, i32) = match frontier.pop_front() {
            Some(entry) => entry,
            None => (0, 0),
        };
        proof {
            assert(frontier@ =~= waiting(order, (done + 1) as int));
        }
        if current_depth >= max_depth {
            proof {
                assert(expanded(g, source, limit, (done + 1) as nat) == order);
                done = (done + 1) as nat;
                assert(frontier@ =~= waiting(order, done as int));
            }
            continue ;
        }
        let row: Vec<Neighbor> = neighbors.neighbors(current);
        let ghost base = order;
        let ghost label = base[done as int].label + 1;
        let ghost ends = some_leads_to(g, row@, target);
        let ghost later = bfs_work(
            g,
            source,
            target,
            limit,
            done + 1,
            (total - done - 1) as nat,
        ) as int;
        let ghost looked_later = bfs_looks(
            g,
            such,
            source,
            target,
            limit,
            done + 1,
            (total - done - 1) as nat,
        );
        let mut at: usize = 0;
        proof {
            assert((g.adjacency)(current) == row@);
            assert(row@.take(0) =~= Seq::empty());
            assert(row@.skip(0) =~= row@);
            lemma_edges_until_none(g, row@, target);
            assert(bfs_work(g, source, target, limit, done, (total - done) as nat) == if ends {
                edges_until(g, row@, target) as int
            } else {
                row@.len() + later
            });
            assert(bfs_looks(g, such, source, target, limit, done, (total - done) as nat) == (
            looks_until(g, such, row@, target) || (!ends && looked_later)));
            assert(frontier@ =~= waiting(order, (done + 1) as int));
        }
        while at < row.len()
            invariant
                at <= row@.len(),
                g == search_graph(node_store, neighbors, context),
                limit == max_depth as int,
                total == node_store.nodes().len(),
                node_store.addressable(),
                bounded(g, total),
                source < total,
                source != target,
                base == expanded(g, source, limit, done),
                done < base.len(),
                current == base[done as int].node,
                current_depth == base[done as int].label,
                0 <= current_depth < max_depth,
                label == current_depth + 1,
                row@ == (g.adjacency)(current),
                row@ == neighbors.adjacency(current),
                order == absorb(g, base, done as int, label, row@.take(at as int)),
                !discovered(order, target),
                parents_match(order, parent@),
                visited_matches(order, bitmap_contents(visited)),
                frontier@ == waiting(order, (done + 1) as int),
                governor@ == old(governor)@.after_work(used),
                0 <= used,
                old(governor)@.affords(used),
                done < total,
                work == bfs_work(g, source, target, limit, 0, total),
                forall|i: int| 0 <= i < at ==> !leads_to(g, #[trigger] row@[i], target),
                ends == some_leads_to(g, row@, target),
                0 <= later,
                work == used + edges_until(g, row@.skip(at as int), target) + if ends {
                    0
                } else {
                    later
                },
                such == undecided_edges(context),
                looked == bfs_looks(g, such, source, target, limit, 0, total),
                looked == (*error is Some || looks_until(g, such, row@.skip(at as int), target) || (
                !ends && looked_later)),
                *error matches Some(value) ==> value@ == undecided_relationship(),
            decreases row@.len() - at,
        {
            let edge: Neighbor = row[at];
            proof {
                lemma_absorb_next(g, base, done as int, label, row@, at as int);
                lemma_partial_order(g, source, limit, done, at as int);
                assert(neighbors.adjacency(current)[at as int] == edge);
                lemma_edges_until_next(g, row@, target, at as int);
                lemma_looks_next(g, such, row@, target, at as int);
            }
            if !consume_path_work(governor, error) {
                return None;
            }
            proof {
                used = used + 1;
            }
            let allowed: bool = edge_allowed(node_store, context, edge, error, neighbors);
            if !allowed || visited.contains(edge.target) {
                assert(!leads_to(g, edge, target));
                at = at + 1;
                continue ;
            }
            let ghost before = order;
            let ghost parent_before = parent@;
            let ghost visited_before = bitmap_contents(visited);
            visited.insert(edge.target);
            parent.insert(
                edge.target,
                ParentStep {
                    parent: current,
                    edge_type: edge.type_id,
                    depth: current_depth + 1,
                },
            );
            frontier.push_back((edge.target, current_depth + 1));
            proof {
                let visit = Visit {
                    node: edge.target,
                    from: done as int,
                    edge_type: edge.type_id,
                    label,
                };
                lemma_push_tracked(before, visit, parent_before, visited_before);
                order = before.push(visit);
                assert(frontier@ =~= waiting(order, (done + 1) as int));
            }
            if edge.target == target {
                let ghost found_at = order.len() - 1;
                proof {
                    assert(some_leads_to(g, row@, target)) by {
                        assert(leads_to(g, row@[at as int], target));
                    }
                    let whole = expanded(g, source, limit, (done + 1) as nat);
                    lemma_partial_order(g, source, limit, done, at + 1);
                    lemma_found_trail(g, source, target, limit, (done + 1) as nat, found_at);
                    lemma_trail_prefix(order, whole, found_at);
                    lemma_order_bounded(g, source, order, total);
                }
                let nodes: Vec<(u32, EdgeTypeId)> = trail_nodes(
                    &parent,
                    source,
                    target,
                    Ghost(order),
                    Ghost(found_at),
                );
                proof {
                    lemma_trail_in_order(order, found_at);
                }
                return Some(path_steps(node_store, &nodes, labels));
            }
            proof {
                assert(!discovered(order, target)) by {
                    if discovered(order, target) {
                        let p = position_of(order, target);
                        assert(before[p].node == target);
                    }
                }
            }
            at = at + 1;
        }
        proof {
            assert(row@.take(row@.len() as int) =~= row@);
            assert(row@.skip(row@.len() as int).len() == 0);
            assert(!some_leads_to(g, row@, target));
            lemma_partial_order(g, source, limit, done, row@.len() as int);
            done = (done + 1) as nat;
        }
    }
    proof {
        lemma_not_found(g, source, target, limit, done);
    }
    None
}

/// The nodes that wait on one side once the first `done` have been expanded.
pub open spec fn waiting_nodes(order: Seq<Visit>, done: int) -> Seq<u32> {
    Seq::new((order.len() - done) as nat, |i: int| order[done + i].node)
}

/// Whether one side of a search records a discovery order.
pub open spec fn side_tracks(side: PathSideState, order: Seq<Visit>, done: int) -> bool {
    &&& parents_match(order, side.parent@)
    &&& visited_matches(order, bitmap_contents(side.visited))
    &&& side.frontier@ == waiting_nodes(order, done)
    &&& 0 <= done <= order.len()
}

/// Whether labels fit the recorded depth.
pub open spec fn labels_fit(order: Seq<Visit>) -> bool {
    forall|i: int| 0 <= i < order.len() ==> 0 <= (#[trigger] order[i]).label <= i32::MAX
}

/// A best meeting as the search keeps it.
pub open spec fn meeting_view(best: Option<(i64, u32)>) -> Option<(int, u32)> {
    match best {
        Some((combined, node)) => Some((combined as int, node)),
        None => None,
    }
}

impl PathSideState {
    /// The root discovered, nothing expanded.
    pub fn new(root: u32) -> (side: Self)
        ensures
            side_tracks(side, seq![root_visit(root)], 0),
    {
        let mut parent: HashMap<u32, ParentStep> = HashMap::new();
        parent.insert(
            root,
            ParentStep { parent: root, edge_type: EdgeTypeId::untyped(), depth: 0 },
        );
        let mut visited = RoaringBitmap::new();
        visited.insert(root);
        let mut frontier: VecDeque<u32> = VecDeque::new();
        frontier.push_back(root);
        let side = PathSideState { visited, parent, frontier };
        proof {
            let order = seq![root_visit(root)];
            assert(order[0].node == root);
            assert(side.frontier@ =~= waiting_nodes(order, 0));
            assert forall|node: u32| #[trigger] bitmap_contents(side.visited).contains(node)
                <==> discovered(order, node) by {}
        }
        side
    }
}

/// Expands the whole frontier of one side, and returns the best node at which
/// the sides meet. `None` means that the budget stopped the search.
#[verifier::spinoff_prover]
#[verifier::rlimit(80)]
fn expand_level<N: NeighborSource>(
    node_store: &NodeStore,
    neighbors: &N,
    context: QueryExecutionContext<'_>,
    selected: &mut PathSideState,
    opposite: &PathSideState,
    new_depth: i32,
    governor: &mut ResourceGovernor,
    error: &mut Option<GraphError>,
    Ghost(root): Ghost<u32>,
    Ghost(order): Ghost<Seq<Visit>>,
    Ghost(done): Ghost<int>,
    Ghost(other): Ghost<Seq<Visit>>,
    Ghost(other_done): Ghost<int>,
) -> (outcome: Option<Option<(i64, u32)>>)
    requires
        node_store.wf(),
        side_tracks(*old(selected), order, done),
        side_tracks(*opposite, other, other_done),
        rooted(search_graph(node_store, neighbors, context), root, order),
        distinct(order),
        labels_fit(order),
        labels_fit(other),
        disjoint(order, other),
        0 <= new_depth,
        *old(error) matches Some(value) ==> value@ == undecided_relationship(),
    ensures
        charged(
            old(governor)@,
            final(governor)@,
            level_work(
                search_graph(node_store, neighbors, context),
                order,
                done,
                order.len() as int,
            ) as int,
        ),
        match outcome {
            Some(best) => {
                let after = level(
                    search_graph(node_store, neighbors, context),
                    order,
                    done,
                    order.len() as int,
                    new_depth as int,
                );
                let work = level_work(
                    search_graph(node_store, neighbors, context),
                    order,
                    done,
                    order.len() as int,
                ) as int;
                &&& old(governor)@.affords(work)
                &&& final(governor)@ == old(governor)@.after_work(work)
                &&& side_tracks(*final(selected), after, order.len() as int)
                &&& labels_fit(after)
                &&& meeting_view(best) == best_meeting(
                    after,
                    order.len() as int,
                    after.len() as int,
                    other,
                )
                &&& *final(error) matches Some(value) ==> value@ == undecided_relationship()
                &&& *final(error) is Some <==> *old(error) is Some || level_looks(
                    search_graph(node_store, neighbors, context),
                    undecided_edges(context),
                    order,
                    done,
                    order.len() as int,
                )
            },
            None => old(governor)@.enforced && (*final(error) matches Some(value) && search_error(
                value@,
                old(governor)@,
                level_work(
                    search_graph(node_store, neighbors, context),
                    order,
                    done,
                    order.len() as int,
                ) as int,
                *old(error) is Some || level_looks(
                    search_graph(node_store, neighbors, context),
                    undecided_edges(context),
                    order,
                    done,
                    order.len() as int,
                ),
            )),
        },
{
    let ghost g = search_graph(node_store, neighbors, context);
    let ghost label = new_depth as int;
    let ghost start = order.len() as int;
    let mut best: Option<(i64, u32)> = None;
    let level_size: usize = selected.frontier.len();
    let mut expanded_count: usize = 0;
    let ghost mut now = order;
    let ghost work = level_work(g, order, done, start) as int;
    let ghost such = undecided_edges(context);
    let ghost mut used: int = 0;
    while expanded_count < level_size
        invariant
            expanded_count <= level_size == start - done,
            g == search_graph(node_store, neighbors, context),
            label == new_depth as int,
            0 <= new_depth,
            start == order.len(),
            node_store.wf(),
            rooted(g, root, order),
            distinct(order),
            labels_fit(order),
            labels_fit(other),
            disjoint(order, other),
            side_tracks(*opposite, other, other_done),
            0 <= done,
            now == level(g, order, done, done + expanded_count, label),
            side_tracks(*selected, now, done + expanded_count),
            meeting_view(best) == best_meeting(now, start, now.len() as int, other),
            work == level_work(g, order, done, start),
            used == level_work(g, order, done, done + expanded_count),
            governor@ == old(governor)@.after_work(used),
            old(governor)@.affords(used),
            such == undecided_edges(context),
            *error is Some <==> *old(error) is Some || level_looks(
                g,
                such,
                order,
                done,
                done + expanded_count,
            ),
            *error matches Some(value) ==> value@ == undecided_relationship(),
        decreases level_size - expanded_count,
    {
        let ghost here = done + expanded_count;
        proof {
            lemma_level(g, order, done, here, label);
            lemma_level_rooted(g, root, order, done, here, label);
            assert(now[here] == order[here]);
            assert(selected.frontier@[0] == order[here].node);
        }
        let current: u32 = match selected.frontier.pop_front() {
            Some(node) => node,
            None => 0,
        };
        proof {
            assert(selected.frontier@ =~= waiting_nodes(now, here + 1));
        }
        let row: Vec<Neighbor> = neighbors.neighbors(current);
        let ghost base = now;
        let mut at: usize = 0;
        proof {
            assert(row@.take(0) =~= Seq::empty());
            assert((g.adjacency)(current) == row@);
            lemma_level_work(g, order, done, here + 1, start);
        }
        while at < row.len()
            invariant
                at <= row@.len(),
                g == search_graph(node_store, neighbors, context),
                label == new_depth as int,
                0 <= new_depth,
                start == order.len(),
                node_store.wf(),
                labels_fit(order),
                labels_fit(other),
                disjoint(order, other),
                distinct(order),
                side_tracks(*opposite, other, other_done),
                0 <= done <= here < start,
                base == level(g, order, done, here, label),
                base.len() >= start,
                base[here] == order[here],
                rooted(g, root, base),
                distinct(base),
                current == order[here].node,
                row@ == (g.adjacency)(current),
                row@ == neighbors.adjacency(current),
                now == absorb(g, base, here, label, row@.take(at as int)),
                side_tracks(*selected, now, here + 1),
                meeting_view(best) == best_meeting(now, start, now.len() as int, other),
                work == level_work(g, order, done, start),
                used == level_work(g, order, done, here) + at,
                used + row@.len() - at <= work,
                governor@ == old(governor)@.after_work(used),
                old(governor)@.affords(used),
                such == undecided_edges(context),
                *error is Some <==> *old(error) is Some || level_looks(g, such, order, done, here)
                    || some_such(such, row@.take(at as int)),
                *error matches Some(value) ==> value@ == undecided_relationship(),
            decreases row@.len() - at,
        {
            let edge: Neighbor = row[at];
            proof {
                lemma_absorb(g, base, here, label, row@.take(at as int));
                lemma_absorb_next(g, base, here, label, row@, at as int);
                lemma_absorb_rooted(g, root, base, here, label, at as int);
                assert(neighbors.adjacency(current)[at as int] == edge);
                assert(now[here] == base[here]);
                lemma_level_labels(g, order, done, here, label, now);
                lemma_such_next(such, row@, at as int);
            }
            if !consume_path_work(governor, error) {
                proof {
                    if level_looks(g, such, order, done, here + 1) {
                        lemma_level_looks(g, such, order, done, here + 1, start);
                    }
                }
                return None;
            }
            proof {
                used = used + 1;
            }
            if !edge_allowed(node_store, context, edge, error, neighbors) {
                at = at + 1;
                continue ;
            }
            let ghost before = now;
            let is_new: bool = !selected.visited.contains(edge.target);
            if is_new {
                let ghost parent_before = selected.parent@;
                let ghost visited_before = bitmap_contents(selected.visited);
                selected.visited.insert(edge.target);
                selected.parent.insert(
                    edge.target,
                    ParentStep { parent: current, edge_type: edge.type_id, depth: new_depth },
                );
                selected.frontier.push_back(edge.target);
                proof {
                    let visit = Visit {
                        node: edge.target,
                        from: here,
                        edge_type: edge.type_id,
                        label,
                    };
                    assert forall|i: int| 0 <= i < before.len() implies 0 <= (
                    #[trigger] before[i]).from < before.len() by {
                        if i == 0 {
                            assert(before[0] == root_visit(root));
                        }
                    }
                    lemma_push_tracked(before, visit, parent_before, visited_before);
                    now = before.push(visit);
                    assert(selected.frontier@ =~= waiting_nodes(now, here + 1));
                    lemma_best_prefix(before, now, start, before.len() as int, other);
                }
            }
            let ghost seen = position_of(now, edge.target);
            proof {
                if is_new {
                    assert(now[before.len() as int].node == edge.target);
                }
                assert(discovered(now, edge.target));
            }
            if opposite.visited.contains(edge.target) {
                let ghost met = position_of(other, edge.target);
                proof {
                    assert(now[seen].node == edge.target);
                    assert(other[met].node == edge.target);
                    if seen < start {
                        assert(now[seen] == base[seen]);
                        assert(base[seen] == order[seen]) by {
                            lemma_level(g, order, done, here, label);
                        }
                        assert(order[seen].node != other[met].node);
                    }
                    if is_new && seen != before.len() {
                        assert(before[seen].node == edge.target);
                    }
                    lemma_best_is_least(now, start, now.len() as int, other, seen);
                    assert(0 <= now[seen].label <= i32::MAX) by {
                        lemma_level_labels(g, order, done, here, label, now);
                    }
                }
                let selected_depth: i32 = match selected.parent.get(&edge.target) {
                    Some(step) => step.depth,
                    None => 0,
                };
                let opposite_depth: i32 = match opposite.parent.get(&edge.target) {
                    Some(step) => step.depth,
                    None => 0,
                };
                let combined: i64 = selected_depth as i64 + opposite_depth as i64;
                proof {
                    assert(combined == now[seen].label + other[met].label);
                }
                let better: bool = match best {
                    Some((least, _)) => combined < least,
                    None => true,
                };
                if better {
                    best = Some((combined, edge.target));
                }
            }
            at = at + 1;
        }
        proof {
            assert(row@.take(row@.len() as int) =~= row@);
            assert(now == level(g, order, done, here + 1, label));
        }
        expanded_count = expanded_count + 1;
    }
    proof {
        lemma_level(g, order, done, order.len() as int, label);
        assert(done + expanded_count == order.len());
        assert forall|i: int| 0 <= i < now.len() implies 0 <= (#[trigger] now[i]).label
            <= i32::MAX by {
            if i < order.len() {
                assert(now[i] == order[i]);
            }
        }
    }
    Some(best)
}

/// Labels of an order in the middle of a level.
proof fn lemma_level_labels(
    g: SearchGraph,
    order: Seq<Visit>,
    done: int,
    here: int,
    label: int,
    now: Seq<Visit>,
)
    requires
        0 <= done <= here < order.len(),
        0 <= label <= i32::MAX,
        labels_fit(order),
        exists|edges: Seq<Neighbor>|
            now == #[trigger] absorb(g, level(g, order, done, here, label), here, label, edges)
                || now == absorb(
                g,
                level(g, order, done, here, label),
                here,
                label,
                edges,
            ).push(now.last()) && now.last().label == label,
    ensures
        labels_fit(now),
{
    let edges = choose|edges: Seq<Neighbor>|
        now == #[trigger] absorb(g, level(g, order, done, here, label), here, label, edges) || now
            == absorb(g, level(g, order, done, here, label), here, label, edges).push(now.last())
            && now.last().label == label;
    let base = level(g, order, done, here, label);
    lemma_level(g, order, done, here, label);
    lemma_absorb(g, base, here, label, edges);
    let middle = absorb(g, base, here, label, edges);
    assert forall|i: int| 0 <= i < now.len() implies 0 <= (#[trigger] now[i]).label <= i32::MAX by {
        if i < middle.len() {
            assert(now[i] == middle[i]);
            if i < base.len() {
                assert(middle[i] == base[i]);
                if i < order.len() {
                    assert(base[i] == order[i]);
                }
            }
        }
    }
}

/// The rows of the path through a meeting node.
fn path_from_bidirectional_parents(
    node_store: &NodeStore,
    source: u32,
    target: u32,
    meeting: u32,
    forward: &PathSideState,
    backward: &PathSideState,
    labels: EdgeTypeLabels<'_>,
    Ghost(g): Ghost<SearchGraph>,
    Ghost(sides): Ghost<Sides>,
) -> (steps: Vec<PathStep>)
    requires
        node_store.wf(),
        bounded(g, node_store.nodes().len()),
        source < node_store.nodes().len(),
        target < node_store.nodes().len(),
        parents_match(sides.forward, forward.parent@),
        parents_match(sides.backward, backward.parent@),
        rooted(g, source, sides.forward),
        rooted(g, target, sides.backward),
        distinct(sides.forward),
        distinct(sides.backward),
        discovered(sides.forward, meeting),
        discovered(sides.backward, meeting),
    ensures
        step_views(steps@) == path_view(node_store.nodes(), joined_trail(sides, meeting), labels),
{
    let ghost at = position_of(sides.forward, meeting);
    let ghost back_at = position_of(sides.backward, meeting);
    let mut nodes: Vec<(u32, EdgeTypeId)> = trail_nodes(
        &forward.parent,
        source,
        meeting,
        Ghost(sides.forward),
        Ghost(at),
    );
    let mut rest: Vec<(u32, EdgeTypeId)> = back_trail_nodes(
        &backward.parent,
        target,
        meeting,
        Ghost(sides.backward),
        Ghost(back_at),
    );
    proof {
        lemma_order_bounded(g, source, sides.forward, node_store.nodes().len());
        lemma_order_bounded(g, target, sides.backward, node_store.nodes().len());
        lemma_trail_in_order(sides.forward, at);
        lemma_back_trail_in_order(sides.backward, back_at);
    }
    nodes.append(&mut rest);
    path_steps(node_store, &nodes, labels)
}

/// Every node of a backward trail is in the order.
pub(crate) proof fn lemma_back_trail_in_order(order: Seq<Visit>, at: int)
    requires
        0 <= at < order.len(),
    ensures
        forall|i: int|
            0 <= i < back_trail(order, at).len() ==> discovered(
                order,
                (#[trigger] back_trail(order, at)[i]).0,
            ),
    decreases at,
{
    if 0 <= order[at].from < at {
        let from = order[at].from;
        lemma_back_trail_in_order(order, from);
        assert(order[from].node == order[from].node);
        let whole = back_trail(order, at);
        assert forall|i: int| 0 <= i < whole.len() implies discovered(
            order,
            (#[trigger] whole[i]).0,
        ) by {
            if i > 0 {
                assert(whole[i] == back_trail(order, from)[i - 1]);
            }
        }
    }
}

/// Breadth-first search from both ends, one level at a time.
#[verifier::spinoff_prover]
#[verifier::rlimit(60)]
pub fn bidirectional_bfs<N: NeighborSource>(
    node_store: &NodeStore,
    neighbors: &N,
    source: u32,
    target: u32,
    max_depth: i32,
    labels: EdgeTypeLabels<'_>,
    context: QueryExecutionContext<'_>,
    governor: &mut ResourceGovernor,
    error: &mut Option<GraphError>,
) -> (path: Option<Vec<PathStep>>)
    requires
        node_store.addressable(),
        source < node_store.nodes().len(),
        target < node_store.nodes().len(),
        source != target,
        *old(error) is None,
    ensures
        ({
            let work = meet_work(
                search_graph(node_store, neighbors, context),
                start_sides(source, target),
                0,
                max_depth as int,
            ) as int;
            let undecided = meet_looks(
                search_graph(node_store, neighbors, context),
                undecided_edges(context),
                start_sides(source, target),
                0,
                max_depth as int,
            );
            &&& charged(old(governor)@, final(governor)@, work)
            &&& *final(error) is None ==> {
                &&& !undecided
                &&& old(governor)@.affords(work)
                &&& final(governor)@ == old(governor)@.after_work(work)
            }
            &&& *final(error) matches Some(value) ==> search_error(
                value@,
                old(governor)@,
                work,
                undecided,
            )
        }),
        *final(error) is None || !old(governor)@.enforced ==> path_views(path)
            == match bidirectional_trail(
            search_graph(node_store, neighbors, context),
            source,
            target,
            max_depth as int,
        ) {
            Some(found) => Some(path_view(node_store.nodes(), found, labels)),
            None => None,
        },
{
    let ghost g = search_graph(node_store, neighbors, context);
    let ghost limit = max_depth as int;
    let ghost start = start_sides(source, target);
    let mut forward = PathSideState::new(source);
    let mut backward = PathSideState::new(target);
    let mut depth: i32 = 0;
    let ghost mut sides = start;
    let ghost work = meet_work(g, start, 0, limit) as int;
    let ghost such = undecided_edges(context);
    let ghost looked = meet_looks(g, such, start, 0, limit);
    let ghost mut used: int = 0;
    proof {
        lemma_graph_bounded(node_store, neighbors, context);
    }
    while forward.frontier.len() > 0 && backward.frontier.len() > 0 && depth < max_depth
        invariant
            g == search_graph(node_store, neighbors, context),
            limit == max_depth as int,
            start == start_sides(source, target),
            node_store.addressable(),
            bounded(g, node_store.nodes().len()),
            source < node_store.nodes().len(),
            target < node_store.nodes().len(),
            0 <= depth,
            side_tracks(forward, sides.forward, sides.forward_done),
            side_tracks(backward, sides.backward, sides.backward_done),
            rooted(g, source, sides.forward),
            rooted(g, target, sides.backward),
            distinct(sides.forward),
            distinct(sides.backward),
            labels_fit(sides.forward),
            labels_fit(sides.backward),
            disjoint(sides.forward, sides.backward),
            meet(g, start, 0, limit) == meet(g, sides, depth as int, limit),
            0 <= used,
            work == meet_work(g, start, 0, limit),
            work == used + meet_work(g, sides, depth as int, limit),
            governor@ == old(governor)@.after_work(used),
            old(governor)@.affords(used),
            such == undecided_edges(context),
            looked == meet_looks(g, such, start, 0, limit),
            looked == (*error is Some || meet_looks(g, such, sides, depth as int, limit)),
            *error matches Some(value) ==> value@ == undecided_relationship(),
        decreases max_depth - depth,
    {
        let ghost next = next_round(g, sides, depth as int);
        let ghost round = round_work(g, sides) as int;
        let ghost later = meet_work(g, next, depth + 1, limit) as int;
        assert(work == used + round + if round_meeting(g, sides, depth as int) is Some {
            0
        } else {
            later
        });
        assert(meet_looks(g, such, sides, depth as int, limit) == (round_looks(g, such, sides) || (
        round_meeting(g, sides, depth as int) is None && meet_looks(
            g,
            such,
            next,
            depth + 1,
            limit,
        ))));
        let best: Option<(i64, u32)>;
        if forward.frontier.len() <= backward.frontier.len() {
            proof {
                assert(goes_forward(sides));
                lemma_level(
                    g,
                    sides.forward,
                    sides.forward_done,
                    sides.forward.len() as int,
                    depth + 1,
                );
                lemma_level_rooted(
                    g,
                    source,
                    sides.forward,
                    sides.forward_done,
                    sides.forward.len() as int,
                    depth + 1,
                );
            }
            best = match expand_level(
                node_store,
                neighbors,
                context,
                &mut forward,
                &backward,
                depth + 1,
                governor,
                error,
                Ghost(source),
                Ghost(sides.forward),
                Ghost(sides.forward_done),
                Ghost(sides.backward),
                Ghost(sides.backward_done),
            ) {
                Some(outcome) => outcome,
                None => {
                    return None;
                },
            };
        } else {
            proof {
                assert(!goes_forward(sides));
                lemma_level(
                    g,
                    sides.backward,
                    sides.backward_done,
                    sides.backward.len() as int,
                    depth + 1,
                );
                lemma_level_rooted(
                    g,
                    target,
                    sides.backward,
                    sides.backward_done,
                    sides.backward.len() as int,
                    depth + 1,
                );
                assert(disjoint(sides.backward, sides.forward));
            }
            best = match expand_level(
                node_store,
                neighbors,
                context,
                &mut backward,
                &forward,
                depth + 1,
                governor,
                error,
                Ghost(target),
                Ghost(sides.backward),
                Ghost(sides.backward_done),
                Ghost(sides.forward),
                Ghost(sides.forward_done),
            ) {
                Some(outcome) => outcome,
                None => {
                    return None;
                },
            };
        }
        proof {
            used = used + round;
            assert(meeting_view(best) == round_meeting(g, sides, depth as int));
        }
        if let Some((_, node)) = best {
            proof {
                if goes_forward(sides) {
                    lemma_meeting(
                        next.forward,
                        sides.forward.len() as int,
                        next.forward.len() as int,
                        sides.backward,
                    );
                } else {
                    lemma_meeting(
                        next.backward,
                        sides.backward.len() as int,
                        next.backward.len() as int,
                        sides.forward,
                    );
                }
                assert(meet(g, start, 0, limit) == Some((next, node)));
            }
            return Some(
                path_from_bidirectional_parents(
                    node_store,
                    source,
                    target,
                    node,
                    &forward,
                    &backward,
                    labels,
                    Ghost(g),
                    Ghost(next),
                ),
            );
        }
        proof {
            lemma_stays_disjoint(g, sides, depth as int);
            sides = next;
        }
        depth = depth + 1;
    }
    None
}

/// A round without a meeting keeps the sides disjoint.
proof fn lemma_stays_disjoint(g: SearchGraph, sides: Sides, depth: int)
    requires
        disjoint(sides.forward, sides.backward),
        0 <= sides.forward_done,
        0 <= sides.backward_done,
        round_meeting(g, sides, depth) is None,
    ensures
        disjoint(next_round(g, sides, depth).forward, next_round(g, sides, depth).backward),
{
    let next = next_round(g, sides, depth);
    if goes_forward(sides) {
        lemma_level(
            g,
            sides.forward,
            sides.forward_done,
            sides.forward.len() as int,
            depth + 1,
        );
        lemma_no_meeting(
            next.forward,
            sides.forward.len() as int,
            next.forward.len() as int,
            sides.backward,
        );
    } else {
        lemma_level(
            g,
            sides.backward,
            sides.backward_done,
            sides.backward.len() as int,
            depth + 1,
        );
        lemma_no_meeting(
            next.backward,
            sides.backward.len() as int,
            next.backward.len() as int,
            sides.forward,
        );
    }
    assert forall|i: int, j: int|
        0 <= i < next.forward.len() && 0 <= j < next.backward.len() implies (
    #[trigger] next.forward[i]).node != (#[trigger] next.backward[j]).node by {
        if i < sides.forward.len() {
            assert(next.forward[i] == sides.forward[i]);
        }
        if j < sides.backward.len() {
            assert(next.backward[j] == sides.backward[j]);
        }
    }
}

/// A request for an unweighted path.
#[derive(Debug, Clone, Copy)]
pub struct UnweightedPathRequest<'a> {
    pub source: u32,
    pub target: u32,
    pub max_depth: i32,
    /// Whether some edge has no edge back, so that searching from the target
    /// would follow edges that are not there.
    pub has_unidirectional_edges: bool,
    pub edge_type_registry: &'a [String],
    pub edge_type_label: Option<&'a EdgeLabelTable>,
}

/// The labels that a request asks for.
pub open spec fn request_labels<'a>(request: UnweightedPathRequest<'a>) -> EdgeTypeLabels<'a> {
    EdgeTypeLabels { registry: request.edge_type_registry, resolver: request.edge_type_label }
}

/// The path that a request is answered with.
pub open spec fn unweighted_path<N: NeighborSource>(
    node_store: &NodeStore,
    neighbors: &N,
    request: UnweightedPathRequest<'_>,
    context: QueryExecutionContext<'_>,
) -> Option<Seq<PathStepView>> {
    let g = search_graph(node_store, neighbors, context);
    let labels = request_labels(request);
    let count = node_store.nodes().len();
    if request.source >= count || request.target >= count || !context.visibility.shows_node(
        request.source,
    ) || !context.visibility.shows_node(request.target) {
        None
    } else {
        let found = if request.source == request.target {
            Some(seq![(request.source, EdgeTypeId(0))])
        } else if request.has_unidirectional_edges {
            bfs_trail(g, request.source, request.target, request.max_depth as int)
        } else {
            bidirectional_trail(g, request.source, request.target, request.max_depth as int)
        };
        match found {
            Some(nodes) => Some(path_view(node_store.nodes(), nodes, labels)),
            None => None,
        }
    }
}

/// How many edges are looked at for a request: each is a unit of work.
pub open spec fn unweighted_work<N: NeighborSource>(
    node_store: &NodeStore,
    neighbors: &N,
    request: UnweightedPathRequest<'_>,
    context: QueryExecutionContext<'_>,
) -> int {
    let g = search_graph(node_store, neighbors, context);
    let count = node_store.nodes().len();
    let (source, target) = (request.source, request.target);
    if source >= count || target >= count || !context.visibility.shows_node(source)
        || !context.visibility.shows_node(target) || source == target {
        0
    } else if request.has_unidirectional_edges {
        bfs_work(g, source, target, request.max_depth as int, 0, count) as int
    } else {
        meet_work(g, start_sides(source, target), 0, request.max_depth as int) as int
    }
}

/// Whether an edge is looked at for a request whose visibility cannot be
/// decided.
pub open spec fn looks_undecided<N: NeighborSource>(
    node_store: &NodeStore,
    neighbors: &N,
    request: UnweightedPathRequest<'_>,
    context: QueryExecutionContext<'_>,
) -> bool {
    let g = search_graph(node_store, neighbors, context);
    let such = undecided_edges(context);
    let count = node_store.nodes().len();
    let (source, target) = (request.source, request.target);
    if source >= count || target >= count || !context.visibility.shows_node(source)
        || !context.visibility.shows_node(target) || source == target {
        false
    } else if request.has_unidirectional_edges {
        bfs_looks(g, such, source, target, request.max_depth as int, 0, count)
    } else {
        meet_looks(g, such, start_sides(source, target), 0, request.max_depth as int)
    }
}

/// Where every edge can be decided, none that cannot is looked at.
pub proof fn lemma_all_decided<N: NeighborSource>(
    node_store: &NodeStore,
    neighbors: &N,
    request: UnweightedPathRequest<'_>,
    context: QueryExecutionContext<'_>,
)
    requires
        forall|edge: Neighbor| !#[trigger] context.undecided(edge),
    ensures
        !looks_undecided(node_store, neighbors, request, context),
{
    let g = search_graph(node_store, neighbors, context);
    let such = undecided_edges(context);
    let depth = request.max_depth as int;
    lemma_bfs_looks_none(
        g,
        such,
        request.source,
        request.target,
        depth,
        0,
        node_store.nodes().len(),
    );
    lemma_meet_looks_none(g, such, start_sides(request.source, request.target), 0, depth);
}

fn shortest_path_with_neighbors_inner<N: NeighborSource>(
    node_store: &NodeStore,
    neighbors: &N,
    request: UnweightedPathRequest<'_>,
    context: QueryExecutionContext<'_>,
    governor: &mut ResourceGovernor,
    error: &mut Option<GraphError>,
) -> (path: Option<Vec<PathStep>>)
    requires
        node_store.addressable(),
        *old(error) is None,
    ensures
        ({
            let work = unweighted_work(node_store, neighbors, request, context);
            let undecided = looks_undecided(node_store, neighbors, request, context);
            &&& charged(old(governor)@, final(governor)@, work)
            &&& *final(error) is None ==> {
                &&& !undecided
                &&& old(governor)@.affords(work)
                &&& final(governor)@ == old(governor)@.after_work(work)
            }
            &&& *final(error) matches Some(value) ==> search_error(
                value@,
                old(governor)@,
                work,
                undecided,
            )
        }),
        *final(error) is None || !old(governor)@.enforced ==> path_views(path) == unweighted_path(
            node_store,
            neighbors,
            request,
            context,
        ),
{
    let count: u32 = node_store.node_count();
    if request.source >= count || request.target >= count || !context.visibility.allows_node(
        request.source,
    ) || !context.visibility.allows_node(request.target) {
        return None;
    }
    let labels = EdgeTypeLabels {
        registry: request.edge_type_registry,
        resolver: request.edge_type_label,
    };
    if request.source == request.target {
        let mut nodes: Vec<(u32, EdgeTypeId)> = Vec::new();
        nodes.push((request.source, EdgeTypeId::untyped()));
        proof {
            assert(nodes@ =~= seq![(request.source, EdgeTypeId(0))]);
        }
        return Some(path_steps(node_store, &nodes, labels));
    }
    if request.has_unidirectional_edges {
        single_direction_bfs(
            node_store,
            neighbors,
            request.source,
            request.target,
            request.max_depth,
            labels,
            context,
            governor,
            error,
        )
    } else {
        bidirectional_bfs(
            node_store,
            neighbors,
            request.source,
            request.target,
            request.max_depth,
            labels,
            context,
            governor,
            error,
        )
    }
}

/// Finds an unweighted path over any neighbor source, without a budget. An
/// edge whose visibility cannot be decided is not followed.
pub fn shortest_path_with_neighbors<N: NeighborSource>(
    node_store: &NodeStore,
    neighbors: &N,
    request: UnweightedPathRequest<'_>,
    context: QueryExecutionContext<'_>,
) -> (path: Option<Vec<PathStep>>)
    requires
        node_store.addressable(),
    ensures
        path_views(path) == unweighted_path(node_store, neighbors, request, context),
{
    let mut governor = ResourceGovernor::unlimited();
    let mut error: Option<GraphError> = None;
    shortest_path_with_neighbors_inner(
        node_store,
        neighbors,
        request,
        context,
        &mut governor,
        &mut error,
    )
}

/// Finds an unweighted path within a budget. Work is charged per edge; the
/// search fails once the budget refuses more, once its time is up, or when the
/// visibility of an edge cannot be decided.
pub fn shortest_path_with_neighbors_governed_with_context<N: NeighborSource>(
    node_store: &NodeStore,
    neighbors: &N,
    request: UnweightedPathRequest<'_>,
    context: QueryExecutionContext<'_>,
    governor: &mut ResourceGovernor,
) -> (result: GraphResult<Option<Vec<PathStep>>>)
    requires
        node_store.addressable(),
    ensures
        ({
            let work = unweighted_work(node_store, neighbors, request, context);
            let undecided = looks_undecided(node_store, neighbors, request, context);
            &&& charged(old(governor)@, final(governor)@, work)
            &&& match result {
                Ok(path) => {
                    &&& path_views(path) == unweighted_path(
                        node_store,
                        neighbors,
                        request,
                        context,
                    )
                    &&& !undecided
                    &&& old(governor)@.affords(work)
                    &&& final(governor)@ == old(governor)@.after_work(work)
                },
                Err(error) => search_error(
                    error@,
                    old(governor)@,
                    work,
                    undecided,
                ),
            }
        }),
{
    let mut error: Option<GraphError> = None;
    let path = shortest_path_with_neighbors_inner(
        node_store,
        neighbors,
        request,
        context,
        governor,
        &mut error,
    );
    match error {
        Some(reason) => Err(reason),
        None => Ok(path),
    }
}

/// Finds the shortest unweighted path between two nodes of a store that the
/// caller may see as a whole. A graph with unidirectional edges is searched
/// from the source alone, any other from both ends.
pub fn shortest_path(
    node_store: &NodeStore,
    edge_store: &EdgeStore,
    source: u32,
    target: u32,
    max_depth: i32,
    has_unidirectional_edges: bool,
    edge_type_registry: &[String],
) -> (path: Option<Vec<PathStep>>)
    requires
        node_store.addressable(),
    ensures
        path_views(path) == plain_path(
            node_store,
            edge_store,
            source,
            target,
            max_depth as int,
            has_unidirectional_edges,
            EdgeTypeLabels { registry: edge_type_registry, resolver: None },
        ),
{
    let visibility = VisibilityScope::unrestricted();
    let deleted = RoaringBitmap::new();
    let context = QueryExecutionContext {
        visibility: &visibility,
        edge_type_filter: None,
        deleted_nodes: &deleted,
    };
    let request = UnweightedPathRequest {
        source,
        target,
        max_depth,
        has_unidirectional_edges,
        edge_type_registry,
        edge_type_label: None,
    };
    proof {
        let g = search_graph(node_store, edge_store, context);
        let plain = live_graph(node_store, edge_store);
        assert(g.adjacency =~= plain.adjacency);
        assert(g.allows =~= plain.allows);
    }
    shortest_path_with_neighbors(node_store, edge_store, request, context)
}

/// A graph whose every edge to a live node may be followed.
pub open spec fn live_graph<N: NeighborSource>(nodes: &NodeStore, neighbors: &N) -> SearchGraph {
    SearchGraph {
        adjacency: |node: u32| neighbors.adjacency(node),
        allows: |edge: Neighbor| nodes.live(edge.target),
    }
}

/// The shortest path in a graph whose every edge to a live node may be followed.
pub open spec fn plain_path<N: NeighborSource>(
    node_store: &NodeStore,
    neighbors: &N,
    source: u32,
    target: u32,
    max_depth: int,
    has_unidirectional_edges: bool,
    labels: EdgeTypeLabels<'_>,
) -> Option<Seq<PathStepView>> {
    let count = node_store.nodes().len();
    if source >= count || target >= count {
        None
    } else {
        let found = if source == target {
            Some(seq![(source, EdgeTypeId(0))])
        } else if has_unidirectional_edges {
            bfs_trail(live_graph(node_store, neighbors), source, target, max_depth)
        } else {
            bidirectional_trail(live_graph(node_store, neighbors), source, target, max_depth)
        };
        match found {
            Some(nodes) => Some(path_view(node_store.nodes(), nodes, labels)),
            None => None,
        }
    }
}

} // verus!
