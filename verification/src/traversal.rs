//! Traversal from a seed: nodes in the order in which they are found, breadth
//! or depth first, up to limits on depth, on listed nodes and on waiting nodes.
use roaring::RoaringBitmap;
use std::collections::VecDeque;
use vstd::prelude::*;

use crate::bitmap::bitmap_contents;
use crate::edge_labels::{resolve_edge_type_label, EdgeTypeLabels};
use crate::errors::GraphResult;
use crate::filter_index::{filter_holds, FilterIndex};
use crate::filter_value::FilterOp;
use crate::membership::{members, TenantMembership};
use crate::neighbors::{Neighbor, NeighborSource};
use crate::node_store::{NodeStore, NodeView};
use crate::path_finder::visited_matches;
use crate::resource::{charged, limit_error, ResourceGovernor, ResourceKind, ResourcePhase};
use crate::search::{
    absorb, bounded, discovered, distinct, expanded, is_walk, lemma_absorb_next, lemma_expanded,
    lemma_order_bounded, lemma_trail_walk, lemma_walk_is_found, position_of, reaches, root_visit,
    rooted, trail, trail_follows, walk_between, SearchGraph, Visit,
};
use crate::types::{
    traversal_views, EdgeTypeId, PathCoordinate, TableOid, TraversalResult, TraversalResultView,
    TraversalStrategy,
};

verus! {

/// How far a traversal may go.
#[derive(Debug, Clone, Copy, PartialEq, Eq, Structural)]
pub struct TraversalLimits {
    /// Edges between the seed and a listed node.
    pub max_depth: i32,
    /// Listed nodes. The seed is always listed.
    pub max_nodes: u32,
    /// Nodes that wait to be expanded.
    pub max_frontier: u32,
}

/// A traversal at some moment.
#[verifier::ext_equal]
pub struct Walk {
    /// The nodes found so far.
    pub order: Seq<Visit>,
    /// Positions of the nodes that wait to be expanded.
    pub pending: Seq<int>,
    /// Whether a limit has stopped the traversal.
    pub halted: bool,
}

/// A traversal that knows its seed alone.
pub open spec fn start_walk(seed: u32) -> Walk {
    Walk { order: seq![root_visit(seed)], pending: seq![0int], halted: false }
}

/// A traversal that has looked at one more edge. A node that a limit keeps out
/// ends the traversal.
pub open spec fn take_edge(
    g: SearchGraph,
    limits: TraversalLimits,
    w: Walk,
    from: int,
    label: int,
    edge: Neighbor,
) -> Walk {
    if w.halted || !(g.allows)(edge) || discovered(w.order, edge.target) {
        w
    } else if w.order.len() >= limits.max_nodes || w.pending.len() >= limits.max_frontier {
        Walk { halted: true, ..w }
    } else {
        Walk {
            order: w.order.push(
                Visit { node: edge.target, from, edge_type: edge.type_id, label },
            ),
            pending: w.pending.push(w.order.len() as int),
            halted: false,
        }
    }
}

/// A traversal that has looked at edges from first to last.
pub open spec fn take_edges(
    g: SearchGraph,
    limits: TraversalLimits,
    w: Walk,
    from: int,
    label: int,
    edges: Seq<Neighbor>,
) -> Walk
    decreases edges.len(),
{
    if edges.len() == 0 {
        w
    } else {
        take_edge(
            g,
            limits,
            take_edges(g, limits, w, from, label, edges.drop_last()),
            from,
            label,
            edges.last(),
        )
    }
}

/// Which waiting node is expanded next: the one that waits longest, or the one
/// found last.
pub open spec fn next_pending(strategy: TraversalStrategy, pending: Seq<int>) -> int {
    match strategy {
        TraversalStrategy::Bfs => 0,
        TraversalStrategy::Dfs => pending.len() - 1,
    }
}

/// Whether a traversal is over.
pub open spec fn finished(w: Walk) -> bool {
    w.halted || w.pending.len() == 0
}

/// A traversal whose next waiting node has been expanded. A node at the depth
/// limit is not expanded.
pub open spec fn walk_step(
    g: SearchGraph,
    strategy: TraversalStrategy,
    limits: TraversalLimits,
    w: Walk,
) -> Walk {
    if finished(w) {
        w
    } else {
        let at = w.pending[next_pending(strategy, w.pending)];
        let rest = Walk { pending: w.pending.remove(next_pending(strategy, w.pending)), ..w };
        if w.order[at].label < limits.max_depth {
            take_edges(
                g,
                limits,
                rest,
                at,
                w.order[at].label + 1,
                (g.adjacency)(w.order[at].node),
            )
        } else {
            rest
        }
    }
}

/// A traversal after a number of expansions.
pub open spec fn walked(
    g: SearchGraph,
    strategy: TraversalStrategy,
    limits: TraversalLimits,
    seed: u32,
    steps: nat,
) -> Walk
    decreases steps,
{
    if steps == 0 {
        start_walk(seed)
    } else {
        walk_step(g, strategy, limits, walked(g, strategy, limits, seed, (steps - 1) as nat))
    }
}

/// How many expansions end a traversal.
pub open spec fn steps_to_finish(
    g: SearchGraph,
    strategy: TraversalStrategy,
    limits: TraversalLimits,
    seed: u32,
) -> nat {
    choose|steps: nat| finished(#[trigger] walked(g, strategy, limits, seed, steps))
}

/// The nodes that a traversal lists, in order.
pub open spec fn traversal(
    g: SearchGraph,
    strategy: TraversalStrategy,
    limits: TraversalLimits,
    seed: u32,
) -> Seq<Visit> {
    walked(g, strategy, limits, seed, steps_to_finish(g, strategy, limits, seed)).order
}

/// How many edges are looked at when the next waiting node is expanded.
pub open spec fn step_work(
    g: SearchGraph,
    strategy: TraversalStrategy,
    limits: TraversalLimits,
    w: Walk,
) -> nat {
    let at = w.pending[next_pending(strategy, w.pending)];
    if !finished(w) && w.order[at].label < limits.max_depth {
        (g.adjacency)(w.order[at].node).len()
    } else {
        0
    }
}

/// How many edges a number of expansions look at.
pub open spec fn walked_work(
    g: SearchGraph,
    strategy: TraversalStrategy,
    limits: TraversalLimits,
    seed: u32,
    steps: nat,
) -> nat
    decreases steps,
{
    if steps == 0 {
        0
    } else {
        walked_work(g, strategy, limits, seed, (steps - 1) as nat) + step_work(
            g,
            strategy,
            limits,
            walked(g, strategy, limits, seed, (steps - 1) as nat),
        )
    }
}

/// How many edges a traversal looks at.
pub open spec fn traversal_work(
    g: SearchGraph,
    strategy: TraversalStrategy,
    limits: TraversalLimits,
    seed: u32,
) -> nat {
    walked_work(g, strategy, limits, seed, steps_to_finish(g, strategy, limits, seed))
}

/// A traversal comes to an end.
pub proof fn lemma_walk_ends(
    g: SearchGraph,
    strategy: TraversalStrategy,
    limits: TraversalLimits,
    seed: u32,
    nodes: nat,
    steps: nat,
) -> (end: nat)
    requires
        bounded(g, nodes),
        seed < nodes,
    ensures
        finished(walked(g, strategy, limits, seed, end)),
    decreases
            2 * (nodes - walked(g, strategy, limits, seed, steps).order.len()) + walked(
                g,
                strategy,
                limits,
                seed,
                steps,
            ).pending.len(),
{
    let w = walked(g, strategy, limits, seed, steps);
    if finished(w) {
        steps
    } else {
        lemma_walked(g, strategy, limits, seed, steps);
        lemma_walk_step(g, strategy, limits, seed, w);
        lemma_walked(g, strategy, limits, seed, steps + 1);
        lemma_order_bounded(
            g,
            seed,
            walked(g, strategy, limits, seed, steps + 1).order,
            nodes,
        );
        lemma_walk_ends(g, strategy, limits, seed, nodes, steps + 1)
    }
}

proof fn lemma_walked_work_grows(
    g: SearchGraph,
    strategy: TraversalStrategy,
    limits: TraversalLimits,
    seed: u32,
    steps: nat,
    more: nat,
)
    requires
        steps <= more,
    ensures
        walked_work(g, strategy, limits, seed, steps) <= walked_work(
            g,
            strategy,
            limits,
            seed,
            more,
        ),
        finished(walked(g, strategy, limits, seed, steps)) ==> walked_work(
            g,
            strategy,
            limits,
            seed,
            steps,
        ) == walked_work(g, strategy, limits, seed, more),
    decreases more,
{
    if steps < more {
        lemma_walked_work_grows(g, strategy, limits, seed, steps, (more - 1) as nat);
        if finished(walked(g, strategy, limits, seed, steps)) {
            lemma_finished_stays(g, strategy, limits, seed, steps, (more - 1) as nat);
        }
    }
}

/// Expansions look at no more edges than the whole traversal, and at all of
/// them once it is finished.
pub proof fn lemma_walked_work(
    g: SearchGraph,
    strategy: TraversalStrategy,
    limits: TraversalLimits,
    seed: u32,
    nodes: nat,
    steps: nat,
)
    requires
        bounded(g, nodes),
        seed < nodes,
    ensures
        walked_work(g, strategy, limits, seed, steps) <= traversal_work(
            g,
            strategy,
            limits,
            seed,
        ),
        finished(walked(g, strategy, limits, seed, steps)) ==> walked_work(
            g,
            strategy,
            limits,
            seed,
            steps,
        ) == traversal_work(g, strategy, limits, seed),
{
    let some = lemma_walk_ends(g, strategy, limits, seed, nodes, 0);
    let end = steps_to_finish(g, strategy, limits, seed);
    assert(finished(walked(g, strategy, limits, seed, end)));
    if steps <= end {
        lemma_walked_work_grows(g, strategy, limits, seed, steps, end);
    } else {
        lemma_walked_work_grows(g, strategy, limits, seed, end, steps);
    }
}

/// A finished traversal stays as it is.
proof fn lemma_finished_stays(
    g: SearchGraph,
    strategy: TraversalStrategy,
    limits: TraversalLimits,
    seed: u32,
    steps: nat,
    more: nat,
)
    requires
        finished(walked(g, strategy, limits, seed, steps)),
        steps <= more,
    ensures
        walked(g, strategy, limits, seed, more) == walked(g, strategy, limits, seed, steps),
    decreases more,
{
    if steps < more {
        lemma_finished_stays(g, strategy, limits, seed, steps, (more - 1) as nat);
    }
}

/// Whenever a traversal is finished it lists the same nodes.
pub proof fn lemma_traversal(
    g: SearchGraph,
    strategy: TraversalStrategy,
    limits: TraversalLimits,
    seed: u32,
    steps: nat,
)
    requires
        finished(walked(g, strategy, limits, seed, steps)),
    ensures
        traversal(g, strategy, limits, seed) == walked(g, strategy, limits, seed, steps).order,
{
    let own = steps_to_finish(g, strategy, limits, seed);
    assert(finished(walked(g, strategy, limits, seed, own)));
    if steps <= own {
        lemma_finished_stays(g, strategy, limits, seed, steps, own);
    } else {
        lemma_finished_stays(g, strategy, limits, seed, own, steps);
    }
}

/// What holds of a traversal at every moment.
pub open spec fn walk_inv(g: SearchGraph, limits: TraversalLimits, seed: u32, w: Walk) -> bool {
    &&& distinct(w.order)
    &&& rooted(g, seed, w.order)
    &&& forall|i: int|
        0 < i < w.order.len() ==> {
            &&& (#[trigger] w.order[i]).label == w.order[w.order[i].from].label + 1
            &&& w.order[i].label <= limits.max_depth
        }
    &&& forall|i: int| 0 <= i < w.order.len() ==> 0 <= (#[trigger] w.order[i]).label
    &&& forall|i: int|
        0 <= i < w.pending.len() ==> 0 <= (#[trigger] w.pending[i]) < w.order.len()
    &&& w.order.len() <= 1 || w.order.len() <= limits.max_nodes
}

/// Looking at an edge keeps what holds of a traversal.
proof fn lemma_take_edge(
    g: SearchGraph,
    limits: TraversalLimits,
    seed: u32,
    w: Walk,
    from: int,
    label: int,
    edge: Neighbor,
    at: int,
)
    requires
        walk_inv(g, limits, seed, w),
        0 <= from < w.order.len(),
        label == w.order[from].label + 1,
        label <= limits.max_depth,
        0 <= at < (g.adjacency)(w.order[from].node).len(),
        (g.adjacency)(w.order[from].node)[at] == edge,
    ensures
        walk_inv(g, limits, seed, take_edge(g, limits, w, from, label, edge)),
{
    let after = take_edge(g, limits, w, from, label, edge);
    if after.order.len() > w.order.len() {
        let last = after.order[w.order.len() as int];
        assert(reaches(g, w.order[from].node, last));
        assert forall|i: int| 0 < i < after.order.len() implies {
            &&& 0 <= (#[trigger] after.order[i]).from < i
            &&& reaches(g, after.order[after.order[i].from].node, after.order[i])
        } by {
            if i < w.order.len() {
                assert(after.order[i] == w.order[i]);
                assert(after.order[w.order[i].from] == w.order[w.order[i].from]);
            }
        }
        assert forall|i: int, j: int| 0 <= i < j < after.order.len() implies (
        #[trigger] after.order[i]).node != (#[trigger] after.order[j]).node by {
            assert(after.order[i] == w.order[i]);
        }
        assert forall|i: int| 0 < i < after.order.len() implies {
            &&& (#[trigger] after.order[i]).label == after.order[after.order[i].from].label + 1
            &&& after.order[i].label <= limits.max_depth
        } by {
            if i < w.order.len() {
                assert(after.order[i] == w.order[i]);
                assert(after.order[w.order[i].from] == w.order[w.order[i].from]);
            }
        }
        assert(after.order[0] == w.order[0]);
    }
}

/// Looking at a node's edges keeps what holds of a traversal.
pub proof fn lemma_take_edges(
    g: SearchGraph,
    limits: TraversalLimits,
    seed: u32,
    w: Walk,
    from: int,
    label: int,
    count: int,
)
    requires
        walk_inv(g, limits, seed, w),
        0 <= from < w.order.len(),
        label == w.order[from].label + 1,
        label <= limits.max_depth,
        0 <= count <= (g.adjacency)(w.order[from].node).len(),
    ensures
        ({
            let row = (g.adjacency)(w.order[from].node);
            let after = take_edges(g, limits, w, from, label, row.take(count));
            &&& walk_inv(g, limits, seed, after)
            &&& w.order.len() <= after.order.len()
            &&& forall|i: int| 0 <= i < w.order.len() ==> #[trigger] after.order[i] == w.order[i]
            &&& after.order.len() - w.order.len() == after.pending.len() - w.pending.len()
            &&& count < row.len() ==> take_edges(g, limits, w, from, label, row.take(count + 1))
                == take_edge(g, limits, after, from, label, row[count])
        }),
    decreases count,
{
    let row = (g.adjacency)(w.order[from].node);
    let after = take_edges(g, limits, w, from, label, row.take(count));
    if count > 0 {
        lemma_take_edges(g, limits, seed, w, from, label, count - 1);
        let before = take_edges(g, limits, w, from, label, row.take(count - 1));
        assert(before.order[from] == w.order[from]);
        lemma_take_edge(g, limits, seed, before, from, label, row[count - 1], count - 1);
    }
    if count < row.len() {
        assert(row.take(count + 1).drop_last() =~= row.take(count));
    }
}

/// An expansion keeps what holds of a traversal, and each shortens what is
/// left to do.
pub proof fn lemma_walk_step(
    g: SearchGraph,
    strategy: TraversalStrategy,
    limits: TraversalLimits,
    seed: u32,
    w: Walk,
)
    requires
        walk_inv(g, limits, seed, w),
    ensures
        walk_inv(g, limits, seed, walk_step(g, strategy, limits, w)),
        !finished(w) ==> {
            let after = walk_step(g, strategy, limits, w);
            after.order.len() - w.order.len() == after.pending.len() - w.pending.len() + 1
        },
        walk_step(g, strategy, limits, w).order.len() >= w.order.len(),
{
    if !finished(w) {
        let next = next_pending(strategy, w.pending);
        let at = w.pending[next];
        let rest = Walk { pending: w.pending.remove(next), ..w };
        assert(forall|i: int|
            0 <= i < rest.pending.len() ==> (#[trigger] rest.pending[i]) == w.pending[if i < next {
                i
            } else {
                i + 1
            }]);
        assert(walk_inv(g, limits, seed, rest));
        if w.order[at].label < limits.max_depth {
            let row = (g.adjacency)(w.order[at].node);
            lemma_take_edges(g, limits, seed, rest, at, w.order[at].label + 1, row.len() as int);
            assert(row.take(row.len() as int) =~= row);
        }
    }
}

/// A traversal keeps what holds of it.
pub proof fn lemma_walked(
    g: SearchGraph,
    strategy: TraversalStrategy,
    limits: TraversalLimits,
    seed: u32,
    steps: nat,
)
    ensures
        walk_inv(g, limits, seed, walked(g, strategy, limits, seed, steps)),
    decreases steps,
{
    if steps > 0 {
        lemma_walked(g, strategy, limits, seed, (steps - 1) as nat);
        lemma_walk_step(
            g,
            strategy,
            limits,
            seed,
            walked(g, strategy, limits, seed, (steps - 1) as nat),
        );
    }
}

/// A traversal of a bounded graph ends.
proof fn lemma_traversal_ends(
    g: SearchGraph,
    strategy: TraversalStrategy,
    limits: TraversalLimits,
    seed: u32,
    bound: nat,
    steps: nat,
) -> (end: nat)
    requires
        bounded(g, bound),
        seed < bound,
    ensures
        finished(walked(g, strategy, limits, seed, end)),
    decreases
            2 * (bound - walked(g, strategy, limits, seed, steps).order.len()) + walked(
                g,
                strategy,
                limits,
                seed,
                steps,
            ).pending.len(),
{
    let w = walked(g, strategy, limits, seed, steps);
    if finished(w) {
        steps
    } else {
        lemma_walked(g, strategy, limits, seed, steps);
        lemma_walked(g, strategy, limits, seed, steps + 1);
        lemma_walk_step(g, strategy, limits, seed, w);
        lemma_order_bounded(g, seed, walked(g, strategy, limits, seed, steps + 1).order, bound);
        lemma_traversal_ends(g, strategy, limits, seed, bound, steps + 1)
    }
}

/// The trail to a listed node has as many edges as the node's depth.
pub proof fn lemma_depth_is_length(
    g: SearchGraph,
    limits: TraversalLimits,
    seed: u32,
    w: Walk,
    at: int,
)
    requires
        walk_inv(g, limits, seed, w),
        0 <= at < w.order.len(),
    ensures
        trail(w.order, at).len() == w.order[at].label + 1,
    decreases at,
{
    if at > 0 {
        lemma_depth_is_length(g, limits, seed, w, w.order[at].from);
    }
}

/// A traversal lists no node twice, lists the seed first and no more nodes
/// than it may, and reaches each listed node along admitted edges, as many as
/// its depth says and no more than the depth limit.
pub proof fn law_traversal_follows_walks(
    g: SearchGraph,
    strategy: TraversalStrategy,
    limits: TraversalLimits,
    seed: u32,
    bound: nat,
    at: int,
)
    requires
        bounded(g, bound),
        seed < bound,
        0 <= at < traversal(g, strategy, limits, seed).len(),
    ensures
        ({
            let order = traversal(g, strategy, limits, seed);
            &&& distinct(order)
            &&& order[0] == root_visit(seed)
            &&& order.len() <= 1 || order.len() <= limits.max_nodes
            &&& at > 0 ==> order[at].label <= limits.max_depth
            &&& exists|walk: Seq<Neighbor>|
                #![trigger is_walk(g, seed, walk)]
                walk_between(g, seed, order[at].node, walk) && trail_follows(
                    trail(order, at),
                    seed,
                    walk,
                ) && walk.len() == order[at].label
        }),
{
    let end = lemma_traversal_ends(g, strategy, limits, seed, bound, 0);
    lemma_traversal(g, strategy, limits, seed, end);
    lemma_walked(g, strategy, limits, seed, end);
    let w = walked(g, strategy, limits, seed, end);
    let walk = lemma_trail_walk(g, seed, w.order, at);
    lemma_depth_is_length(g, limits, seed, w, at);
    assert(is_walk(g, seed, walk));
}

/// Limits that no graph of a size can reach.
pub open spec fn unlimited(limits: TraversalLimits, bound: nat) -> bool {
    limits.max_nodes >= bound && limits.max_frontier >= bound
}

/// Without limits, looking at edges is what a breadth-first search does.
proof fn lemma_take_is_absorb(
    g: SearchGraph,
    limits: TraversalLimits,
    seed: u32,
    w: Walk,
    from: int,
    label: int,
    bound: nat,
    count: int,
)
    requires
        walk_inv(g, limits, seed, w),
        !w.halted,
        bounded(g, bound),
        seed < bound,
        unlimited(limits, bound),
        w.pending.len() < w.order.len(),
        0 <= from < w.order.len(),
        label == w.order[from].label + 1,
        label <= limits.max_depth,
        0 <= count <= (g.adjacency)(w.order[from].node).len(),
    ensures
        ({
            let row = (g.adjacency)(w.order[from].node);
            let after = take_edges(g, limits, w, from, label, row.take(count));
            &&& !after.halted
            &&& after.order == absorb(g, w.order, from, label, row.take(count))
            &&& after.pending == w.pending + Seq::new(
                (after.order.len() - w.order.len()) as nat,
                |i: int| w.order.len() + i,
            )
        }),
    decreases count,
{
    let row = (g.adjacency)(w.order[from].node);
    let after = take_edges(g, limits, w, from, label, row.take(count));
    lemma_take_edges(g, limits, seed, w, from, label, count);
    if count > 0 {
        let before = take_edges(g, limits, w, from, label, row.take(count - 1));
        lemma_take_is_absorb(g, limits, seed, w, from, label, bound, count - 1);
        lemma_take_edges(g, limits, seed, w, from, label, count - 1);
        lemma_absorb_next(g, w.order, from, label, row, count - 1);
        lemma_order_bounded(g, seed, before.order, bound);
        let edge = row[count - 1];
        if (g.allows)(edge) && !discovered(before.order, edge.target) {
            let visit = Visit { node: edge.target, from, edge_type: edge.type_id, label };
            let more = Walk {
                order: before.order.push(visit),
                pending: before.pending.push(before.order.len() as int),
                halted: false,
            };
            assert(before.order.len() < bound) by {
                assert(before.order[from] == w.order[from]);
                assert(reaches(g, before.order[from].node, visit)) by {
                    assert((g.adjacency)(before.order[from].node)[count - 1] == edge);
                }
                lemma_one_more(g, seed, before.order, visit, bound);
            }
            assert(after == more);
        }
    }
    assert(after.pending =~= w.pending + Seq::new(
        (after.order.len() - w.order.len()) as nat,
        |i: int| w.order.len() + i,
    ));
}

/// A bounded order with room for one more node.
proof fn lemma_one_more(g: SearchGraph, seed: u32, order: Seq<Visit>, visit: Visit, bound: nat)
    requires
        rooted(g, seed, order),
        distinct(order),
        bounded(g, bound),
        seed < bound,
        !discovered(order, visit.node),
        0 <= visit.from < order.len(),
        reaches(g, order[visit.from].node, visit),
    ensures
        order.len() < bound,
{
    let more = order.push(visit);
    assert forall|i: int| 0 < i < more.len() implies {
        &&& 0 <= (#[trigger] more[i]).from < i
        &&& reaches(g, more[more[i].from].node, more[i])
    } by {
        if i < order.len() {
            assert(more[i] == order[i]);
            assert(more[order[i].from] == order[order[i].from]);
        }
    }
    assert forall|i: int, j: int| 0 <= i < j < more.len() implies (#[trigger] more[i]).node != (
    #[trigger] more[j]).node by {
        assert(more[i] == order[i]);
    }
    assert(more[0] == order[0]);
    lemma_order_bounded(g, seed, more, bound);
}

/// Without limits, a breadth-first traversal is a breadth-first search.
proof fn lemma_bfs_is_search(
    g: SearchGraph,
    limits: TraversalLimits,
    seed: u32,
    bound: nat,
    steps: nat,
)
    requires
        bounded(g, bound),
        seed < bound,
        unlimited(limits, bound),
        steps == 0 || !finished(
            walked(g, TraversalStrategy::Bfs, limits, seed, (steps - 1) as nat),
        ),
    ensures
        ({
            let w = walked(g, TraversalStrategy::Bfs, limits, seed, steps);
            &&& !w.halted
            &&& w.order == expanded(g, seed, limits.max_depth as int, steps)
            &&& steps <= w.order.len()
            &&& w.pending == Seq::new((w.order.len() - steps) as nat, |i: int| steps + i)
        }),
    decreases steps,
{
    let w = walked(g, TraversalStrategy::Bfs, limits, seed, steps);
    if steps == 0 {
        assert(w.pending =~= Seq::new((w.order.len() - steps) as nat, |i: int| steps + i));
    } else {
        let before = walked(g, TraversalStrategy::Bfs, limits, seed, (steps - 1) as nat);
        lemma_walked(g, TraversalStrategy::Bfs, limits, seed, (steps - 1) as nat);
        lemma_walk_step(g, TraversalStrategy::Bfs, limits, seed, before);
        lemma_bfs_is_search(g, limits, seed, bound, (steps - 1) as nat);
        assert(before.pending.len() > 0);
        let at = before.pending[0];
        assert(at == steps - 1);
        let rest = Walk { pending: before.pending.remove(0), ..before };
        assert(forall|i: int|
            0 <= i < rest.pending.len() ==> (#[trigger] rest.pending[i]) == before.pending[i + 1]);
        if before.order[at].label < limits.max_depth {
            let row = (g.adjacency)(before.order[at].node);
            lemma_take_is_absorb(
                g,
                limits,
                seed,
                rest,
                at,
                before.order[at].label + 1,
                bound,
                row.len() as int,
            );
            assert(row.take(row.len() as int) =~= row);
        }
        assert(w.pending =~= Seq::new((w.order.len() - steps) as nat, |i: int| steps + i));
    }
}

/// Without limits on nodes, a breadth-first traversal lists a node exactly when
/// an admitted walk within the depth limit leads to it, and at the length of
/// the shortest such walk.
pub proof fn law_breadth_first_lists_reachable(
    g: SearchGraph,
    limits: TraversalLimits,
    seed: u32,
    bound: nat,
    node: u32,
)
    requires
        bounded(g, bound),
        seed < bound,
        unlimited(limits, bound),
        0 <= limits.max_depth,
    ensures
        ({
            let order = traversal(g, TraversalStrategy::Bfs, limits, seed);
            &&& discovered(order, node) <==> exists|walk: Seq<Neighbor>| #[trigger]
                walk_between(g, seed, node, walk) && walk.len() <= limits.max_depth
            &&& forall|i: int, walk: Seq<Neighbor>|
                0 <= i < order.len() && (#[trigger] order[i]).node == node && (
                #[trigger] walk_between(g, seed, node, walk)) ==> order[i].label <= walk.len()
        }),
{
    let strategy = TraversalStrategy::Bfs;
    let depth = limits.max_depth as int;
    let order = traversal(g, strategy, limits, seed);
    let end = lemma_bfs_end(g, limits, seed, bound, 0);
    lemma_traversal(g, strategy, limits, seed, end);
    lemma_expanded(g, seed, depth, end);
    lemma_order_bounded(g, seed, order, bound);
    assert(order == expanded(g, seed, depth, end));
    assert(order.len() == end);
    if discovered(order, node) {
        let at = position_of(order, node);
        law_traversal_follows_walks(g, strategy, limits, seed, bound, at);
        let walk = choose|walk: Seq<Neighbor>|
            #![trigger is_walk(g, seed, walk)]
            walk_between(g, seed, order[at].node, walk) && trail_follows(
                trail(order, at),
                seed,
                walk,
            ) && walk.len() == order[at].label;
        assert(walk_between(g, seed, node, walk));
    }
    assert forall|walk: Seq<Neighbor>|
        #[trigger] walk_between(g, seed, node, walk) && walk.len() <= depth implies discovered(
        order,
        node,
    ) by {
        lemma_walk_is_found(g, seed, depth, order, walk, walk.len() as int);
    }
    assert forall|i: int, walk: Seq<Neighbor>|
        0 <= i < order.len() && (#[trigger] order[i]).node == node && (#[trigger] walk_between(
            g,
            seed,
            node,
            walk,
        )) implies order[i].label <= walk.len() by {
        if walk.len() <= depth {
            lemma_walk_is_found(g, seed, depth, order, walk, walk.len() as int);
            let j = choose|j: int|
                0 <= j < order.len() && (#[trigger] order[j]).node == node && order[j].label
                    <= walk.len();
            if i < j {
                assert(order[i].node != order[j].node);
            } else if j < i {
                assert(order[j].node != order[i].node);
            }
        }
    }
}

/// When a breadth-first traversal ends it has expanded what it lists.
proof fn lemma_bfs_end(
    g: SearchGraph,
    limits: TraversalLimits,
    seed: u32,
    bound: nat,
    steps: nat,
) -> (end: nat)
    requires
        bounded(g, bound),
        seed < bound,
        unlimited(limits, bound),
        steps == 0 || !finished(
            walked(g, TraversalStrategy::Bfs, limits, seed, (steps - 1) as nat),
        ),
    ensures
        ({
            let w = walked(g, TraversalStrategy::Bfs, limits, seed, end);
            &&& finished(w)
            &&& w.order == expanded(g, seed, limits.max_depth as int, end)
            &&& w.order.len() == end
        }),
    decreases bound - steps,
{
    let w = walked(g, TraversalStrategy::Bfs, limits, seed, steps);
    lemma_bfs_is_search(g, limits, seed, bound, steps);
    lemma_expanded(g, seed, limits.max_depth as int, steps);
    lemma_order_bounded(g, seed, w.order, bound);
    if finished(w) {
        steps
    } else {
        lemma_bfs_end(g, limits, seed, bound, steps + 1)
    }
}

/// Whether limits leave at least as much room as others.
pub open spec fn roomier(limits: TraversalLimits, other: TraversalLimits) -> bool {
    &&& limits.max_depth == other.max_depth
    &&& limits.max_nodes >= other.max_nodes
    &&& limits.max_frontier >= other.max_frontier
}

/// Whether a traversal is at the same place as one with more room, or was
/// stopped on the way.
pub open spec fn keeps_up(tight: Walk, roomy: Walk) -> bool {
    &&& tight.order.len() <= roomy.order.len()
    &&& tight.order == roomy.order.take(tight.order.len() as int)
    &&& !tight.halted ==> tight == roomy
}

proof fn lemma_edges_keep_up(
    g: SearchGraph,
    limits: TraversalLimits,
    other: TraversalLimits,
    tight: Walk,
    roomy: Walk,
    from: int,
    label: int,
    edges: Seq<Neighbor>,
)
    requires
        roomier(other, limits),
        keeps_up(tight, roomy),
    ensures
        keeps_up(
            take_edges(g, limits, tight, from, label, edges),
            take_edges(g, other, roomy, from, label, edges),
        ),
        tight.halted ==> take_edges(g, limits, tight, from, label, edges) == tight,
        roomy.order.len() <= take_edges(g, other, roomy, from, label, edges).order.len(),
    decreases edges.len(),
{
    assert(roomy.order.take(roomy.order.len() as int) =~= roomy.order);
    if edges.len() > 0 {
        lemma_edges_keep_up(g, limits, other, tight, roomy, from, label, edges.drop_last());
        let small = take_edges(g, limits, tight, from, label, edges.drop_last());
        let large = take_edges(g, other, roomy, from, label, edges.drop_last());
        let after_small = take_edge(g, limits, small, from, label, edges.last());
        let after_large = take_edge(g, other, large, from, label, edges.last());
        assert(after_small.order =~= after_large.order.take(after_small.order.len() as int)) by {
            assert(small.order =~= large.order.take(small.order.len() as int));
        }
    }
}

proof fn lemma_walk_keeps_up(
    g: SearchGraph,
    strategy: TraversalStrategy,
    limits: TraversalLimits,
    other: TraversalLimits,
    seed: u32,
    steps: nat,
)
    requires
        roomier(other, limits),
    ensures
        keeps_up(
            walked(g, strategy, limits, seed, steps),
            walked(g, strategy, other, seed, steps),
        ),
    decreases steps,
{
    if steps > 0 {
        lemma_walk_keeps_up(g, strategy, limits, other, seed, (steps - 1) as nat);
        let tight = walked(g, strategy, limits, seed, (steps - 1) as nat);
        let roomy = walked(g, strategy, other, seed, (steps - 1) as nat);
        if !finished(roomy) {
            let next = next_pending(strategy, roomy.pending);
            let at = roomy.pending[next];
            let rest = Walk { pending: roomy.pending.remove(next), ..roomy };
            let tight_rest = if tight.halted {
                tight
            } else {
                rest
            };
            assert(keeps_up(tight_rest, rest)) by {
                assert(rest.order.take(rest.order.len() as int) =~= rest.order);
            }
            if roomy.order[at].label < limits.max_depth {
                lemma_edges_keep_up(
                    g,
                    limits,
                    other,
                    tight_rest,
                    rest,
                    at,
                    roomy.order[at].label + 1,
                    (g.adjacency)(roomy.order[at].node),
                );
            }
        }
    } else {
        let start = start_walk(seed);
        assert(start.order.take(1) =~= start.order);
    }
}

/// A traversal with less room lists a beginning of what one with more room
/// lists, and the whole of it unless a limit stopped it.
pub proof fn law_limits_keep_a_beginning(
    g: SearchGraph,
    strategy: TraversalStrategy,
    limits: TraversalLimits,
    other: TraversalLimits,
    seed: u32,
    bound: nat,
)
    requires
        bounded(g, bound),
        seed < bound,
        roomier(other, limits),
    ensures
        ({
            let short = traversal(g, strategy, limits, seed);
            let long = traversal(g, strategy, other, seed);
            &&& short.len() <= long.len()
            &&& short == long.take(short.len() as int)
        }),
{
    let end = lemma_traversal_ends(g, strategy, limits, seed, bound, 0);
    let other_end = lemma_traversal_ends(g, strategy, other, seed, bound, 0);
    let last = if end < other_end {
        other_end
    } else {
        end
    };
    lemma_finished_stays(g, strategy, limits, seed, end, last);
    lemma_finished_stays(g, strategy, other, seed, other_end, last);
    lemma_traversal(g, strategy, limits, seed, last);
    lemma_traversal(g, strategy, other, seed, last);
    lemma_walk_keeps_up(g, strategy, limits, other, seed, last);
}

/// Which edge types a traversal follows.
#[derive(Debug)]
pub enum EdgeTypeFilter {
    All,
    NoneMatched,
    Only(RoaringBitmap),
}

impl EdgeTypeFilter {
    /// Whether edges of a type are followed.
    pub open spec fn passes(&self, type_id: EdgeTypeId) -> bool {
        match self {
            EdgeTypeFilter::All => true,
            EdgeTypeFilter::NoneMatched => false,
            EdgeTypeFilter::Only(types) => bitmap_contents(*types).contains(type_id.0),
        }
    }

    /// Whether edges of a type are followed.
    pub fn allows(&self, type_id: EdgeTypeId) -> (passes: bool)
        ensures
            passes == self.passes(type_id),
    {
        match self {
            EdgeTypeFilter::All => true,
            EdgeTypeFilter::NoneMatched => false,
            EdgeTypeFilter::Only(types) => types.contains(type_id.0),
        }
    }
}

/// What a traversal may see.
pub struct TraversalScope<'a> {
    pub filter_index: &'a FilterIndex,
    pub edge_types: &'a EdgeTypeFilter,
    pub filter_ops: &'a [FilterOp],
    /// The tenant whose nodes are shown; all nodes are, where there is none.
    pub tenant: Option<&'a str>,
    pub tenanted_table_oids: &'a RoaringBitmap,
    pub tenant_membership: &'a TenantMembership,
    /// Nodes that the running transaction has deleted.
    pub deleted_nodes: &'a RoaringBitmap,
}

impl<'a> TraversalScope<'a> {
    /// Whether a node is shown to the tenant: its table is not divided among
    /// tenants, or the node is the tenant's.
    pub open spec fn tenant_sees(&self, nodes: &NodeStore, node: u32) -> bool {
        match self.tenant {
            None => true,
            Some(tenant) => !bitmap_contents(*self.tenanted_table_oids).contains(
                nodes.nodes()[node as int].table_oid,
            ) || members(self.tenant_membership@, tenant@).contains(node),
        }
    }

    /// Whether a node can be listed: it is live, shown to the tenant, and
    /// satisfies every filter.
    pub open spec fn shows(&self, nodes: &NodeStore, node: u32) -> bool {
        &&& nodes.live(node)
        &&& !bitmap_contents(*self.deleted_nodes).contains(node)
        &&& self.tenant_sees(nodes, node)
        &&& forall|i: int|
            0 <= i < self.filter_ops@.len() ==> filter_holds(
                *self.filter_index,
                node,
                #[trigger] self.filter_ops@[i],
                None,
            )
    }

    /// The graph that is traversed.
    pub open spec fn graph<N: NeighborSource>(&self, nodes: &NodeStore, neighbors: &N) -> SearchGraph {
        SearchGraph {
            adjacency: |node: u32| neighbors.adjacency(node),
            allows: |edge: Neighbor|
                self.edge_types.passes(edge.type_id) && self.shows(nodes, edge.target),
        }
    }

    /// Whether an edge may be followed.
    fn follows(&self, nodes: &NodeStore, edge: Neighbor) -> (allowed: bool)
        requires
            nodes.wf(),
            self.filter_index.sound(),
            self.tenant_membership.wf(),
        ensures
            allowed == (self.edge_types.passes(edge.type_id) && self.shows(nodes, edge.target)),
    {
        if !self.edge_types.allows(edge.type_id) || !nodes.is_active(edge.target)
            || self.deleted_nodes.contains(edge.target) {
            return false;
        }
        if let Some(tenant) = self.tenant {
            let table: u32 = match nodes.table_oid(edge.target) {
                Some(table) => table,
                None => return false,
            };
            if self.tenanted_table_oids.contains(table) && !self.tenant_membership.contains(
                tenant,
                edge.target,
            ) {
                return false;
            }
        }
        self.filter_index.check_filters(edge.target, self.filter_ops)
    }
}

/// A node that a traversal lists.
#[derive(Debug, Clone, Copy, PartialEq, Eq, Structural)]
pub struct TraversalVisit {
    pub node: u32,
    /// Position of the node it was found from.
    pub from: u32,
    /// Type of the edge it was found by.
    pub edge_type: EdgeTypeId,
    pub depth: i32,
}

/// What listed nodes say.
pub open spec fn visit_views(visits: Seq<TraversalVisit>) -> Seq<Visit> {
    Seq::new(
        visits.len(),
        |i: int|
            Visit {
                node: visits[i].node,
                from: visits[i].from as int,
                edge_type: visits[i].edge_type,
                label: visits[i].depth as int,
            },
    )
}

/// Positions as numbers.
pub open spec fn positions(pending: Seq<u32>) -> Seq<int> {
    Seq::new(pending.len(), |i: int| pending[i] as int)
}

/// Takes the next waiting node.
fn pop_pending(pending: &mut VecDeque<u32>, strategy: TraversalStrategy) -> (at: u32)
    requires
        old(pending)@.len() > 0,
    ensures
        at == positions(old(pending)@)[next_pending(strategy, positions(old(pending)@))],
        positions(final(pending)@) == positions(old(pending)@).remove(
            next_pending(strategy, positions(old(pending)@)),
        ),
{
    let taken: Option<u32> = match strategy {
        TraversalStrategy::Bfs => pending.pop_front(),
        TraversalStrategy::Dfs => pending.pop_back(),
    };
    assert(positions(pending@) =~= positions(old(pending)@).remove(
        next_pending(strategy, positions(old(pending)@)),
    ));
    match taken {
        Some(at) => at,
        None => 0,
    }
}

/// A node that is listed is marked.
proof fn lemma_visited_more(order: Seq<Visit>, visit: Visit, marked: Set<u32>)
    requires
        exists|before: Set<u32>|
            #[trigger] visited_matches(order, before) && marked == before.insert(visit.node),
    ensures
        visited_matches(order.push(visit), marked),
{
    let more = order.push(visit);
    assert forall|node: u32| #[trigger] marked.contains(node) <==> discovered(more, node) by {
        if discovered(more, node) {
            let i = position_of(more, node);
            if i < order.len() {
                assert(order[i].node == node);
            }
        }
        if discovered(order, node) {
            let i = position_of(order, node);
            assert(more[i].node == node);
        }
        assert(more[order.len() as int].node == visit.node);
    }
}

/// Lists nodes from a seed. Every edge that is looked at is a unit of work.
#[verifier::spinoff_prover]
#[verifier::rlimit(60)]
pub fn execute_traversal<N: NeighborSource>(
    node_store: &NodeStore,
    neighbors: &N,
    scope: &TraversalScope<'_>,
    seed: u32,
    strategy: TraversalStrategy,
    limits: TraversalLimits,
    governor: &mut ResourceGovernor,
) -> (result: GraphResult<Vec<TraversalVisit>>)
    requires
        node_store.addressable(),
        seed < node_store.nodes().len(),
        scope.filter_index.sound(),
        scope.tenant_membership.wf(),
    ensures
        ({
            let g = scope.graph(node_store, neighbors);
            let work = traversal_work(g, strategy, limits, seed) as int;
            &&& charged(old(governor)@, final(governor)@, work)
            &&& match result {
                Ok(visits) => {
                    &&& visit_views(visits@) == traversal(g, strategy, limits, seed)
                    &&& forall|i: int|
                        0 <= i < visits@.len() ==> (#[trigger] visits@[i]).node
                            < node_store.nodes().len()
                    &&& old(governor)@.affords(work)
                    &&& final(governor)@ == old(governor)@.after_work(work)
                },
                Err(error) => {
                    &&& error@ == limit_error(ResourcePhase::QueryExpand, ResourceKind::Work)
                    &&& !old(governor)@.affords(work)
                },
            }
        }),
{
    let ghost g = scope.graph(node_store, neighbors);
    let ghost total = node_store.nodes().len();
    let mut visited = RoaringBitmap::new();
    let mut visits: Vec<TraversalVisit> = Vec::new();
    let mut pending: VecDeque<u32> = VecDeque::new();
    let mut halted: bool = false;
    visited.insert(seed);
    visits.push(TraversalVisit { node: seed, from: 0, edge_type: EdgeTypeId::untyped(), depth: 0 });
    pending.push_back(0);
    let ghost mut steps: nat = 0;
    let ghost work = traversal_work(g, strategy, limits, seed) as int;
    let ghost mut used: int = 0;
    proof {
        let start = start_walk(seed);
        assert(visit_views(visits@) =~= start.order);
        assert(positions(pending@) =~= start.pending);
        assert(start.order[0].node == seed);
        assert(discovered(start.order, seed));
        assert(bounded(g, total));
    }
    while !halted && pending.len() > 0
        invariant
            g == scope.graph(node_store, neighbors),
            total == node_store.nodes().len(),
            node_store.addressable(),
            seed < total,
            bounded(g, total),
            scope.filter_index.sound(),
            scope.tenant_membership.wf(),
            ({
                let w = walked(g, strategy, limits, seed, steps);
                &&& visit_views(visits@) == w.order
                &&& positions(pending@) == w.pending
                &&& halted == w.halted
            }),
            visited_matches(visit_views(visits@), bitmap_contents(visited)),
            work == traversal_work(g, strategy, limits, seed),
            used == walked_work(g, strategy, limits, seed, steps),
            governor@ == old(governor)@.after_work(used),
            old(governor)@.affords(used),
        decreases 2 * (total - visits@.len()) + pending@.len(),
    {
        let ghost w = walked(g, strategy, limits, seed, steps);
        let ghost next = next_pending(strategy, w.pending);
        let ghost rest = Walk { pending: w.pending.remove(next), ..w };
        proof {
            lemma_walked(g, strategy, limits, seed, steps);
            lemma_order_bounded(g, seed, w.order, total);
            assert(w.pending[next] == positions(pending@)[next]);
        }
        let at: u32 = pop_pending(&mut pending, strategy);
        assert(visit_views(visits@)[at as int] == w.order[at as int]);
        let current: TraversalVisit = visits[at as usize];
        let ghost after = walked(g, strategy, limits, seed, steps + 1);
        proof {
            lemma_walk_step(g, strategy, limits, seed, w);
            lemma_walked(g, strategy, limits, seed, steps + 1);
            lemma_order_bounded(g, seed, after.order, total);
            lemma_walked_work(g, strategy, limits, seed, total, steps + 1);
        }
        let ghost whole = walked_work(g, strategy, limits, seed, steps + 1) as int;
        if current.depth >= limits.max_depth {
            proof {
                assert(after == rest);
                steps = steps + 1;
            }
            continue ;
        }
        let row: Vec<Neighbor> = neighbors.neighbors(current.node);
        let ghost label = w.order[at as int].label + 1;
        let mut edge_at: usize = 0;
        proof {
            assert(row@ == (g.adjacency)(w.order[at as int].node));
            assert(row@.take(0) =~= Seq::empty());
            assert(forall|i: int|
                0 <= i < rest.pending.len() ==> (#[trigger] rest.pending[i]) == w.pending[if i
                    < next {
                    i
                } else {
                    i + 1
                }]);
            assert(walk_inv(g, limits, seed, rest));
        }
        while edge_at < row.len()
            invariant
                g == scope.graph(node_store, neighbors),
                total == node_store.nodes().len(),
                node_store.addressable(),
                bounded(g, total),
                seed < total,
                scope.filter_index.sound(),
                scope.tenant_membership.wf(),
                edge_at <= row@.len(),
                walk_inv(g, limits, seed, rest),
                at < rest.order.len(),
                row@ == (g.adjacency)(rest.order[at as int].node),
                label == rest.order[at as int].label + 1,
                label <= limits.max_depth,
                current.depth + 1 == label,
                ({
                    let here = take_edges(
                        g,
                        limits,
                        rest,
                        at as int,
                        label,
                        row@.take(edge_at as int),
                    );
                    &&& visit_views(visits@) == here.order
                    &&& positions(pending@) == here.pending
                    &&& halted == here.halted
                }),
                visited_matches(visit_views(visits@), bitmap_contents(visited)),
                work == traversal_work(g, strategy, limits, seed),
                0 <= used,
                used + row@.len() - edge_at <= work,
                used + row@.len() - edge_at == whole,
                governor@ == old(governor)@.after_work(used),
                old(governor)@.affords(used),
            decreases row@.len() - edge_at,
        {
            let edge: Neighbor = row[edge_at];
            let ghost here = take_edges(g, limits, rest, at as int, label, row@.take(edge_at as int));
            proof {
                lemma_take_edges(g, limits, seed, rest, at as int, label, edge_at as int);
                lemma_order_bounded(g, seed, here.order, total);
            }
            if let Err(error) = governor.consume_work(ResourcePhase::QueryExpand, 1) {
                return Err(error);
            }
            proof {
                used = used + 1;
            }
            if !halted && scope.follows(node_store, edge) && !visited.contains(edge.target) {
                assert(!discovered(here.order, edge.target));
                if visits.len() >= limits.max_nodes as usize || pending.len()
                    >= limits.max_frontier as usize {
                    halted = true;
                } else {
                    let ghost before = visits@;
                    let ghost waiting_before = pending@;
                    let place: u32 = visits.len() as u32;
                    visited.insert(edge.target);
                    visits.push(
                        TraversalVisit {
                            node: edge.target,
                            from: at,
                            edge_type: edge.type_id,
                            depth: current.depth + 1,
                        },
                    );
                    pending.push_back(place);
                    proof {
                        let visit = Visit {
                            node: edge.target,
                            from: at as int,
                            edge_type: edge.type_id,
                            label,
                        };
                        assert(visit_views(visits@) =~= visit_views(before).push(visit));
                        assert(positions(pending@) =~= positions(waiting_before).push(
                            place as int,
                        ));
                        lemma_visited_more(visit_views(before), visit, bitmap_contents(visited));
                    }
                }
            }
            edge_at = edge_at + 1;
        }
        proof {
            assert(row@.take(row@.len() as int) =~= row@);
            steps = steps + 1;
        }
    }
    proof {
        lemma_traversal(g, strategy, limits, seed, steps);
        lemma_walked_work(g, strategy, limits, seed, total, steps);
        lemma_walked(g, strategy, limits, seed, steps);
        lemma_order_bounded(g, seed, walked(g, strategy, limits, seed, steps).order, total);
        assert forall|i: int| 0 <= i < visits@.len() implies (#[trigger] visits@[i]).node
            < total by {
            assert(visit_views(visits@)[i].node == visits@[i].node);
        }
    }
    Ok(visits)
}

/// What a traversal lists for one of its nodes.
pub open spec fn traversal_row(
    nodes: Seq<NodeView>,
    order: Seq<Visit>,
    at: int,
    labels: spec_fn(EdgeTypeId) -> Seq<char>,
) -> TraversalResultView {
    let steps = trail(order, at);
    TraversalResultView {
        node_table: nodes[order[at].node as int].table_oid,
        node_id: nodes[order[at].node as int].key,
        depth: order[at].label,
        path: Seq::new(
            steps.len(),
            |i: int| (nodes[steps[i].0 as int].table_oid, nodes[steps[i].0 as int].key),
        ),
        edge_path: Seq::new((steps.len() - 1) as nat, |i: int| labels(steps[i + 1].1)),
    }
}

/// What a traversal lists.
pub open spec fn traversal_rows(
    nodes: Seq<NodeView>,
    order: Seq<Visit>,
    labels: spec_fn(EdgeTypeId) -> Seq<char>,
) -> Seq<TraversalResultView> {
    Seq::new(order.len(), |i: int| traversal_row(nodes, order, i, labels))
}

/// The trail to a listed node.
fn visit_trail(visits: &Vec<TraversalVisit>, at: usize) -> (steps: Vec<(u32, EdgeTypeId)>)
    requires
        at < visits@.len(),
    ensures
        steps@ == trail(visit_views(visits@), at as int),
        forall|i: int|
            0 <= i < steps@.len() ==> exists|j: int|
                0 <= j < visits@.len() && (#[trigger] visits@[j]).node == (
                #[trigger] steps@[i]).0,
{
    let ghost order = visit_views(visits@);
    let mut reversed: Vec<(u32, EdgeTypeId)> = Vec::new();
    let mut here: usize = at;
    reversed.push((visits[here].node, visits[here].edge_type));
    proof {
        assert(order[at as int].from == visits@[at as int].from);
        assert(trail(order, at as int) =~= before_trail(order, at as int) + reversed@.reverse());
        assert(visits@[at as int].node == reversed@[0].0);
    }
    while (visits[here].from as usize) < here
        invariant
            here < visits@.len(),
            order == visit_views(visits@),
            trail(order, at as int) == before_trail(order, here as int) + reversed@.reverse(),
            reversed@.len() > 0,
            forall|i: int|
                0 <= i < reversed@.len() ==> exists|j: int|
                    0 <= j < visits@.len() && (#[trigger] visits@[j]).node == (
                    #[trigger] reversed@[i]).0,
        decreases here,
    {
        let ghost before = reversed@;
        let ghost below = here as int;
        here = visits[here].from as usize;
        reversed.push((visits[here].node, visits[here].edge_type));
        proof {
            let step = (visits@[here as int].node, visits@[here as int].edge_type);
            assert(order[below].from == here as int);
            assert(order[here as int].node == step.0 && order[here as int].edge_type == step.1);
            assert(reversed@.reverse() =~= seq![step] + before.reverse());
            assert(before_trail(order, below) =~= before_trail(order, here as int).push(step)) by {
                assert(order[here as int].from == visits@[here as int].from);
            }
            assert(before_trail(order, here as int).push(step) + before.reverse() =~= before_trail(
                order,
                here as int,
            ) + (seq![step] + before.reverse()));
            assert forall|i: int| 0 <= i < reversed@.len() implies exists|j: int|
                0 <= j < visits@.len() && (#[trigger] visits@[j]).node == (
                #[trigger] reversed@[i]).0 by {
                if i < before.len() {
                    assert(reversed@[i] == before[i]);
                } else {
                    assert(visits@[here as int].node == reversed@[i].0);
                }
            }
        }
    }
    proof {
        assert(order[here as int].from == visits@[here as int].from);
        assert(before_trail(order, here as int) =~= Seq::empty());
        assert(trail(order, at as int) =~= reversed@.reverse());
    }
    let mut steps: Vec<(u32, EdgeTypeId)> = Vec::new();
    let mut left: usize = reversed.len();
    while left > 0
        invariant
            left <= reversed@.len(),
            steps@.len() == reversed@.len() - left,
            forall|i: int| 0 <= i < steps@.len() ==> #[trigger] steps@[i] == reversed@.reverse()[i],
        decreases left,
    {
        left = left - 1;
        steps.push(reversed[left]);
    }
    proof {
        assert(steps@ =~= reversed@.reverse());
        assert forall|i: int| 0 <= i < steps@.len() implies exists|j: int|
            0 <= j < visits@.len() && (#[trigger] visits@[j]).node == (#[trigger] steps@[i]).0 by {
            assert(steps@[i] == reversed@[reversed@.len() - 1 - i]);
        }
    }
    steps
}

/// A trail without its end.
spec fn before_trail(order: Seq<Visit>, at: int) -> Seq<(u32, EdgeTypeId)> {
    if 0 <= order[at].from < at {
        trail(order, order[at].from)
    } else {
        Seq::empty()
    }
}

/// The row of one listed node.
fn traversal_result(
    visits: &Vec<TraversalVisit>,
    at: usize,
    node_store: &NodeStore,
    labels: EdgeTypeLabels<'_>,
) -> (row: TraversalResult)
    requires
        node_store.wf(),
        at < visits@.len(),
        forall|i: int|
            0 <= i < visits@.len() ==> (#[trigger] visits@[i]).node < node_store.nodes().len(),
    ensures
        row@ == traversal_row(
            node_store.nodes(),
            visit_views(visits@),
            at as int,
            |type_id: EdgeTypeId| labels.label(type_id),
        ),
{
    let steps: Vec<(u32, EdgeTypeId)> = visit_trail(visits, at);
    let ghost order = visit_views(visits@);
    let ghost names = |type_id: EdgeTypeId| labels.label(type_id);
    let mut path: Vec<PathCoordinate> = Vec::new();
    let mut edge_path: Vec<String> = Vec::new();
    let mut index: usize = 0;
    while index < steps.len()
        invariant
            index <= steps@.len(),
            node_store.wf(),
            forall|i: int|
                0 <= i < visits@.len() ==> (#[trigger] visits@[i]).node
                    < node_store.nodes().len(),
            forall|i: int|
                0 <= i < steps@.len() ==> exists|j: int|
                    0 <= j < visits@.len() && (#[trigger] visits@[j]).node == (
                    #[trigger] steps@[i]).0,
            path@.len() == index,
            edge_path@.len() == if index == 0 {
                0
            } else {
                index - 1
            },
            forall|i: int|
                0 <= i < path@.len() ==> (#[trigger] path@[i]).table_oid.0
                    == node_store.nodes()[steps@[i].0 as int].table_oid && path@[i].node_id@
                    == node_store.nodes()[steps@[i].0 as int].key,
            forall|i: int|
                0 <= i < edge_path@.len() ==> (#[trigger] edge_path@[i])@ == labels.label(
                    steps@[i + 1].1,
                ),
        decreases steps@.len() - index,
    {
        let (node, edge_type): (u32, EdgeTypeId) = steps[index];
        proof {
            let j = choose|j: int|
                0 <= j < visits@.len() && (#[trigger] visits@[j]).node == steps@[index as int].0;
            assert(visits@[j].node < node_store.nodes().len());
        }
        let table: u32 = match node_store.table_oid(node) {
            Some(oid) => oid,
            None => 0,
        };
        let key: String = match node_store.primary_key(node) {
            Some(text) => text.to_owned(),
            None => String::new(),
        };
        path.push(PathCoordinate { table_oid: TableOid(table), node_id: key });
        if index > 0 {
            edge_path.push(resolve_edge_type_label(labels, edge_type));
        }
        index = index + 1;
    }
    let visit: TraversalVisit = visits[at];
    let table: u32 = match node_store.table_oid(visit.node) {
        Some(oid) => oid,
        None => 0,
    };
    let key: String = match node_store.primary_key(visit.node) {
        Some(text) => text.to_owned(),
        None => String::new(),
    };
    let row = TraversalResult {
        node_table: TableOid(table),
        node_id: key,
        depth: visit.depth,
        path,
        edge_path,
    };
    proof {
        let expected = traversal_row(node_store.nodes(), order, at as int, names);
        assert(order[at as int].node == visit.node && order[at as int].label == visit.depth);
        assert(trail(order, at as int).len() > 0);
        assert(row@.path =~= expected.path);
        assert(row@.edge_path =~= expected.edge_path);
    }
    row
}

/// The rows of a traversal.
pub fn to_traversal_results(
    visits: &Vec<TraversalVisit>,
    node_store: &NodeStore,
    labels: EdgeTypeLabels<'_>,
) -> (rows: Vec<TraversalResult>)
    requires
        node_store.wf(),
        forall|i: int|
            0 <= i < visits@.len() ==> (#[trigger] visits@[i]).node < node_store.nodes().len(),
    ensures
        traversal_views(rows@) == traversal_rows(
            node_store.nodes(),
            visit_views(visits@),
            |type_id: EdgeTypeId| labels.label(type_id),
        ),
{
    let mut rows: Vec<TraversalResult> = Vec::new();
    let mut at: usize = 0;
    while at < visits.len()
        invariant
            at <= visits@.len(),
            rows@.len() == at,
            node_store.wf(),
            forall|i: int|
                0 <= i < visits@.len() ==> (#[trigger] visits@[i]).node
                    < node_store.nodes().len(),
            forall|i: int|
                0 <= i < at ==> (#[trigger] rows@[i])@ == traversal_row(
                    node_store.nodes(),
                    visit_views(visits@),
                    i,
                    |type_id: EdgeTypeId| labels.label(type_id),
                ),
        decreases visits@.len() - at,
    {
        rows.push(traversal_result(visits, at, node_store, labels));
        at = at + 1;
    }
    assert(traversal_views(rows@) =~= traversal_rows(
        node_store.nodes(),
        visit_views(visits@),
        |type_id: EdgeTypeId| labels.label(type_id),
    ));
    rows
}

} // verus!
