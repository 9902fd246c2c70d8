//! What a traversal lists: every node that it should, in breadth-first or
//! depth-first order, each with the walk that leads to it.
use vstd::prelude::*;

use crate::bitmap::bitmap_contents;
use crate::engine::Engine;
use crate::engine_nodes::resolved;
use crate::engine_paths::registered_label;
use crate::engine_traversal::TraversalRequest;
use crate::filter_index::filter_holds;
use crate::neighbors::Neighbor;
use crate::overlay::TxDelta;
use crate::resource::GovernorView;
use crate::scan_edges::label_views;
use crate::search::{
    bounded, discovered, is_walk, root_visit, stands_at, trail, trail_follows, walk_between,
    SearchGraph, Visit,
};
use crate::traversal::{
    finished, law_traversal_follows_walks, lemma_traversal, lemma_walk_ends, next_pending,
    start_walk, take_edge, take_edges, traversal, traversal_row, walk_step, walked, TraversalLimits,
    Walk,
};
use crate::types::{EdgeTypeId, TraversalResultView, TraversalStrategy};

verus! {

/// Whether every edge of a node that may be followed leads to a found node.
pub open spec fn all_found(g: SearchGraph, order: Seq<Visit>, node: u32) -> bool {
    forall|k: int|
        0 <= k < (g.adjacency)(node).len() && (g.allows)(#[trigger] (g.adjacency)(node)[k])
            ==> exists|j: int|
            0 <= j < order.len() && (#[trigger] order[j]).node == (g.adjacency)(node)[k].target
}

/// What looking at edges leaves: earlier nodes stay, new ones wait in the order
/// in which they were found, and unless a limit was hit every edge that may be
/// followed leads to a found node.
proof fn lemma_edges_taken(
    g: SearchGraph,
    limits: TraversalLimits,
    w: Walk,
    from: int,
    label: int,
    edges: Seq<Neighbor>,
)
    ensures
        ({
            let after = take_edges(g, limits, w, from, label, edges);
            &&& w.order.len() <= after.order.len()
            &&& forall|i: int| 0 <= i < w.order.len() ==> #[trigger] after.order[i] == w.order[i]
            &&& after.pending.len() - w.pending.len() == after.order.len() - w.order.len()
            &&& forall|i: int| 0 <= i < w.pending.len() ==> #[trigger] after.pending[i] == w.pending[i]
            &&& forall|i: int|
                w.pending.len() <= i < after.pending.len() ==> #[trigger] after.pending[i]
                    == w.order.len() + i - w.pending.len()
            &&& forall|i: int|
                w.order.len() <= i < after.order.len() ==> (#[trigger] after.order[i]).from == from
            &&& !after.halted ==> !w.halted && forall|k: int|
                0 <= k < edges.len() && (g.allows)(#[trigger] edges[k]) ==> discovered(
                    after.order,
                    edges[k].target,
                )
            &&& after.halted && !w.halted ==> after.order.len() >= limits.max_nodes
                || after.pending.len() >= limits.max_frontier
        }),
    decreases edges.len(),
{
    if edges.len() > 0 {
        let rest = edges.drop_last();
        lemma_edges_taken(g, limits, w, from, label, rest);
        let before = take_edges(g, limits, w, from, label, rest);
        let after = take_edge(g, limits, before, from, label, edges.last());
        if !after.halted {
            assert forall|k: int| 0 <= k < edges.len() && (g.allows)(#[trigger] edges[k]) implies
                discovered(after.order, edges[k].target) by {
                if k < rest.len() {
                    assert(rest[k] == edges[k]);
                    let j = choose|j: int|
                        0 <= j < before.order.len() && (#[trigger] before.order[j]).node
                            == edges[k].target;
                    assert(after.order[j].node == edges[k].target);
                } else if discovered(before.order, edges[k].target) {
                    let j = choose|j: int|
                        0 <= j < before.order.len() && (#[trigger] before.order[j]).node
                            == edges[k].target;
                    assert(after.order[j].node == edges[k].target);
                } else {
                    assert(after.order[before.order.len() as int].node == edges[k].target);
                }
            }
        }
    }
}

/// What holds of the waiting nodes at every moment: they stand in the order in
/// which they were found; a node that waits no more has had its edges followed,
/// unless it is at the depth limit; and it took its turn as the strategy says.
spec fn fair(
    g: SearchGraph,
    strategy: TraversalStrategy,
    limits: TraversalLimits,
    w: Walk,
) -> bool {
    &&& w.pending.len() <= w.order.len()
    &&& forall|i: int, j: int|
        0 <= i < j < w.pending.len() ==> (#[trigger] w.pending[i]) < (#[trigger] w.pending[j])
    &&& forall|i: int| 0 <= i < w.pending.len() ==> 0 <= (#[trigger] w.pending[i]) < w.order.len()
    &&& forall|i: int|
        0 < i < w.order.len() ==> 0 <= (#[trigger] w.order[i]).from < i && !w.pending.contains(
            w.order[i].from,
        )
    &&& !w.halted ==> forall|i: int|
        0 <= i < w.order.len() && !w.pending.contains(i) && (#[trigger] w.order[i]).label
            < limits.max_depth ==> all_found(g, w.order, w.order[i].node)
    &&& w.halted ==> w.order.len() >= limits.max_nodes || w.order.len() > limits.max_frontier
    &&& strategy is Bfs ==> {
        &&& forall|k: int, m: int|
            0 < k < m < w.order.len() ==> (#[trigger] w.order[k]).from <= (
            #[trigger] w.order[m]).from
        &&& forall|k: int, i: int|
            0 < k < w.order.len() && 0 <= i < w.pending.len() ==> (#[trigger] w.order[k]).from
                < #[trigger] w.pending[i]
    }
    &&& strategy is Dfs ==> {
        &&& forall|j: int, k: int, m: int|
            #![trigger w.order[j], w.order[k], w.order[m]]
            0 < j < k < w.order.len() && 0 < m < w.order.len() && w.order[k].from < j
                && w.order[j].from != w.order[k].from && w.order[m].from == j ==> m < k
        &&& forall|j: int, k: int|
            0 < j < k < w.order.len() && (#[trigger] w.order[k]).from < j && (
            #[trigger] w.order[j]).from != w.order[k].from ==> !w.pending.contains(j)
    }
}

proof fn lemma_fair_step(
    g: SearchGraph,
    strategy: TraversalStrategy,
    limits: TraversalLimits,
    w: Walk,
)
    requires
        fair(g, strategy, limits, w),
    ensures
        fair(g, strategy, limits, walk_step(g, strategy, limits, w)),
{
    if !finished(w) {
        let next = next_pending(strategy, w.pending);
        let at = w.pending[next];
        let rest = Walk { pending: w.pending.remove(next), ..w };
        let label = w.order[at].label + 1;
        let row = (g.adjacency)(w.order[at].node);
        let old = w.order.len() as int;
        let after = walk_step(g, strategy, limits, w);
        assert forall|i: int| 0 <= i < rest.pending.len() implies (#[trigger] rest.pending[i])
            == w.pending[if i < next {
            i
        } else {
            i + 1
        }] by {}
        assert(w.pending.contains(at));
        assert(!rest.pending.contains(at)) by {
            if rest.pending.contains(at) {
                let i = choose|i: int| 0 <= i < rest.pending.len() && rest.pending[i] == at;
                let p = if i < next {
                    i
                } else {
                    i + 1
                };
                assert(w.pending[p] == at);
                if p < next {
                    assert(w.pending[p] < w.pending[next]);
                } else {
                    assert(w.pending[next] < w.pending[p]);
                }
            }
        }
        assert forall|i: int| #[trigger] rest.pending.contains(i) implies w.pending.contains(i) by {
            let p = choose|p: int| 0 <= p < rest.pending.len() && rest.pending[p] == i;
            let q = if p < next {
                p
            } else {
                p + 1
            };
            assert(w.pending[q] == i);
        }
        assert forall|i: int| #[trigger] w.pending.contains(i) && i != at implies
            rest.pending.contains(i) by {
            let p = choose|p: int| 0 <= p < w.pending.len() && w.pending[p] == i;
            let q = if p < next {
                p
            } else {
                p - 1
            };
            assert(rest.pending[q] == i);
        }
        if w.order[at].label < limits.max_depth {
            lemma_edges_taken(g, limits, rest, at, label, row);
        }
        let waiting = rest.pending.len() as int;
        // What waits afterwards: what waited, and every new node.
        assert forall|i: int| 0 <= i < old implies (after.pending.contains(i)
            <==> rest.pending.contains(i)) by {
            if rest.pending.contains(i) {
                let p = choose|p: int| 0 <= p < waiting && rest.pending[p] == i;
                assert(after.pending[p] == i);
            }
            if after.pending.contains(i) {
                let p = choose|p: int| 0 <= p < after.pending.len() && after.pending[p] == i;
                assert(p < waiting);
                assert(rest.pending[p] == i);
            }
        }
        assert forall|i: int| old <= i < after.order.len() implies after.pending.contains(i) by {
            assert(after.pending[waiting + i - old] == i);
        }
        assert forall|i: int, j: int| 0 <= i < j < after.pending.len() implies (
        #[trigger] after.pending[i]) < (#[trigger] after.pending[j]) by {
            if j < waiting {
                assert(rest.pending[i] < rest.pending[j]);
            } else if i < waiting {
                assert(rest.pending[i] < old);
            }
        }
        assert forall|i: int| 0 <= i < after.pending.len() implies 0 <= (
        #[trigger] after.pending[i]) < after.order.len() by {
            if i < waiting {
                assert(0 <= rest.pending[i] < old);
            }
        }
        assert forall|i: int| 0 < i < after.order.len() implies 0 <= (
        #[trigger] after.order[i]).from < i && !after.pending.contains(after.order[i].from) by {
            if i < old {
                assert(after.order[i] == w.order[i]);
                assert(!w.pending.contains(w.order[i].from));
            }
        }
        if !after.halted {
            assert forall|i: int|
                0 <= i < after.order.len() && !after.pending.contains(i) && (
                #[trigger] after.order[i]).label < limits.max_depth implies all_found(
                g,
                after.order,
                after.order[i].node,
            ) by {
                assert(i < old);
                assert(after.order[i] == w.order[i]);
                let node = w.order[i].node;
                assert forall|k: int|
                    0 <= k < (g.adjacency)(node).len() && (g.allows)(
                        #[trigger] (g.adjacency)(node)[k],
                    ) implies exists|j: int|
                    0 <= j < after.order.len() && (#[trigger] after.order[j]).node == (
                    g.adjacency)(node)[k].target by {
                    let target = (g.adjacency)(node)[k].target;
                    if i == at {
                        assert(discovered(after.order, row[k].target));
                    } else {
                        assert(!w.pending.contains(i));
                        assert(all_found(g, w.order, node));
                        let j = choose|j: int|
                            0 <= j < w.order.len() && (#[trigger] w.order[j]).node == target;
                        assert(after.order[j].node == target);
                    }
                }
            }
        }
        if strategy is Bfs {
            assert forall|k: int, m: int| 0 < k < m < after.order.len() implies (
            #[trigger] after.order[k]).from <= (#[trigger] after.order[m]).from by {
                if m < old {
                    assert(w.order[k].from <= w.order[m].from);
                } else if k < old {
                    assert(w.order[k].from < w.pending[next]);
                }
            }
            assert forall|k: int, i: int|
                0 < k < after.order.len() && 0 <= i < after.pending.len() implies (
            #[trigger] after.order[k]).from < #[trigger] after.pending[i] by {
                if i < waiting {
                    assert(rest.pending[i] == w.pending[i + 1]);
                    assert(w.pending[0] < w.pending[i + 1]);
                    if k < old {
                        assert(w.order[k].from < w.pending[i + 1]);
                    }
                } else if k < old {
                    assert(after.order[k] == w.order[k]);
                }
            }
        } else {
            assert forall|i: int| at < i < old implies !#[trigger] w.pending.contains(i) by {
                if w.pending.contains(i) {
                    let p = choose|p: int| 0 <= p < w.pending.len() && w.pending[p] == i;
                    if p < next {
                        assert(w.pending[p] < w.pending[next]);
                    }
                }
            }
            assert forall|j: int, k: int, m: int|
                #![trigger after.order[j], after.order[k], after.order[m]]
                0 < j < k < after.order.len() && 0 < m < after.order.len()
                    && after.order[k].from < j && after.order[j].from != after.order[k].from
                    && after.order[m].from == j implies m < k by {
                if k < old && m < old {
                    assert(w.order[j].from != w.order[k].from);
                    assert(w.order[m].from == j);
                } else if k < old {
                    assert(j == at);
                    assert(w.order[k].from < at && w.order[at].from != w.order[k].from);
                    assert(!w.pending.contains(at));
                }
            }
            assert forall|j: int, k: int|
                0 < j < k < after.order.len() && (#[trigger] after.order[k]).from < j && (
                #[trigger] after.order[j]).from != after.order[k].from implies
                !after.pending.contains(j) by {
                if k < old {
                    assert(w.order[j].from != w.order[k].from);
                    assert(!w.pending.contains(j));
                } else if j < old {
                    assert(!w.pending.contains(j));
                }
            }
        }
    }
}

proof fn lemma_fair(
    g: SearchGraph,
    strategy: TraversalStrategy,
    limits: TraversalLimits,
    seed: u32,
    steps: nat,
)
    ensures
        fair(g, strategy, limits, walked(g, strategy, limits, seed, steps)),
    decreases steps,
{
    if steps > 0 {
        lemma_fair(g, strategy, limits, seed, (steps - 1) as nat);
        lemma_fair_step(
            g,
            strategy,
            limits,
            walked(g, strategy, limits, seed, (steps - 1) as nat),
        );
    } else {
        let start = start_walk(seed);
        assert(start.pending[0] == 0);
        assert(start.pending.contains(0));
    }
}

/// Breadth first or depth first, a traversal that hits no limit on nodes expands
/// every node that it lists above the depth limit: each edge of such a node that
/// may be followed leads to a listed node.
pub proof fn law_every_listed_node_is_expanded(
    g: SearchGraph,
    strategy: TraversalStrategy,
    limits: TraversalLimits,
    seed: u32,
    bound: nat,
    at: int,
)
    requires
        bounded(g, bound),
        seed < bound,
        0 <= at < traversal(g, strategy, limits, seed).len(),
        traversal(g, strategy, limits, seed).len() < limits.max_nodes,
        traversal(g, strategy, limits, seed).len() <= limits.max_frontier,
        traversal(g, strategy, limits, seed)[at].label < limits.max_depth,
    ensures
        all_found(
            g,
            traversal(g, strategy, limits, seed),
            traversal(g, strategy, limits, seed)[at].node,
        ),
{
    let end = lemma_walk_ends(g, strategy, limits, seed, bound, 0);
    lemma_traversal(g, strategy, limits, seed, end);
    lemma_fair(g, strategy, limits, seed, end);
    let w = walked(g, strategy, limits, seed, end);
    assert(!w.halted);
    assert(!w.pending.contains(at));
    assert(w.order[at].label < limits.max_depth);
}

/// A traversal without limits, breadth first or depth first, lists a node
/// exactly if a walk over edges that may be followed leads to it.
pub proof fn law_unlimited_traversal_lists_what_is_reachable(
    g: SearchGraph,
    strategy: TraversalStrategy,
    limits: TraversalLimits,
    seed: u32,
    bound: nat,
    node: u32,
    walk: Seq<Neighbor>,
)
    requires
        bounded(g, bound),
        seed < bound,
        limits.max_depth >= bound,
        limits.max_nodes > bound,
        limits.max_frontier >= bound,
    ensures
        walk_between(g, seed, node, walk) ==> exists|i: int|
            0 <= i < traversal(g, strategy, limits, seed).len() && (#[trigger] traversal(
                g,
                strategy,
                limits,
                seed,
            )[i]).node == node,
        forall|i: int|
            0 <= i < traversal(g, strategy, limits, seed).len() && (#[trigger] traversal(
                g,
                strategy,
                limits,
                seed,
            )[i]).node == node ==> exists|own: Seq<Neighbor>| #[trigger]
                walk_between(g, seed, node, own),
    decreases walk.len(),
{
    let order = traversal(g, strategy, limits, seed);
    let end = lemma_walk_ends(g, strategy, limits, seed, bound, 0);
    lemma_traversal(g, strategy, limits, seed, end);
    crate::traversal::lemma_walked(g, strategy, limits, seed, end);
    crate::search::lemma_order_bounded(g, seed, order, bound);
    assert forall|i: int| 0 <= i < order.len() && (#[trigger] order[i]).node == node implies exists|
        own: Seq<Neighbor>,
    | #[trigger] walk_between(g, seed, node, own) by {
        law_traversal_follows_walks(g, strategy, limits, seed, bound, i);
        let own = choose|own: Seq<Neighbor>|
            #![trigger is_walk(g, seed, own)]
            walk_between(g, seed, order[i].node, own) && trail_follows(
                trail(order, i),
                seed,
                own,
            ) && own.len() == order[i].label;
        assert(walk_between(g, seed, node, own));
    }
    if walk_between(g, seed, node, walk) {
        if walk.len() == 0 {
            law_traversal_follows_walks(g, strategy, limits, seed, bound, 0);
            assert(order[0].node == node);
        } else {
            let shorter = walk.drop_last();
            let before = stands_at(seed, walk, walk.len() - 1);
            assert forall|k: int| 0 <= k < shorter.len() implies {
                &&& (g.adjacency)(stands_at(seed, shorter, k)).contains(#[trigger] shorter[k])
                &&& (g.allows)(shorter[k])
            } by {
                assert(shorter[k] == walk[k]);
                assert(stands_at(seed, shorter, k) == stands_at(seed, walk, k));
            }
            assert(walk_between(g, seed, before, shorter));
            law_unlimited_traversal_lists_what_is_reachable(
                g,
                strategy,
                limits,
                seed,
                bound,
                before,
                shorter,
            );
            let i = choose|i: int| 0 <= i < order.len() && (#[trigger] order[i]).node == before;
            lemma_label_below(order, i, g, limits, seed);
            law_every_listed_node_is_expanded(g, strategy, limits, seed, bound, i);
            let last = walk[walk.len() - 1];
            let row = (g.adjacency)(before);
            assert(row.contains(last));
            let k = choose|k: int| 0 <= k < row.len() && row[k] == last;
            assert((g.allows)(row[k]));
            assert(last.target == node);
        }
    }
}

/// A listed node's depth is less than the number of listed nodes.
proof fn lemma_label_below(
    order: Seq<Visit>,
    at: int,
    g: SearchGraph,
    limits: TraversalLimits,
    seed: u32,
)
    requires
        0 <= at < order.len(),
        order[0] == root_visit(seed),
        forall|i: int|
            0 < i < order.len() ==> 0 <= (#[trigger] order[i]).from < i && order[i].label
                == order[order[i].from].label + 1,
    ensures
        order[at].label <= at,
    decreases at,
{
    if at > 0 {
        lemma_label_below(order, order[at].from, g, limits, seed);
    }
}

/// Breadth first, nodes found from an earlier node are listed before those found
/// from a later one.
pub proof fn law_breadth_first_order(
    g: SearchGraph,
    limits: TraversalLimits,
    seed: u32,
    bound: nat,
    k: int,
    m: int,
)
    requires
        bounded(g, bound),
        seed < bound,
        0 < k < m < traversal(g, TraversalStrategy::Bfs, limits, seed).len(),
    ensures
        traversal(g, TraversalStrategy::Bfs, limits, seed)[k].from <= traversal(
            g,
            TraversalStrategy::Bfs,
            limits,
            seed,
        )[m].from,
{
    let end = lemma_walk_ends(g, TraversalStrategy::Bfs, limits, seed, bound, 0);
    lemma_traversal(g, TraversalStrategy::Bfs, limits, seed, end);
    lemma_fair(g, TraversalStrategy::Bfs, limits, seed, end);
}

/// Depth first, of two listed nodes the later one goes first: whatever is found
/// from it comes before anything that is later found from the earlier one,
/// unless it was itself found from that one.
pub proof fn law_depth_first_order(
    g: SearchGraph,
    limits: TraversalLimits,
    seed: u32,
    bound: nat,
    j: int,
    k: int,
    m: int,
)
    requires
        bounded(g, bound),
        seed < bound,
        0 < j < k < traversal(g, TraversalStrategy::Dfs, limits, seed).len(),
        0 < m < traversal(g, TraversalStrategy::Dfs, limits, seed).len(),
        traversal(g, TraversalStrategy::Dfs, limits, seed)[k].from < j,
        traversal(g, TraversalStrategy::Dfs, limits, seed)[j].from != traversal(
            g,
            TraversalStrategy::Dfs,
            limits,
            seed,
        )[k].from,
        traversal(g, TraversalStrategy::Dfs, limits, seed)[m].from == j,
    ensures
        m < k,
{
    let end = lemma_walk_ends(g, TraversalStrategy::Dfs, limits, seed, bound, 0);
    lemma_traversal(g, TraversalStrategy::Dfs, limits, seed, end);
    lemma_fair(g, TraversalStrategy::Dfs, limits, seed, end);
}

/// Whether an edge of a list is the first that may be followed to a found node.
pub open spec fn first_edge(
    g: SearchGraph,
    edges: Seq<Neighbor>,
    visit: Visit,
    place: int,
) -> bool {
    &&& 0 <= place < edges.len()
    &&& edges[place].target == visit.node
    &&& edges[place].type_id == visit.edge_type
    &&& (g.allows)(edges[place])
    &&& forall|i: int|
        0 <= i < place && (#[trigger] edges[i]).target == visit.node ==> !(g.allows)(edges[i])
}

/// Whether some edge of a list is the first that may be followed to a found node.
pub open spec fn has_first_edge(g: SearchGraph, edges: Seq<Neighbor>, visit: Visit) -> bool {
    exists|place: int| #[trigger] first_edge(g, edges, visit, place)
}

/// Whether nodes were found by first edges, an earlier one by an earlier edge.
spec fn found_in_turn(
    g: SearchGraph,
    edges: Seq<Neighbor>,
    order: Seq<Visit>,
    first: int,
) -> bool {
    &&& forall|k: int|
        first <= k < order.len() ==> has_first_edge(g, edges, #[trigger] order[k])
    &&& forall|k: int, m: int, left: int, right: int|
        first <= k < m < order.len() && #[trigger] first_edge(g, edges, order[k], left)
            && #[trigger] first_edge(g, edges, order[m], right) ==> left < right
}

proof fn lemma_found_in_turn(
    g: SearchGraph,
    limits: TraversalLimits,
    w: Walk,
    from: int,
    label: int,
    edges: Seq<Neighbor>,
)
    ensures
        found_in_turn(
            g,
            edges,
            take_edges(g, limits, w, from, label, edges).order,
            w.order.len() as int,
        ),
    decreases edges.len(),
{
    let first = w.order.len() as int;
    let after = take_edges(g, limits, w, from, label, edges);
    if edges.len() > 0 {
        let rest = edges.drop_last();
        let before = take_edges(g, limits, w, from, label, rest);
        lemma_found_in_turn(g, limits, w, from, label, rest);
        lemma_edges_taken(g, limits, w, from, label, rest);
        assert forall|k: int, place: int|
            first <= k < before.order.len() && #[trigger] first_edge(
                g,
                rest,
                before.order[k],
                place,
            ) implies first_edge(g, edges, before.order[k], place) by {
            assert(edges[place] == rest[place]);
            assert forall|i: int|
                0 <= i < place && (#[trigger] edges[i]).target == before.order[k].node implies !(
            g.allows)(edges[i]) by {
                assert(rest[i] == edges[i]);
            }
        }
        assert forall|k: int| first <= k < after.order.len() implies has_first_edge(
            g,
            edges,
            #[trigger] after.order[k],
        ) by {
            if k < before.order.len() {
                assert(has_first_edge(g, rest, before.order[k]));
                let place = choose|place: int| #[trigger]
                    first_edge(g, rest, before.order[k], place);
                assert(first_edge(g, edges, after.order[k], place));
            } else {
                let place = edges.len() - 1;
                assert forall|i: int|
                    0 <= i < place && (#[trigger] edges[i]).target
                        == after.order[k].node implies !(g.allows)(edges[i]) by {
                    assert(rest[i] == edges[i]);
                    if (g.allows)(rest[i]) {
                        assert(discovered(before.order, rest[i].target));
                    }
                }
                assert(first_edge(g, edges, after.order[k], place));
            }
        }
        assert forall|k: int, m: int, left: int, right: int|
            first <= k < m < after.order.len() && #[trigger] first_edge(
                g,
                edges,
                after.order[k],
                left,
            ) && #[trigger] first_edge(g, edges, after.order[m], right) implies left < right by {
            assert(has_first_edge(g, rest, before.order[k]));
            let old_left = choose|place: int| #[trigger]
                first_edge(g, rest, before.order[k], place);
            assert(first_edge(g, edges, before.order[k], old_left));
            lemma_first_edge_unique(g, edges, after.order[k], left, old_left);
            if m < before.order.len() {
                assert(has_first_edge(g, rest, before.order[m]));
                let old_right = choose|place: int| #[trigger]
                    first_edge(g, rest, before.order[m], place);
                assert(first_edge(g, edges, before.order[m], old_right));
                lemma_first_edge_unique(g, edges, after.order[m], right, old_right);
            } else {
                let last = edges.len() - 1;
                assert(first_edge(g, edges, after.order[m], last)) by {
                    assert forall|i: int|
                        0 <= i < last && (#[trigger] edges[i]).target
                            == after.order[m].node implies !(g.allows)(edges[i]) by {
                        assert(rest[i] == edges[i]);
                        if (g.allows)(rest[i]) {
                            assert(discovered(before.order, rest[i].target));
                        }
                    }
                }
                lemma_first_edge_unique(g, edges, after.order[m], right, last);
            }
        }
    }
}

proof fn lemma_first_edge_unique(
    g: SearchGraph,
    edges: Seq<Neighbor>,
    visit: Visit,
    left: int,
    right: int,
)
    requires
        first_edge(g, edges, visit, left),
        first_edge(g, edges, visit, right),
    ensures
        left == right,
{
    if left < right {
        assert(!(g.allows)(edges[left]));
    }
    if right < left {
        assert(!(g.allows)(edges[right]));
    }
}

/// Whether nodes that were found from one node stand in the order of its edges.
spec fn siblings_in_turn(g: SearchGraph, order: Seq<Visit>) -> bool {
    &&& forall|k: int|
        0 < k < order.len() ==> has_first_edge(
            g,
            (g.adjacency)(order[order[k].from].node),
            #[trigger] order[k],
        )
    &&& forall|k: int, m: int, left: int, right: int|
        0 < k < m < order.len() && order[k].from == order[m].from && #[trigger] first_edge(
            g,
            (g.adjacency)(order[order[k].from].node),
            order[k],
            left,
        ) && #[trigger] first_edge(
            g,
            (g.adjacency)(order[order[m].from].node),
            order[m],
            right,
        ) ==> left < right
}

proof fn lemma_siblings(
    g: SearchGraph,
    strategy: TraversalStrategy,
    limits: TraversalLimits,
    seed: u32,
    steps: nat,
)
    ensures
        siblings_in_turn(g, walked(g, strategy, limits, seed, steps).order),
    decreases steps,
{
    if steps > 0 {
        let w = walked(g, strategy, limits, seed, (steps - 1) as nat);
        let after = walked(g, strategy, limits, seed, steps);
        lemma_siblings(g, strategy, limits, seed, (steps - 1) as nat);
        lemma_fair(g, strategy, limits, seed, (steps - 1) as nat);
        lemma_fair(g, strategy, limits, seed, steps);
        if !finished(w) {
            let next = next_pending(strategy, w.pending);
            let at = w.pending[next];
            let rest = Walk { pending: w.pending.remove(next), ..w };
            assert(w.pending.contains(at));
            if w.order[at].label < limits.max_depth {
                let edges = (g.adjacency)(w.order[at].node);
                let label = w.order[at].label + 1;
                lemma_edges_taken(g, limits, rest, at, label, edges);
                lemma_found_in_turn(g, limits, rest, at, label, edges);
                assert(after == take_edges(g, limits, rest, at, label, edges));
                assert forall|k: int| 0 < k < after.order.len() implies has_first_edge(
                    g,
                    (g.adjacency)(after.order[after.order[k].from].node),
                    #[trigger] after.order[k],
                ) by {
                    if k < w.order.len() {
                        assert(after.order[k] == w.order[k]);
                        assert(0 <= w.order[k].from < k);
                        let place = choose|place: int| #[trigger]
                            first_edge(
                                g,
                                (g.adjacency)(w.order[w.order[k].from].node),
                                w.order[k],
                                place,
                            );
                        assert(after.order[w.order[k].from] == w.order[w.order[k].from]);
                        assert(first_edge(
                            g,
                            (g.adjacency)(after.order[after.order[k].from].node),
                            after.order[k],
                            place,
                        ));
                    } else {
                        let place = choose|place: int| #[trigger]
                            first_edge(g, edges, after.order[k], place);
                        assert(after.order[at] == w.order[at]);
                        assert(first_edge(
                            g,
                            (g.adjacency)(after.order[after.order[k].from].node),
                            after.order[k],
                            place,
                        ));
                    }
                }
                assert forall|k: int, m: int, left: int, right: int|
                    0 < k < m < after.order.len() && after.order[k].from == after.order[m].from
                        && #[trigger] first_edge(
                        g,
                        (g.adjacency)(after.order[after.order[k].from].node),
                        after.order[k],
                        left,
                    ) && #[trigger] first_edge(
                        g,
                        (g.adjacency)(after.order[after.order[m].from].node),
                        after.order[m],
                        right,
                    ) implies left < right by {
                    assert(after.order[at] == w.order[at]);
                    if k < w.order.len() {
                        assert(after.order[k] == w.order[k]);
                        assert(!w.pending.contains(w.order[k].from));
                        assert(m < w.order.len());
                        assert(after.order[m] == w.order[m]);
                        assert(0 <= w.order[k].from < k);
                        assert(after.order[w.order[k].from] == w.order[w.order[k].from]);
                    }
                }
            } else {
                assert(after.order == w.order);
            }
        }
    }
}

/// Each node but the seed is found by the first edge that may be followed to it
/// from the node that it was found from, and of two nodes that were found from
/// the same node the one of the earlier edge is listed first.
pub proof fn law_siblings_come_in_edge_order(
    g: SearchGraph,
    strategy: TraversalStrategy,
    limits: TraversalLimits,
    seed: u32,
    bound: nat,
    k: int,
    m: int,
    left: int,
    right: int,
)
    requires
        bounded(g, bound),
        seed < bound,
        0 < k < m < traversal(g, strategy, limits, seed).len(),
    ensures
        ({
            let order = traversal(g, strategy, limits, seed);
            let edges = (g.adjacency)(order[order[k].from].node);
            &&& has_first_edge(g, edges, order[k])
            &&& order[k].from == order[m].from && first_edge(g, edges, order[k], left)
                && first_edge(g, edges, order[m], right) ==> left < right
        }),
{
    let end = lemma_walk_ends(g, strategy, limits, seed, bound, 0);
    lemma_traversal(g, strategy, limits, seed, end);
    lemma_siblings(g, strategy, limits, seed, end);
}

/// Whether a request asks for edges of a type: it names no types, or it names
/// the label under which the type is first registered.
pub open spec fn asks_for(
    registry: Seq<String>,
    asked: Option<Seq<Seq<char>>>,
    type_id: EdgeTypeId,
) -> bool {
    asked matches Some(labels) ==> exists|i: int|
        {
            &&& 0 <= i < labels.len()
            &&& type_id.0 < registry.len()
            &&& registry[type_id.0 as int]@ == #[trigger] labels[i]
            &&& forall|t: int| 0 <= t < type_id.0 ==> (#[trigger] registry[t])@ != labels[i]
        }
}

/// Whether a request may list a node beside the seed: a live one that the
/// running transaction has not deleted, that satisfies every filter and, where
/// the request has a tenant and the node's table is divided among tenants, that
/// is the tenant's.
pub open spec fn may_list(
    engine: Engine,
    request: TraversalRequest,
    delta: TxDelta,
    node: u32,
) -> bool {
    let nodes = engine.node_store.nodes();
    let tenants = engine.tenant_membership@;
    &&& node < nodes.len()
    &&& nodes[node as int].active
    &&& !bitmap_contents(delta.deleted_nodes).contains(node)
    &&& request.tenant matches Some(name) ==> !bitmap_contents(
        engine.tenanted_table_oids,
    ).contains(nodes[node as int].table_oid) || (tenants.contains_key(name)
        && tenants[name].contains(node))
    &&& forall|i: int|
        0 <= i < request.filter_ops.len() ==> filter_holds(
            engine.filter_index,
            node,
            #[trigger] request.filter_ops[i],
            None,
        )
}

/// The edges that a request follows.
pub open spec fn asked_graph(
    engine: Engine,
    request: TraversalRequest,
    delta: TxDelta,
) -> SearchGraph {
    SearchGraph {
        adjacency: |node: u32|
            {
                let row = engine.current_row(delta, request.direction, node);
                Seq::new(
                    row.len(),
                    |i: int|
                        Neighbor {
                            target: row[i].target,
                            type_id: row[i].type_id,
                            schema_reversed: row[i].schema_reversed,
                            relationship_id: row[i].relationship_id,
                        },
                )
            },
        allows: |edge: Neighbor|
            asks_for(engine.edge_type_registry@, request.edge_types, edge.type_id) && may_list(
                engine,
                request,
                delta,
                edge.target,
            ),
    }
}

/// Whether a row tells the walk from a seed to a node: the node's table and key,
/// the number of edges, and the tables, keys and labels on the way.
pub open spec fn row_tells(
    engine: Engine,
    row: TraversalResultView,
    seed: u32,
    node: u32,
    walk: Seq<Neighbor>,
) -> bool {
    let nodes = engine.node_store.nodes();
    &&& row.node_table == nodes[node as int].table_oid
    &&& row.node_id == nodes[node as int].key
    &&& row.depth == walk.len()
    &&& row.path.len() == walk.len() + 1
    &&& row.edge_path.len() == walk.len()
    &&& row.path[0] == (nodes[seed as int].table_oid, nodes[seed as int].key)
    &&& forall|i: int|
        0 <= i < walk.len() ==> row.path[i + 1] == (
            nodes[(#[trigger] walk[i]).target as int].table_oid,
            nodes[walk[i].target as int].key,
        )
    &&& forall|i: int|
        0 <= i < walk.len() ==> row.edge_path[i] == registered_label(
            engine.edge_type_registry@,
            (#[trigger] walk[i]).type_id,
        )
}

/// What a traversal answers, of a node that it started from: the seed comes
/// first; no node comes twice; every row tells a walk from the seed over edges
/// that the request follows, within the depth limit; there are no more rows than
/// nodes were asked for; and where there are fewer, and no more than nodes may
/// wait, every such edge from a listed node above the depth limit leads to a
/// listed node.
#[verifier::spinoff_prover]
#[verifier::rlimit(60)]
pub proof fn law_traversal_answer_tells_walks(
    engine: Engine,
    request: TraversalRequest,
    delta: TxDelta,
    before: GovernorView,
    after: GovernorView,
    rows: Seq<TraversalResultView>,
)
    requires
        engine.wf(),
        engine.edge_type_registry@.len() <= 256,
        engine.traversal_answer(request, delta, before, after, Ok(rows)),
        resolved(
            engine,
            request.seed_table_oid,
            request.seed_id,
            bitmap_contents(delta.deleted_nodes),
        ) matches Some(seed) ==> seed < engine.node_store.nodes().len(),
    ensures
        ({
            let g = asked_graph(engine, request, delta);
            let limits = request.limits;
            exists|seed: u32, listed: Seq<u32>|
                {
                    &&& resolved(
                        engine,
                        request.seed_table_oid,
                        request.seed_id,
                        bitmap_contents(delta.deleted_nodes),
                    ) == Some(seed)
                    &&& #[trigger] lists_walks(engine, g, rows, seed, listed, limits)
                    &&& rows.len() < limits.max_nodes && rows.len() <= limits.max_frontier
                        ==> lists_neighbours(g, rows, listed, limits)
                }
        }),
{
    let g = asked_graph(engine, request, delta);
    let limits = request.limits;
    let nodes = engine.node_store.nodes();
    let seed = resolved(
        engine,
        request.seed_table_oid,
        request.seed_id,
        bitmap_contents(delta.deleted_nodes),
    )->Some_0;
    lemma_asked_graph(engine, request, delta);
    let order = engine.traversal_order(request, delta, seed);
    let labels = |type_id: EdgeTypeId| registered_label(engine.edge_type_registry@, type_id);
    let listed = Seq::new(order.len(), |i: int| order[i].node);
    assert(bounded(g, nodes.len()));
    let end = lemma_walk_ends(g, request.strategy, limits, seed, nodes.len(), 0);
    lemma_traversal(g, request.strategy, limits, seed, end);
    crate::traversal::lemma_walked(g, request.strategy, limits, seed, end);
    law_traversal_follows_walks(g, request.strategy, limits, seed, nodes.len(), 0);
    assert forall|i: int| 0 <= i < rows.len() implies #[trigger] row_is_told(
        engine,
        g,
        rows,
        seed,
        listed,
        limits,
        i,
    ) by {
        law_traversal_follows_walks(g, request.strategy, limits, seed, nodes.len(), i);
        let walk = choose|walk: Seq<Neighbor>|
            #![trigger is_walk(g, seed, walk)]
            walk_between(g, seed, order[i].node, walk) && trail_follows(
                trail(order, i),
                seed,
                walk,
            ) && walk.len() == order[i].label;
        let row = traversal_row(nodes, order, i, labels);
        let steps = trail(order, i);
        assert(rows[i] == row);
        assert forall|k: int| 0 <= k < walk.len() implies row.path[k + 1] == (
            nodes[(#[trigger] walk[k]).target as int].table_oid,
            nodes[walk[k].target as int].key,
        ) && row.edge_path[k] == labels(walk[k].type_id) by {
            assert(steps[k + 1] == (walk[k].target, walk[k].type_id));
        }
        assert(row_tells(engine, rows[i], seed, listed[i], walk));
        assert(is_walk(g, seed, walk));
    }
    assert(lists_walks(engine, g, rows, seed, listed, limits));
    if rows.len() < limits.max_nodes && rows.len() <= limits.max_frontier {
        assert forall|i: int, k: int|
            0 <= i < rows.len() && (#[trigger] rows[i]).depth < limits.max_depth && 0 <= k < (
            g.adjacency)(listed[i]).len() && (g.allows)(
                #[trigger] (g.adjacency)(listed[i])[k],
            ) implies listed.contains((g.adjacency)(listed[i])[k].target) by {
            law_every_listed_node_is_expanded(g, request.strategy, limits, seed, nodes.len(), i);
            let node = order[i].node;
            assert(all_found(g, order, node));
            let j = choose|j: int|
                0 <= j < order.len() && (#[trigger] order[j]).node == (g.adjacency)(node)[k].target;
            assert(listed[j] == (g.adjacency)(node)[k].target);
        }
    }
}

/// What a traversal answers is its listing of the graph that the request asks
/// for, by the request's strategy and limits, row for row. Breadth first, rows go
/// outward: none is less deep than one before it.
#[verifier::spinoff_prover]
#[verifier::rlimit(60)]
pub proof fn law_traversal_answer_keeps_to_the_strategy(
    engine: Engine,
    request: TraversalRequest,
    delta: TxDelta,
    before: GovernorView,
    after: GovernorView,
    rows: Seq<TraversalResultView>,
    k: int,
    m: int,
)
    requires
        engine.edge_type_registry@.len() <= 256,
        engine.traversal_answer(request, delta, before, after, Ok(rows)),
        resolved(
            engine,
            request.seed_table_oid,
            request.seed_id,
            bitmap_contents(delta.deleted_nodes),
        ) matches Some(seed) ==> seed < engine.node_store.nodes().len(),
        0 <= k < m < rows.len(),
    ensures
        ({
            let nodes = engine.node_store.nodes();
            let seed = resolved(
                engine,
                request.seed_table_oid,
                request.seed_id,
                bitmap_contents(delta.deleted_nodes),
            )->Some_0;
            let g = asked_graph(engine, request, delta);
            let order = traversal(g, request.strategy, request.limits, seed);
            &&& order.len() == rows.len()
            &&& rows[m].node_table == nodes[order[m].node as int].table_oid
            &&& rows[m].node_id == nodes[order[m].node as int].key
            &&& rows[m].depth == order[m].label
            &&& request.strategy is Bfs ==> rows[k].depth <= rows[m].depth
        }),
{
    let nodes = engine.node_store.nodes();
    let seed = resolved(
        engine,
        request.seed_table_oid,
        request.seed_id,
        bitmap_contents(delta.deleted_nodes),
    )->Some_0;
    let g = asked_graph(engine, request, delta);
    lemma_asked_graph(engine, request, delta);
    assert(bounded(g, nodes.len()));
    if request.strategy is Bfs {
        lemma_labels_rise(g, request.limits, seed, nodes.len(), k, m);
    }
}

proof fn lemma_asked_graph(engine: Engine, request: TraversalRequest, delta: TxDelta)
    requires
        engine.edge_type_registry@.len() <= 256,
        request.edge_types matches Some(labels) ==> crate::engine_traversal::first_unknown(
            label_views(engine.edge_type_registry@),
            labels,
        ) is None,
    ensures
        asked_graph(engine, request, delta) == engine.traversal_graph(
            delta,
            request.direction,
            request.edge_types,
            request.filter_ops,
            request.tenant,
        ),
{
    let g = asked_graph(engine, request, delta);
    let own = engine.traversal_graph(
        delta,
        request.direction,
        request.edge_types,
        request.filter_ops,
        request.tenant,
    );
    assert forall|node: u32| #[trigger] (g.adjacency)(node) == (own.adjacency)(node) by {
        assert((g.adjacency)(node) =~= (own.adjacency)(node));
    }
    assert(g.adjacency =~= own.adjacency);
    assert forall|edge: Neighbor| #[trigger] (g.allows)(edge) == (own.allows)(edge) by {
        lemma_asks_for(engine.edge_type_registry@, request.edge_types, edge.type_id);
    }
    assert(g.allows =~= own.allows);
}

/// Breadth first, a node is no less deep than one that is listed before it.
proof fn lemma_labels_rise(
    g: SearchGraph,
    limits: TraversalLimits,
    seed: u32,
    bound: nat,
    k: int,
    m: int,
)
    requires
        bounded(g, bound),
        seed < bound,
        0 <= k <= m < traversal(g, TraversalStrategy::Bfs, limits, seed).len(),
    ensures
        ({
            let order = traversal(g, TraversalStrategy::Bfs, limits, seed);
            0 <= order[k].label <= order[m].label
        }),
    decreases m,
{
    let order = traversal(g, TraversalStrategy::Bfs, limits, seed);
    let end = lemma_walk_ends(g, TraversalStrategy::Bfs, limits, seed, bound, 0);
    lemma_traversal(g, TraversalStrategy::Bfs, limits, seed, end);
    lemma_fair(g, TraversalStrategy::Bfs, limits, seed, end);
    crate::traversal::lemma_walked(g, TraversalStrategy::Bfs, limits, seed, end);
    if k > 0 {
        if k < m {
            law_breadth_first_order(g, limits, seed, bound, k, m);
        }
        lemma_labels_rise(g, limits, seed, bound, order[k].from, order[m].from);
        assert(order[k].label == order[order[k].from].label + 1);
        assert(order[m].label == order[order[m].from].label + 1);
    } else if m > 0 {
        lemma_labels_rise(g, limits, seed, bound, 0, order[m].from);
        assert(order[m].label == order[order[m].from].label + 1);
    }
}

/// Whether a row tells an admitted walk from the seed to its node.
pub open spec fn row_is_told(
    engine: Engine,
    g: SearchGraph,
    rows: Seq<TraversalResultView>,
    seed: u32,
    listed: Seq<u32>,
    limits: TraversalLimits,
    at: int,
) -> bool {
    &&& at > 0 ==> rows[at].depth <= limits.max_depth
    &&& exists|walk: Seq<Neighbor>|
        #![trigger is_walk(g, seed, walk)]
        walk_between(g, seed, listed[at], walk) && row_tells(
            engine,
            rows[at],
            seed,
            listed[at],
            walk,
        )
}

/// Whether rows list nodes, the seed first, none twice and no more than may be
/// listed, each with a walk to it.
pub open spec fn lists_walks(
    engine: Engine,
    g: SearchGraph,
    rows: Seq<TraversalResultView>,
    seed: u32,
    listed: Seq<u32>,
    limits: TraversalLimits,
) -> bool {
    &&& listed.len() == rows.len()
    &&& rows.len() >= 1
    &&& rows.len() == 1 || rows.len() <= limits.max_nodes
    &&& listed[0] == seed
    &&& rows[0].depth == 0
    &&& forall|i: int, j: int| 0 <= i < j < listed.len() ==> listed[i] != listed[j]
    &&& forall|i: int|
        0 <= i < rows.len() ==> #[trigger] row_is_told(engine, g, rows, seed, listed, limits, i)
}

/// Whether every edge from a listed node above the depth limit leads to a listed
/// node.
pub open spec fn lists_neighbours(
    g: SearchGraph,
    rows: Seq<TraversalResultView>,
    listed: Seq<u32>,
    limits: TraversalLimits,
) -> bool {
    forall|i: int, k: int|
        0 <= i < rows.len() && (#[trigger] rows[i]).depth < limits.max_depth && 0 <= k < (
        g.adjacency)(listed[i]).len() && (g.allows)(#[trigger] (g.adjacency)(listed[i])[k])
            ==> listed.contains((g.adjacency)(listed[i])[k].target)
}

proof fn lemma_asks_for(
    registry: Seq<String>,
    asked: Option<Seq<Seq<char>>>,
    type_id: EdgeTypeId,
)
    requires
        registry.len() <= 256,
        asked matches Some(labels) ==> crate::engine_traversal::first_unknown(
            label_views(registry),
            labels,
        ) is None,
    ensures
        asks_for(registry, asked, type_id) == crate::engine_traversal::wants_type(
            label_views(registry),
            asked,
            type_id,
        ),
{
    let views = label_views(registry);
    if let Some(labels) = asked {
        assert forall|i: int| 0 <= i < labels.len() implies views.contains(
            #[trigger] labels[i],
        ) by {
            lemma_known(views, labels, i);
        }
        assert forall|i: int| 0 <= i < labels.len() implies {
            let id = crate::scan_edges::label_id(views, #[trigger] labels[i]);
            0 <= id < views.len() && views[id] == labels[i] && forall|t: int|
                0 <= t < id ==> views[t] != labels[i]
        } by {
            views.index_of_first_ensures(labels[i]);
        }
        if asks_for(registry, asked, type_id) {
            let i = choose|i: int|
                {
                    &&& 0 <= i < labels.len()
                    &&& type_id.0 < registry.len()
                    &&& registry[type_id.0 as int]@ == #[trigger] labels[i]
                    &&& forall|t: int| 0 <= t < type_id.0 ==> (#[trigger] registry[t])@ != labels[i]
                };
            let id = crate::scan_edges::label_id(views, labels[i]);
            assert(views[type_id.0 as int] == labels[i]);
            if id < type_id.0 {
                assert(registry[id]@ == labels[i]);
            }
            assert(id == type_id.0);
        }
        if crate::engine_traversal::wants_type(views, asked, type_id) {
            let i = choose|i: int|
                0 <= i < labels.len() && type_id.0 == crate::scan_edges::label_id(
                    views,
                    #[trigger] labels[i],
                ) % 256;
            let id = crate::scan_edges::label_id(views, labels[i]);
            assert(id == type_id.0);
            assert(registry[id]@ == labels[i]);
            assert forall|t: int| 0 <= t < type_id.0 implies (#[trigger] registry[t])@
                != labels[i] by {
                assert(views[t] != labels[i]);
            }
        }
    }
}

proof fn lemma_known(registry: Seq<Seq<char>>, labels: Seq<Seq<char>>, at: int)
    requires
        crate::engine_traversal::first_unknown(registry, labels) is None,
        0 <= at < labels.len(),
    ensures
        registry.contains(labels[at]),
    decreases labels.len(),
{
    if at < labels.len() - 1 {
        lemma_known(registry, labels.drop_last(), at);
    }
}

} // verus!
