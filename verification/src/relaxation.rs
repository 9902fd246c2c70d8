//! Dijkstra's algorithm as a mathematical object: a frontier whose least entry
//! is settled step by step, and why settled costs are least.
use vstd::multiset::Multiset;
use vstd::prelude::*;

use crate::cost_heap::{entry_le, is_least};
use crate::neighbors::WeightedNeighbor;
use crate::search::some_such;
use crate::types::EdgeTypeId;

verus! {

/// Cost of a node that has not been reached.
pub const UNREACHED: u64 = 0xffff_ffff_ffff_ffff;

/// A weighted graph as a search sees it.
pub struct WeightedGraph {
    pub adjacency: spec_fn(u32) -> Seq<WeightedNeighbor>,
    pub allows: spec_fn(WeightedNeighbor) -> bool,
}

/// How a node was reached at its recorded cost.
#[derive(Debug, Clone, Copy, PartialEq, Eq, Structural)]
pub struct WeightedParentStep {
    pub parent: u32,
    pub edge_type: EdgeTypeId,
    pub edge_weight: u32,
}

/// State of a search.
#[verifier::ext_equal]
pub struct Frontier {
    /// Recorded cost of every node.
    pub dist: Seq<u64>,
    pub parent: Map<u32, WeightedParentStep>,
    /// Entries that wait to be settled, some of them stale.
    pub queue: Multiset<(u64, u32)>,
    /// Settled nodes, in the order in which they were settled.
    pub closed: Seq<u32>,
}

/// The root at cost zero, every other node unreached.
pub open spec fn start_frontier(node_count: nat, source: u32) -> Frontier {
    Frontier {
        dist: Seq::new(node_count, |i: int| if i == source { 0u64 } else { UNREACHED }),
        parent: map![source => WeightedParentStep {
            parent: source,
            edge_type: EdgeTypeId(0),
            edge_weight: 0,
        }],
        queue: Multiset::singleton((0u64, source)),
        closed: Seq::empty(),
    }
}

/// The state after looking at one edge of a node that is settled at a cost.
pub open spec fn relax_edge(
    g: WeightedGraph,
    state: Frontier,
    node: u32,
    cost: u64,
    edge: WeightedNeighbor,
) -> Frontier {
    if (g.allows)(edge) && cost + edge.weight < state.dist[edge.target as int] {
        let new_cost = (cost + edge.weight) as u64;
        Frontier {
            dist: state.dist.update(edge.target as int, new_cost),
            parent: state.parent.insert(
                edge.target,
                WeightedParentStep {
                    parent: node,
                    edge_type: edge.type_id,
                    edge_weight: edge.weight,
                },
            ),
            queue: state.queue.insert((new_cost, edge.target)),
            ..state
        }
    } else {
        state
    }
}

/// The state after looking at edges from first to last.
pub open spec fn relax(
    g: WeightedGraph,
    state: Frontier,
    node: u32,
    cost: u64,
    edges: Seq<WeightedNeighbor>,
) -> Frontier
    decreases edges.len(),
{
    if edges.len() == 0 {
        state
    } else {
        relax_edge(g, relax(g, state, node, cost, edges.drop_last()), node, cost, edges.last())
    }
}

/// The least entry of a queue.
pub open spec fn least_entry(queue: Multiset<(u64, u32)>) -> (u64, u32) {
    choose|entry: (u64, u32)| is_least(queue, entry)
}

/// The state once an entry has left the queue and, unless it is stale, its
/// node counts as settled.
pub open spec fn take_entry(state: Frontier, entry: (u64, u32)) -> Frontier {
    let rest = Frontier { queue: state.queue.remove(entry), ..state };
    if entry.0 > state.dist[entry.1 as int] {
        rest
    } else {
        Frontier { closed: state.closed.push(entry.1), ..rest }
    }
}

/// The state after settling the least entry: a stale one is dropped, any
/// other has its node's edges relaxed.
pub open spec fn settle(g: WeightedGraph, state: Frontier) -> Frontier {
    let entry = least_entry(state.queue);
    let taken = take_entry(state, entry);
    if entry.0 > state.dist[entry.1 as int] {
        taken
    } else {
        relax(g, taken, entry.1, entry.0, (g.adjacency)(entry.1))
    }
}

/// Whether a search for the target is over: nothing waits, or the target is next.
pub open spec fn is_over(state: Frontier, target: u32) -> bool {
    state.queue.len() == 0 || least_entry(state.queue).1 == target
}

/// The state after settling up to `steps` entries, stopping when the search is
/// over.
pub open spec fn run(g: WeightedGraph, state: Frontier, target: u32, steps: nat) -> Frontier
    decreases steps,
{
    if steps == 0 || is_over(state, target) {
        state
    } else {
        run(g, settle(g, state), target, (steps - 1) as nat)
    }
}

/// How many edges are looked at when the least entry is settled: those of its
/// node, unless it is stale.
pub open spec fn settle_work(g: WeightedGraph, state: Frontier) -> nat {
    let entry = least_entry(state.queue);
    if entry.0 > state.dist[entry.1 as int] {
        0
    } else {
        (g.adjacency)(entry.1).len()
    }
}

/// How many edges are looked at when up to `steps` entries are settled.
pub open spec fn run_work(g: WeightedGraph, state: Frontier, target: u32, steps: nat) -> nat
    decreases steps,
{
    if steps == 0 || is_over(state, target) {
        0
    } else {
        settle_work(g, state) + run_work(g, settle(g, state), target, (steps - 1) as nat)
    }
}

/// How many edges a search for the target looks at until it ends.
pub open spec fn final_work(
    g: WeightedGraph,
    node_count: nat,
    source: u32,
    target: u32,
) -> nat {
    let start = start_frontier(node_count, source);
    run_work(
        g,
        start,
        target,
        choose|steps: nat| is_over(#[trigger] run(g, start, target, steps), target),
    )
}

/// The state in which a search for the target ends.
pub open spec fn final_frontier(
    g: WeightedGraph,
    node_count: nat,
    source: u32,
    target: u32,
) -> Frontier {
    let start = start_frontier(node_count, source);
    run(
        g,
        start,
        target,
        choose|steps: nat| is_over(#[trigger] run(g, start, target, steps), target),
    )
}

/// When a node was settled; an unsettled node comes after all settled ones.
pub open spec fn rank(state: Frontier, node: u32) -> int {
    if state.closed.contains(node) {
        state.closed.index_of(node)
    } else {
        state.closed.len() as int
    }
}

/// The nodes from the source to a node, along recorded parents.
pub open spec fn lineage(state: Frontier, source: u32, node: u32) -> Seq<u32>
    decreases rank(state, node),
{
    if node == source || !state.parent.dom().contains(node) || rank(
        state,
        state.parent[node].parent,
    ) >= rank(state, node) || rank(state, state.parent[node].parent) < 0 {
        seq![node]
    } else {
        lineage(state, source, state.parent[node].parent).push(node)
    }
}

/// Where a weighted walk stands after its first `count` edges.
pub open spec fn stands(source: u32, walk: Seq<WeightedNeighbor>, count: int) -> u32 {
    if count <= 0 {
        source
    } else {
        walk[count - 1].target
    }
}

/// Whether edges form an admitted walk from the source.
pub open spec fn is_weighted_walk(
    g: WeightedGraph,
    source: u32,
    walk: Seq<WeightedNeighbor>,
) -> bool {
    forall|i: int|
        0 <= i < walk.len() ==> {
            &&& (g.adjacency)(stands(source, walk, i)).contains(#[trigger] walk[i])
            &&& (g.allows)(walk[i])
        }
}

/// Whether edges form an admitted walk from the source to the target.
pub open spec fn weighted_walk_between(
    g: WeightedGraph,
    source: u32,
    target: u32,
    walk: Seq<WeightedNeighbor>,
) -> bool {
    is_weighted_walk(g, source, walk) && stands(source, walk, walk.len() as int) == target
}

/// Sum of the weights of the first `count` edges.
pub open spec fn walk_cost(walk: Seq<WeightedNeighbor>, count: int) -> int
    decreases count,
{
    if count <= 0 {
        0
    } else {
        walk_cost(walk, count - 1) + walk[count - 1].weight
    }
}

/// Whether every edge that may be followed leads to a node.
pub open spec fn weighted_bounded(g: WeightedGraph, node_count: nat) -> bool {
    forall|node: u32, i: int|
        0 <= i < (g.adjacency)(node).len() && (g.allows)((#[trigger] (g.adjacency)(node)[i]))
            ==> (g.adjacency)(node)[i].target < node_count
}

/// Whether a node's recorded cost comes from its recorded parent by an
/// admitted edge, and the parent was settled before it.
pub open spec fn well_reached(g: WeightedGraph, state: Frontier, node: u32) -> bool {
    let step = state.parent[node];
    &&& state.parent.dom().contains(node)
    &&& state.closed.contains(step.parent)
    &&& step.parent < state.dist.len()
    &&& state.dist[node as int] == state.dist[step.parent as int] + step.edge_weight
    &&& rank(state, step.parent) < rank(state, node)
    &&& exists|i: int|
        0 <= i < (g.adjacency)(step.parent).len() && (g.allows)(
            (#[trigger] (g.adjacency)(step.parent)[i]),
        ) && (g.adjacency)(step.parent)[i].target == node && (g.adjacency)(step.parent)[i].type_id
            == step.edge_type && (g.adjacency)(step.parent)[i].weight == step.edge_weight
}

/// Whether the edges of a settled node up to `upto` have been relaxed.
pub open spec fn relaxed(g: WeightedGraph, state: Frontier, node: u32, upto: int) -> bool {
    forall|i: int|
        0 <= i < upto && (g.allows)((#[trigger] (g.adjacency)(node)[i])) && state.dist[node as int]
            + (g.adjacency)(node)[i].weight < UNREACHED ==> state.dist[(g.adjacency)(
            node,
        )[i].target as int] <= state.dist[node as int] + (g.adjacency)(node)[i].weight
}

/// What holds of a search while the last settled node has had its first `upto`
/// edges relaxed, and all settled before it have had all.
#[verifier::opaque]
pub open spec fn frontier_inv(
    g: WeightedGraph,
    state: Frontier,
    node_count: nat,
    source: u32,
    upto: int,
) -> bool {
    &&& state.dist.len() == node_count
    &&& source < node_count
    &&& state.dist[source as int] == 0
    &&& state.parent.dom().contains(source)
    &&& forall|entry: (u64, u32)| #[trigger]
        state.queue.contains(entry) ==> {
            &&& entry.1 < node_count
            &&& state.dist[entry.1 as int] <= entry.0 < UNREACHED
            &&& state.queue.count(entry) == 1
            &&& state.closed.contains(entry.1) ==> state.dist[entry.1 as int] < entry.0
        }
    &&& forall|node: u32|
        node < node_count && (#[trigger] state.dist[node as int]) < UNREACHED
            && !state.closed.contains(node) ==> state.queue.contains(
            (state.dist[node as int], node),
        )
    &&& forall|i: int|
        0 <= i < state.closed.len() ==> (#[trigger] state.closed[i]) < node_count
            && state.dist[state.closed[i] as int] < UNREACHED
    &&& state.closed.no_duplicates()
    &&& forall|i: int, entry: (u64, u32)|
        0 <= i < state.closed.len() && state.queue.contains(entry) ==> (
        #[trigger] state.dist[state.closed[i] as int]) <= (#[trigger] entry.0)
    &&& forall|i: int, j: int|
        0 <= i <= j < state.closed.len() ==> state.dist[(#[trigger] state.closed[i]) as int]
            <= state.dist[(#[trigger] state.closed[j]) as int]
    &&& forall|i: int|
        0 <= i < state.closed.len() - 1 ==> relaxed(
            g,
            state,
            #[trigger] state.closed[i],
            (g.adjacency)(state.closed[i]).len() as int,
        )
    &&& state.closed.len() > 0 ==> relaxed(g, state, state.closed.last(), upto)
    &&& forall|node: u32|
        node < node_count && node != source && (#[trigger] state.dist[node as int]) < UNREACHED
            ==> well_reached(g, state, node)
}

proof fn lemma_singleton_least(source: u32)
    ensures
        forall|entry: (u64, u32)| #[trigger]
            Multiset::singleton((0u64, source)).contains(entry) ==> entry == (0u64, source),
        Multiset::singleton((0u64, source)).count((0u64, source)) == 1,
{
    broadcast use vstd::multiset::group_multiset_axioms;
}

pub proof fn lemma_start(g: WeightedGraph, node_count: nat, source: u32)
    requires
        source < node_count,
    ensures
        frontier_inv(g, start_frontier(node_count, source), node_count, source, 0),
{
    reveal(frontier_inv);
    lemma_singleton_least(source);
    let state = start_frontier(node_count, source);
    assert forall|node: u32|
        node < node_count && (#[trigger] state.dist[node as int]) < UNREACHED && !state.closed.contains(
            node,
        ) implies state.queue.contains((state.dist[node as int], node)) by {
        assert(node == source);
    }
}

/// A queue with entries has a least one.
pub proof fn lemma_least_exists(queue: Multiset<(u64, u32)>)
    requires
        queue.len() > 0,
    ensures
        is_least(queue, least_entry(queue)),
    decreases queue.len(),
{
    broadcast use vstd::multiset::group_multiset_axioms;

    let any = queue.choose();
    assert(queue.contains(any));
    let rest = queue.remove(any);
    if rest.len() == 0 {
        assert forall|other: (u64, u32)| #[trigger] queue.contains(other) implies entry_le(
            any,
            other,
        ) by {
            if other != any {
                assert(rest.contains(other));
                assert(rest.count(other) > 0);
                assert(rest.len() > 0) by {
                    assert(rest.remove(other).len() == rest.len() - 1);
                }
            }
        }
        assert(is_least(queue, any));
    } else {
        lemma_least_exists(rest);
        let other = least_entry(rest);
        let least = if entry_le(any, other) {
            any
        } else {
            other
        };
        assert(rest.contains(other));
        assert(queue.contains(other));
        assert forall|entry: (u64, u32)| #[trigger] queue.contains(entry) implies entry_le(
            least,
            entry,
        ) by {
            if entry != any {
                assert(rest.contains(entry));
            }
        }
        assert(is_least(queue, least));
    }
}

/// The least entry is unique.
pub proof fn lemma_least_unique(queue: Multiset<(u64, u32)>, entry: (u64, u32))
    requires
        is_least(queue, entry),
    ensures
        least_entry(queue) == entry,
{
    let other = least_entry(queue);
    assert(is_least(queue, other));
    assert(entry_le(entry, other));
    assert(entry_le(other, entry));
}

/// Settling a node keeps the ranks of nodes settled before.
proof fn lemma_rank_push(state: Frontier, node: u32, next: u32)
    requires
        state.closed.no_duplicates(),
        !state.closed.contains(next),
    ensures
        ({
            let after = Frontier { closed: state.closed.push(next), ..state };
            &&& after.closed.no_duplicates()
            &&& state.closed.contains(node) ==> after.closed.contains(node) && rank(after, node)
                == rank(state, node) && rank(state, node) < state.closed.len()
            &&& !state.closed.contains(node) ==> rank(after, node) >= state.closed.len()
            &&& after.closed.contains(node) <==> state.closed.contains(node) || node == next
        }),
{
    let after = state.closed.push(next);
    assert forall|i: int, j: int| 0 <= i < after.len() && 0 <= j < after.len() && i != j implies after[i]
        != after[j] by {
        if i == state.closed.len() {
            assert(state.closed[j] != next);
        } else if j == state.closed.len() {
            assert(state.closed[i] != next);
        }
    }
    if state.closed.contains(node) {
        let i = state.closed.index_of(node);
        assert(after[i] == node);
        let j = after.index_of(node);
        assert(after[j] == node);
        assert(i == j);
    }
    if after.contains(node) && node != next {
        let j = choose|j: int| 0 <= j < after.len() && after[j] == node;
        assert(state.closed[j] == node);
    }
    if node == next {
        assert(after[state.closed.len() as int] == next);
        let j = after.index_of(node);
        assert(after[j] == node);
    }
}

/// Dropping a stale entry keeps what holds.
#[verifier::spinoff_prover]
pub proof fn lemma_drop_stale(
    g: WeightedGraph,
    state: Frontier,
    node_count: nat,
    source: u32,
    upto: int,
)
    requires
        frontier_inv(g, state, node_count, source, upto),
        state.queue.len() > 0,
        least_entry(state.queue).0 > state.dist[least_entry(state.queue).1 as int],
    ensures
        frontier_inv(g, take_entry(state, least_entry(state.queue)), node_count, source, upto),
{
    reveal(frontier_inv);
    broadcast use vstd::multiset::group_multiset_axioms;

    lemma_least_exists(state.queue);
    let entry = least_entry(state.queue);
    let after = take_entry(state, entry);
    assert forall|other: (u64, u32)| #[trigger] after.queue.contains(other) implies {
        &&& state.queue.contains(other)
        &&& after.queue.count(other) == 1
    } by {
        assert(state.queue.contains(other));
        assert(other != entry);
    }
    assert forall|node: u32|
        node < node_count && (#[trigger] after.dist[node as int]) < UNREACHED
            && !after.closed.contains(node) implies after.queue.contains(
        (after.dist[node as int], node),
    ) by {
        assert(state.queue.contains((state.dist[node as int], node)));
    }
    assert forall|node: u32|
        node < node_count && node != source && (#[trigger] after.dist[node as int])
            < UNREACHED implies well_reached(g, after, node) by {
        assert(well_reached(g, state, node));
        assert(rank(after, node) == rank(state, node));
        assert(rank(after, state.parent[node].parent) == rank(state, state.parent[node].parent));
    }
    assert forall|i: int| 0 <= i < after.closed.len() - 1 implies relaxed(
        g,
        after,
        #[trigger] after.closed[i],
        (g.adjacency)(after.closed[i]).len() as int,
    ) by {
        assert(relaxed(g, state, state.closed[i], (g.adjacency)(state.closed[i]).len() as int));
    }
}

/// Taking a fresh entry settles a node that was not settled.
#[verifier::spinoff_prover]
#[verifier::rlimit(40)]
pub proof fn lemma_take_fresh(g: WeightedGraph, state: Frontier, node_count: nat, source: u32)
    requires
        state.closed.len() > 0 ==> frontier_inv(
            g,
            state,
            node_count,
            source,
            (g.adjacency)(state.closed.last()).len() as int,
        ),
        state.closed.len() == 0 ==> frontier_inv(g, state, node_count, source, 0),
        state.queue.len() > 0,
        least_entry(state.queue).0 <= state.dist[least_entry(state.queue).1 as int],
    ensures
        frontier_inv(g, take_entry(state, least_entry(state.queue)), node_count, source, 0),
        !state.closed.contains(least_entry(state.queue).1),
        state.dist[least_entry(state.queue).1 as int] == least_entry(state.queue).0,
        least_entry(state.queue).1 < node_count,
{
    reveal(frontier_inv);
    broadcast use vstd::multiset::group_multiset_axioms;

    lemma_least_exists(state.queue);
    let entry = least_entry(state.queue);
    let after = take_entry(state, entry);
    assert(state.queue.contains(entry));
    assert(!state.closed.contains(entry.1));
    assert(state.closed.no_duplicates());
    lemma_rank_push(state, entry.1, entry.1);
    assert(after.closed == state.closed.push(entry.1));
    assert forall|node: u32| #[trigger] after.closed.contains(node) <==> state.closed.contains(node)
        || node == entry.1 by {
        lemma_rank_push(state, node, entry.1);
    }
    assert forall|other: (u64, u32)| #[trigger] after.queue.contains(other) implies {
        &&& other.1 < node_count
        &&& after.dist[other.1 as int] <= other.0 < UNREACHED
        &&& after.queue.count(other) == 1
        &&& after.closed.contains(other.1) ==> after.dist[other.1 as int] < other.0
    } by {
        assert(state.queue.contains(other));
        assert(other != entry);
        assert(entry_le(entry, other));
    }
    assert forall|node: u32|
        node < node_count && (#[trigger] after.dist[node as int]) < UNREACHED
            && !after.closed.contains(node) implies after.queue.contains(
        (after.dist[node as int], node),
    ) by {
        assert(!state.closed.contains(node));
        assert(state.queue.contains((state.dist[node as int], node)));
    }
    assert forall|i: int| 0 <= i < after.closed.len() implies (#[trigger] after.closed[i])
        < node_count && after.dist[after.closed[i] as int] < UNREACHED by {
        if i < state.closed.len() {
            assert(after.closed[i] == state.closed[i]);
        }
    }
    assert forall|i: int, other: (u64, u32)|
        0 <= i < after.closed.len() && after.queue.contains(other) implies (
    #[trigger] after.dist[after.closed[i] as int]) <= (#[trigger] other.0) by {
        assert(state.queue.contains(other));
        assert(entry_le(entry, other));
        if i < state.closed.len() {
            assert(after.closed[i] == state.closed[i]);
            assert(state.dist[state.closed[i] as int] <= other.0);
        }
    }
    assert forall|i: int, j: int| 0 <= i <= j < after.closed.len() implies after.dist[(
    #[trigger] after.closed[i]) as int] <= after.dist[(#[trigger] after.closed[j]) as int] by {
        if i < state.closed.len() {
            assert(after.closed[i] == state.closed[i]);
            if j < state.closed.len() {
                assert(after.closed[j] == state.closed[j]);
            } else {
                assert(state.dist[state.closed[i] as int] <= entry.0);
            }
        }
    }
    assert forall|i: int| 0 <= i < after.closed.len() - 1 implies relaxed(
        g,
        after,
        #[trigger] after.closed[i],
        (g.adjacency)(after.closed[i]).len() as int,
    ) by {
        assert(after.closed[i] == state.closed[i]);
        if i == state.closed.len() - 1 {
            assert(relaxed(
                g,
                state,
                state.closed.last(),
                (g.adjacency)(state.closed.last()).len() as int,
            ));
        } else {
            assert(relaxed(g, state, state.closed[i], (g.adjacency)(state.closed[i]).len() as int));
        }
    }
    assert forall|node: u32|
        node < node_count && node != source && (#[trigger] after.dist[node as int])
            < UNREACHED implies well_reached(g, after, node) by {
        assert(well_reached(g, state, node));
        lemma_rank_push(state, node, entry.1);
        lemma_rank_push(state, state.parent[node].parent, entry.1);
    }
}

/// Relaxing one more edge of the node that was settled last keeps what holds.
#[verifier::spinoff_prover]
#[verifier::rlimit(60)]
pub proof fn lemma_relax_edge(
    g: WeightedGraph,
    state: Frontier,
    node_count: nat,
    source: u32,
    upto: int,
)
    requires
        weighted_bounded(g, node_count),
        state.closed.len() > 0,
        0 <= upto < (g.adjacency)(state.closed.last()).len(),
        frontier_inv(g, state, node_count, source, upto),
    ensures
        frontier_inv(
            g,
            relax_edge(
                g,
                state,
                state.closed.last(),
                state.dist[state.closed.last() as int],
                (g.adjacency)(state.closed.last())[upto],
            ),
            node_count,
            source,
            upto + 1,
        ),
        relax_edge(
            g,
            state,
            state.closed.last(),
            state.dist[state.closed.last() as int],
            (g.adjacency)(state.closed.last())[upto],
        ).dist[state.closed.last() as int] == state.dist[state.closed.last() as int],
{
    reveal(frontier_inv);
    broadcast use vstd::multiset::group_multiset_axioms;

    let node = state.closed.last();
    let cost = state.dist[node as int];
    let edge = (g.adjacency)(node)[upto];
    let after = relax_edge(g, state, node, cost, edge);
    assert(state.closed[state.closed.len() - 1] == node);
    if (g.allows)(edge) && cost + edge.weight < state.dist[edge.target as int] {
        let new_cost = (cost + edge.weight) as u64;
        let target = edge.target;
        assert((g.allows)((g.adjacency)(node)[upto]));
        assert(target < node_count);
        assert(!state.closed.contains(target)) by {
            if state.closed.contains(target) {
                let i = choose|i: int| 0 <= i < state.closed.len() && state.closed[i] == target;
                assert(state.dist[state.closed[i] as int] <= state.dist[state.closed[state.closed.len()
                    - 1] as int]);
            }
        }
        assert(target != source) by {
            assert(state.dist[source as int] == 0);
        }
        assert(!state.queue.contains((new_cost, target)));
        assert forall|i: int| 0 <= i < state.closed.len() implies after.dist[(
        #[trigger] state.closed[i]) as int] == state.dist[state.closed[i] as int] by {
            assert(state.closed[i] != target);
        }
        assert forall|other: (u64, u32)| #[trigger] after.queue.contains(other) implies {
            &&& other.1 < node_count
            &&& after.dist[other.1 as int] <= other.0 < UNREACHED
            &&& after.queue.count(other) == 1
            &&& after.closed.contains(other.1) ==> after.dist[other.1 as int] < other.0
        } by {
            if other != (new_cost, target) {
                assert(state.queue.contains(other));
            }
        }
        assert forall|n: u32|
            n < node_count && (#[trigger] after.dist[n as int]) < UNREACHED
                && !after.closed.contains(n) implies after.queue.contains(
            (after.dist[n as int], n),
        ) by {
            if n != target {
                assert(state.dist[n as int] == after.dist[n as int]);
                assert(state.queue.contains((state.dist[n as int], n)));
            }
        }
        assert forall|i: int, other: (u64, u32)|
            0 <= i < after.closed.len() && after.queue.contains(other) implies (
        #[trigger] after.dist[after.closed[i] as int]) <= (#[trigger] other.0) by {
            assert(state.dist[state.closed[i] as int] <= state.dist[state.closed[state.closed.len()
                - 1] as int]);
            if other != (new_cost, target) {
                assert(state.queue.contains(other));
                assert(state.dist[state.closed[i] as int] <= other.0);
            }
        }
        assert forall|i: int| 0 <= i < after.closed.len() - 1 implies relaxed(
            g,
            after,
            #[trigger] after.closed[i],
            (g.adjacency)(after.closed[i]).len() as int,
        ) by {
            assert(relaxed(g, state, state.closed[i], (g.adjacency)(state.closed[i]).len() as int));
        }
        assert(relaxed(g, after, node, upto + 1)) by {
            assert(relaxed(g, state, node, upto));
        }
        assert forall|n: u32|
            n < node_count && n != source && (#[trigger] after.dist[n as int])
                < UNREACHED implies well_reached(g, after, n) by {
            assert forall|m: u32| rank(after, m) == rank(state, m) by {}
            if n == target {
                assert((g.adjacency)(node)[upto].target == n);
                assert(state.closed.contains(node));
                assert(state.closed[state.closed.index_of(node)] == node);
            } else {
                assert(state.dist[n as int] == after.dist[n as int]);
                assert(well_reached(g, state, n));
                let p = state.parent[n].parent;
                let i = choose|i: int| 0 <= i < state.closed.len() && state.closed[i] == p;
                assert(state.closed[i] == p);
            }
        }
    } else {
        assert(relaxed(g, after, node, upto + 1)) by {
            assert(relaxed(g, state, node, upto));
        }
    }
}

/// What holds between two settlements: every settled node has had all its
/// edges relaxed.
pub open spec fn complete_inv(
    g: WeightedGraph,
    state: Frontier,
    node_count: nat,
    source: u32,
) -> bool {
    frontier_inv(
        g,
        state,
        node_count,
        source,
        if state.closed.len() > 0 {
            (g.adjacency)(state.closed.last()).len() as int
        } else {
            0
        },
    )
}

/// Relaxing the first edges of the node that was settled last.
pub proof fn lemma_relax(
    g: WeightedGraph,
    state: Frontier,
    node_count: nat,
    source: u32,
    upto: int,
)
    requires
        weighted_bounded(g, node_count),
        state.closed.len() > 0,
        0 <= upto <= (g.adjacency)(state.closed.last()).len(),
        frontier_inv(g, state, node_count, source, 0),
    ensures
        ({
            let node = state.closed.last();
            let cost = state.dist[node as int];
            let after = relax(g, state, node, cost, (g.adjacency)(node).take(upto));
            &&& frontier_inv(g, after, node_count, source, upto)
            &&& after.closed == state.closed
            &&& after.dist[node as int] == cost
        }),
    decreases upto,
{
    let node = state.closed.last();
    let cost = state.dist[node as int];
    let edges = (g.adjacency)(node);
    if upto > 0 {
        lemma_relax(g, state, node_count, source, upto - 1);
        let before = relax(g, state, node, cost, edges.take(upto - 1));
        assert(edges.take(upto).drop_last() =~= edges.take(upto - 1));
        assert(edges.take(upto).last() == edges[upto - 1]);
        lemma_relax_edge(g, before, node_count, source, upto - 1);
    } else {
        assert(edges.take(0).len() == 0);
    }
}

/// Looking at one more edge.
pub proof fn lemma_relax_next(
    g: WeightedGraph,
    state: Frontier,
    node: u32,
    cost: u64,
    edges: Seq<WeightedNeighbor>,
    at: int,
)
    requires
        0 <= at < edges.len(),
    ensures
        relax(g, state, node, cost, edges.take(at + 1)) == relax_edge(
            g,
            relax(g, state, node, cost, edges.take(at)),
            node,
            cost,
            edges[at],
        ),
{
    assert(edges.take(at + 1).drop_last() =~= edges.take(at));
}

/// Settling one entry keeps what holds, and either settles a node or shortens
/// the queue.
pub proof fn lemma_settle(g: WeightedGraph, state: Frontier, node_count: nat, source: u32)
    requires
        weighted_bounded(g, node_count),
        complete_inv(g, state, node_count, source),
        state.queue.len() > 0,
    ensures
        complete_inv(g, settle(g, state), node_count, source),
        settle(g, state).closed.len() == state.closed.len() + 1 || (settle(g, state).closed.len()
            == state.closed.len() && settle(g, state).queue.len() == state.queue.len() - 1),
{
    reveal(frontier_inv);
    broadcast use vstd::multiset::group_multiset_axioms;

    lemma_least_exists(state.queue);
    let entry = least_entry(state.queue);
    let taken = take_entry(state, entry);
    if entry.0 > state.dist[entry.1 as int] {
        let upto = if state.closed.len() > 0 {
            (g.adjacency)(state.closed.last()).len() as int
        } else {
            0
        };
        lemma_drop_stale(g, state, node_count, source, upto);
    } else {
        lemma_take_fresh(g, state, node_count, source);
        let edges = (g.adjacency)(entry.1);
        assert(taken.closed.last() == entry.1);
        lemma_relax(g, taken, node_count, source, edges.len() as int);
        assert(edges.take(edges.len() as int) =~= edges);
    }
}

/// What waits and what is recorded concerns nodes.
pub proof fn lemma_frontier_shape(g: WeightedGraph, state: Frontier, node_count: nat, source: u32)
    requires
        complete_inv(g, state, node_count, source),
    ensures
        state.dist.len() == node_count,
        state.parent.dom().contains(source),
        forall|entry: (u64, u32)| #[trigger]
            state.queue.contains(entry) ==> entry.1 < node_count && entry.0 < UNREACHED,
{
    reveal(frontier_inv);
}

/// A reached node other than the source is well reached, from a settled node.
pub proof fn lemma_reached(
    g: WeightedGraph,
    state: Frontier,
    node_count: nat,
    source: u32,
    node: u32,
)
    requires
        complete_inv(g, state, node_count, source),
        node < node_count,
        node != source,
        state.dist[node as int] < UNREACHED,
    ensures
        well_reached(g, state, node),
        0 <= rank(state, state.parent[node].parent),
        state.dist[state.parent[node].parent as int] < UNREACHED,
{
    reveal(frontier_inv);
    assert(well_reached(g, state, node));
    let p = state.parent[node].parent;
    let k = state.closed.index_of(p);
    assert(state.closed[k] == p);
}

/// Settled nodes are at most as many as the nodes.
pub proof fn lemma_closed_fit(g: WeightedGraph, state: Frontier, node_count: nat, source: u32)
    requires
        complete_inv(g, state, node_count, source),
    ensures
        state.closed.len() <= node_count,
{
    reveal(frontier_inv);
    let nodes = Seq::new(state.closed.len(), |i: int| state.closed[i] as int);
    assert(nodes.no_duplicates());
    nodes.unique_seq_to_set();
    let range = vstd::set_lib::set_int_range(0, node_count as int);
    vstd::set_lib::lemma_int_range(0, node_count as int);
    assert(nodes.to_set().subset_of(range)) by {
        assert forall|n: int| nodes.to_set().contains(n) implies range.contains(n) by {
            let i = choose|i: int| 0 <= i < nodes.len() && nodes[i] == n;
            assert(state.closed[i] as int == n);
        }
    }
    vstd::set_lib::lemma_len_subset(nodes.to_set(), range);
}

/// A search comes to an end.
pub proof fn lemma_ends(
    g: WeightedGraph,
    state: Frontier,
    target: u32,
    node_count: nat,
    source: u32,
) -> (steps: nat)
    requires
        weighted_bounded(g, node_count),
        complete_inv(g, state, node_count, source),
    ensures
        is_over(run(g, state, target, steps), target),
        complete_inv(g, run(g, state, target, steps), node_count, source),
    decreases node_count - state.closed.len(), state.queue.len(),
{
    if is_over(state, target) {
        0
    } else {
        lemma_settle(g, state, node_count, source);
        lemma_closed_fit(g, state, node_count, source);
        lemma_closed_fit(g, settle(g, state), node_count, source);
        let steps = lemma_ends(g, settle(g, state), target, node_count, source);
        steps + 1
    }
}

/// Running on from where a run stopped.
pub proof fn lemma_run_split(
    g: WeightedGraph,
    state: Frontier,
    target: u32,
    first: nat,
    second: nat,
)
    ensures
        run(g, state, target, first + second) == run(g, run(g, state, target, first), target, second),
    decreases first,
{
    if first > 0 && !is_over(state, target) {
        lemma_run_split(g, settle(g, state), target, (first - 1) as nat, second);
    }
}

/// A run that is over is where the search ends.
pub proof fn lemma_run_is_final(
    g: WeightedGraph,
    node_count: nat,
    source: u32,
    target: u32,
    steps: nat,
)
    requires
        is_over(run(g, start_frontier(node_count, source), target, steps), target),
    ensures
        final_frontier(g, node_count, source, target) == run(
            g,
            start_frontier(node_count, source),
            target,
            steps,
        ),
{
    let start = start_frontier(node_count, source);
    let other = choose|steps: nat| is_over(#[trigger] run(g, start, target, steps), target);
    if steps <= other {
        lemma_run_split(g, start, target, steps, (other - steps) as nat);
    } else {
        lemma_run_split(g, start, target, other, (steps - other) as nat);
    }
}

/// Whether such an edge is looked at when the least entry is settled.
pub open spec fn settle_looks(
    g: WeightedGraph,
    such: spec_fn(WeightedNeighbor) -> bool,
    state: Frontier,
) -> bool {
    let entry = least_entry(state.queue);
    entry.0 <= state.dist[entry.1 as int] && some_such(such, (g.adjacency)(entry.1))
}

/// Whether such an edge is looked at when up to `steps` entries are settled.
pub open spec fn run_looks(
    g: WeightedGraph,
    such: spec_fn(WeightedNeighbor) -> bool,
    state: Frontier,
    target: u32,
    steps: nat,
) -> bool
    decreases steps,
{
    if steps == 0 || is_over(state, target) {
        false
    } else {
        settle_looks(g, such, state) || run_looks(
            g,
            such,
            settle(g, state),
            target,
            (steps - 1) as nat,
        )
    }
}

/// Whether a search for the target looks at such an edge until it ends.
pub open spec fn final_looks(
    g: WeightedGraph,
    such: spec_fn(WeightedNeighbor) -> bool,
    node_count: nat,
    source: u32,
    target: u32,
) -> bool {
    let start = start_frontier(node_count, source);
    run_looks(
        g,
        such,
        start,
        target,
        choose|steps: nat| is_over(#[trigger] run(g, start, target, steps), target),
    )
}

proof fn lemma_run_looks_split(
    g: WeightedGraph,
    such: spec_fn(WeightedNeighbor) -> bool,
    state: Frontier,
    target: u32,
    first: nat,
    second: nat,
)
    ensures
        run_looks(g, such, state, target, first + second) == (run_looks(
            g,
            such,
            state,
            target,
            first,
        ) || run_looks(g, such, run(g, state, target, first), target, second)),
    decreases first,
{
    if first > 0 && !is_over(state, target) {
        lemma_run_looks_split(g, such, settle(g, state), target, (first - 1) as nat, second);
    }
}

/// One more step of a run that is not over.
pub proof fn lemma_run_looks_next(
    g: WeightedGraph,
    such: spec_fn(WeightedNeighbor) -> bool,
    state: Frontier,
    target: u32,
    steps: nat,
)
    requires
        !is_over(run(g, state, target, steps), target),
    ensures
        run_looks(g, such, state, target, steps + 1) == (run_looks(g, such, state, target, steps)
            || settle_looks(g, such, run(g, state, target, steps))),
{
    let here = run(g, state, target, steps);
    lemma_run_looks_split(g, such, state, target, steps, 1);
    assert(!run_looks(g, such, settle(g, here), target, 0));
    assert(run_looks(g, such, here, target, 1) == settle_looks(g, such, here));
}

/// What a run looks at, the whole search does, and nothing else once the run is
/// over.
pub proof fn lemma_run_looks_within(
    g: WeightedGraph,
    such: spec_fn(WeightedNeighbor) -> bool,
    node_count: nat,
    source: u32,
    target: u32,
    steps: nat,
)
    requires
        weighted_bounded(g, node_count),
        source < node_count,
    ensures
        run_looks(g, such, start_frontier(node_count, source), target, steps) ==> final_looks(
            g,
            such,
            node_count,
            source,
            target,
        ),
        is_over(run(g, start_frontier(node_count, source), target, steps), target) ==> run_looks(
            g,
            such,
            start_frontier(node_count, source),
            target,
            steps,
        ) == final_looks(g, such, node_count, source, target),
{
    let start = start_frontier(node_count, source);
    lemma_start(g, node_count, source);
    let some = lemma_ends(g, start, target, node_count, source);
    let end = choose|steps: nat| is_over(#[trigger] run(g, start, target, steps), target);
    if steps <= end {
        lemma_run_looks_split(g, such, start, target, steps, (end - steps) as nat);
    } else {
        lemma_run_looks_split(g, such, start, target, end, (steps - end) as nat);
    }
}

/// What no edge is, no search looks at.
pub proof fn lemma_run_looks_none(
    g: WeightedGraph,
    such: spec_fn(WeightedNeighbor) -> bool,
    state: Frontier,
    target: u32,
    steps: nat,
)
    requires
        forall|edge: WeightedNeighbor| !#[trigger] such(edge),
    ensures
        !run_looks(g, such, state, target, steps),
    decreases steps,
{
    if steps > 0 {
        lemma_run_looks_none(g, such, settle(g, state), target, (steps - 1) as nat);
    }
}

proof fn lemma_run_work_split(
    g: WeightedGraph,
    state: Frontier,
    target: u32,
    first: nat,
    second: nat,
)
    ensures
        run_work(g, state, target, first + second) == run_work(g, state, target, first)
            + run_work(g, run(g, state, target, first), target, second),
    decreases first,
{
    if first > 0 && !is_over(state, target) {
        lemma_run_work_split(g, settle(g, state), target, (first - 1) as nat, second);
    }
}

/// One more step of a run that is not over.
pub proof fn lemma_run_work_next(g: WeightedGraph, state: Frontier, target: u32, steps: nat)
    requires
        !is_over(run(g, state, target, steps), target),
    ensures
        run_work(g, state, target, steps + 1) == run_work(g, state, target, steps) + settle_work(
            g,
            run(g, state, target, steps),
        ),
{
    let here = run(g, state, target, steps);
    lemma_run_work_split(g, state, target, steps, 1);
    assert(run_work(g, settle(g, here), target, 0) == 0);
    assert(run_work(g, here, target, 1) == settle_work(g, here));
}

/// A run looks at no more edges than the whole search, and at all of them once
/// it is over.
pub proof fn lemma_run_work_within(
    g: WeightedGraph,
    node_count: nat,
    source: u32,
    target: u32,
    steps: nat,
)
    requires
        weighted_bounded(g, node_count),
        source < node_count,
    ensures
        run_work(g, start_frontier(node_count, source), target, steps) <= final_work(
            g,
            node_count,
            source,
            target,
        ),
        is_over(run(g, start_frontier(node_count, source), target, steps), target) ==> run_work(
            g,
            start_frontier(node_count, source),
            target,
            steps,
        ) == final_work(g, node_count, source, target),
{
    let start = start_frontier(node_count, source);
    lemma_start(g, node_count, source);
    let some = lemma_ends(g, start, target, node_count, source);
    let end = choose|steps: nat| is_over(#[trigger] run(g, start, target, steps), target);
    if steps <= end {
        lemma_run_work_split(g, start, target, steps, (end - steps) as nat);
    } else {
        lemma_run_work_split(g, start, target, end, (steps - end) as nat);
    }
}

/// The final state of a search, and what holds of it.
pub proof fn lemma_final(g: WeightedGraph, node_count: nat, source: u32, target: u32)
    requires
        weighted_bounded(g, node_count),
        source < node_count,
    ensures
        complete_inv(g, final_frontier(g, node_count, source, target), node_count, source),
        is_over(final_frontier(g, node_count, source, target), target),
{
    let start = start_frontier(node_count, source);
    lemma_start(g, node_count, source);
    let steps = lemma_ends(g, start, target, node_count, source);
    lemma_run_is_final(g, node_count, source, target, steps);
}

/// The walk along recorded parents.
pub proof fn lemma_lineage_walk(
    g: WeightedGraph,
    state: Frontier,
    node_count: nat,
    source: u32,
    node: u32,
) -> (walk: Seq<WeightedNeighbor>)
    requires
        complete_inv(g, state, node_count, source),
        node < node_count,
        state.dist[node as int] < UNREACHED,
    ensures
        weighted_walk_between(g, source, node, walk),
        walk_cost(walk, walk.len() as int) == state.dist[node as int],
        lineage(state, source, node).len() == walk.len() + 1,
        forall|i: int|
            0 <= i <= walk.len() ==> (#[trigger] lineage(state, source, node)[i]) == stands(
                source,
                walk,
                i,
            ),
        forall|i: int|
            0 <= i < walk.len() ==> {
                let step = state.parent[(#[trigger] walk[i]).target];
                step.parent == stands(source, walk, i) && step.edge_type == walk[i].type_id
                    && step.edge_weight == walk[i].weight
            },
        forall|i: int|
            0 <= i <= walk.len() ==> (#[trigger] lineage(state, source, node)[i]) < node_count
                && state.dist[lineage(state, source, node)[i] as int] == walk_cost(walk, i),
    decreases rank(state, node),
{
    reveal(frontier_inv);
    if node == source {
        let walk = Seq::<WeightedNeighbor>::empty();
        assert(lineage(state, source, node) =~= seq![source]);
        walk
    } else {
        assert(well_reached(g, state, node));
        let step = state.parent[node];
        let k = state.closed.index_of(step.parent);
        assert(state.closed[k] == step.parent);
        assert(state.dist[state.closed[k] as int] < UNREACHED);
        let before = lemma_lineage_walk(g, state, node_count, source, step.parent);
        let e = choose|i: int|
            0 <= i < (g.adjacency)(step.parent).len() && (g.allows)(
                (#[trigger] (g.adjacency)(step.parent)[i]),
            ) && (g.adjacency)(step.parent)[i].target == node && (g.adjacency)(
                step.parent,
            )[i].type_id == step.edge_type && (g.adjacency)(step.parent)[i].weight
                == step.edge_weight;
        let edge = (g.adjacency)(step.parent)[e];
        let walk = before.push(edge);
        let line = lineage(state, source, node);
        assert(line == lineage(state, source, step.parent).push(node));
        lemma_cost_prefix(before, walk, before.len() as int);
        assert forall|i: int| 0 <= i <= walk.len() implies (#[trigger] line[i]) == stands(
            source,
            walk,
            i,
        ) && line[i] < node_count && state.dist[line[i] as int] == walk_cost(walk, i) by {
            if i <= before.len() {
                lemma_cost_prefix(before, walk, i);
                assert(line[i] == lineage(state, source, step.parent)[i]);
                assert(stands(source, walk, i) == stands(source, before, i));
            }
        }
        assert forall|i: int| 0 <= i < walk.len() implies {
            &&& (g.adjacency)(stands(source, walk, i)).contains(#[trigger] walk[i])
            &&& (g.allows)(walk[i])
        } by {
            assert(stands(source, walk, i) == stands(source, before, i));
            if i < before.len() {
                assert(walk[i] == before[i]);
            }
        }
        assert forall|i: int| 0 <= i < walk.len() implies {
            let step = state.parent[(#[trigger] walk[i]).target];
            step.parent == stands(source, walk, i) && step.edge_type == walk[i].type_id
                && step.edge_weight == walk[i].weight
        } by {
            assert(stands(source, walk, i) == stands(source, before, i));
            if i < before.len() {
                assert(walk[i] == before[i]);
            }
        }
        walk
    }
}

proof fn lemma_cost_prefix(short: Seq<WeightedNeighbor>, long: Seq<WeightedNeighbor>, count: int)
    requires
        count <= short.len() <= long.len(),
        forall|i: int| 0 <= i < short.len() ==> #[trigger] long[i] == short[i],
    ensures
        walk_cost(short, count) == walk_cost(long, count),
    decreases count,
{
    if count > 0 {
        lemma_cost_prefix(short, long, count - 1);
        assert(long[count - 1] == short[count - 1]);
    }
}

/// Once a search is over, a walk's prefix costs at least what is recorded for
/// its end, or at least what is recorded for the target.
proof fn lemma_prefix_cost(
    g: WeightedGraph,
    state: Frontier,
    node_count: nat,
    source: u32,
    target: u32,
    walk: Seq<WeightedNeighbor>,
    count: int,
)
    requires
        complete_inv(g, state, node_count, source),
        is_over(state, target),
        weighted_bounded(g, node_count),
        is_weighted_walk(g, source, walk),
        0 <= count <= walk.len(),
        walk_cost(walk, count) < UNREACHED,
        target < node_count,
    ensures
        stands(source, walk, count) < node_count,
        state.dist[stands(source, walk, count) as int] <= walk_cost(walk, count)
            || state.dist[target as int] <= walk_cost(walk, count),
    decreases count,
{
    reveal(frontier_inv);
    if count > 0 {
        let last = walk[count - 1];
        let before = stands(source, walk, count - 1);
        let row = (g.adjacency)(before);
        let e = choose|e: int| 0 <= e < row.len() && row[e] == last;
        assert((g.allows)((g.adjacency)(before)[e]));
        lemma_prefix_cost(g, state, node_count, source, target, walk, count - 1);
        if state.dist[target as int] > walk_cost(walk, count - 1) {
            if state.closed.contains(before) {
                let i = choose|i: int| 0 <= i < state.closed.len() && state.closed[i] == before;
                assert(state.closed[i] == before);
                if i == state.closed.len() - 1 {
                    assert(relaxed(
                        g,
                        state,
                        state.closed.last(),
                        (g.adjacency)(state.closed.last()).len() as int,
                    ));
                } else {
                    assert(relaxed(
                        g,
                        state,
                        state.closed[i],
                        (g.adjacency)(state.closed[i]).len() as int,
                    ));
                }
                assert((g.adjacency)(before)[e].target == stands(source, walk, count));
            } else {
                broadcast use vstd::multiset::group_multiset_axioms;

                let entry = (state.dist[before as int], before);
                assert(state.queue.contains(entry));
                assert(state.queue.len() > 0) by {
                    assert(state.queue.remove(entry).len() == state.queue.len() - 1);
                }
                lemma_least_exists(state.queue);
                let least = least_entry(state.queue);
                assert(state.queue.contains(least));
                assert(entry_le(least, entry));
            }
        }
    }
}

/// Whether a walk goes along the recorded parents: node by node, with the type
/// and weight of each edge and the cost of each node as they are recorded.
pub open spec fn lineage_follows(
    state: Frontier,
    source: u32,
    node: u32,
    walk: Seq<WeightedNeighbor>,
) -> bool {
    let line = lineage(state, source, node);
    &&& line.len() == walk.len() + 1
    &&& forall|i: int|
        0 <= i < line.len() ==> (#[trigger] line[i]) == stands(source, walk, i)
            && state.dist[line[i] as int] == walk_cost(walk, i)
    &&& forall|i: int|
        0 <= i < walk.len() ==> {
            let step = state.parent[(#[trigger] walk[i]).target];
            step.parent == stands(source, walk, i) && step.edge_type == walk[i].type_id
                && step.edge_weight == walk[i].weight
        }
}

/// Dijkstra's search records for the target the least cost of any admitted
/// walk: no walk is cheaper than what is recorded, and a recorded cost is that
/// of the walk along the recorded parents.
pub proof fn law_recorded_cost_is_least(
    g: WeightedGraph,
    node_count: nat,
    source: u32,
    target: u32,
    walk: Seq<WeightedNeighbor>,
)
    requires
        weighted_bounded(g, node_count),
        source < node_count,
        target < node_count,
    ensures
        ({
            let state = final_frontier(g, node_count, source, target);
            &&& weighted_walk_between(g, source, target, walk) && walk_cost(
                walk,
                walk.len() as int,
            ) < UNREACHED ==> state.dist[target as int] <= walk_cost(walk, walk.len() as int)
            &&& state.dist[target as int] < UNREACHED ==> exists|own: Seq<WeightedNeighbor>|
                #![trigger is_weighted_walk(g, source, own)]
                weighted_walk_between(g, source, target, own) && walk_cost(
                    own,
                    own.len() as int,
                ) == state.dist[target as int] && lineage_follows(state, source, target, own)
        }),
{
    let state = final_frontier(g, node_count, source, target);
    lemma_final(g, node_count, source, target);
    if weighted_walk_between(g, source, target, walk) && walk_cost(walk, walk.len() as int)
        < UNREACHED {
        lemma_prefix_cost(g, state, node_count, source, target, walk, walk.len() as int);
    }
    if state.dist[target as int] < UNREACHED {
        let own = lemma_lineage_walk(g, state, node_count, source, target);
        assert(is_weighted_walk(g, source, own));
        assert(lineage_follows(state, source, target, own));
    }
}

} // verus!
