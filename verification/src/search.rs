//! Breadth-first discovery as a mathematical object: the order in which nodes
//! are found, the trail that leads to each, and why trails are shortest.
use vstd::prelude::*;

use crate::neighbors::Neighbor;
use crate::types::EdgeTypeId;

verus! {

/// A graph as a search sees it: every node's edges in order, and which of them
/// may be followed.
pub struct SearchGraph {
    pub adjacency: spec_fn(u32) -> Seq<Neighbor>,
    pub allows: spec_fn(Neighbor) -> bool,
}

/// A discovered node.
#[verifier::ext_equal]
pub struct Visit {
    pub node: u32,
    /// Position, in the discovery order, of the node it was found from.
    pub from: int,
    /// Type of the edge it was found by.
    pub edge_type: EdgeTypeId,
    /// Depth that the search recorded for it.
    pub label: int,
}

/// The discovery of a search's root.
pub open spec fn root_visit(node: u32) -> Visit {
    Visit { node, from: 0, edge_type: EdgeTypeId(0), label: 0 }
}

/// Whether a node is among the discovered ones.
pub open spec fn discovered(order: Seq<Visit>, node: u32) -> bool {
    exists|i: int| 0 <= i < order.len() && (#[trigger] order[i]).node == node
}

/// The position of a discovered node.
pub open spec fn position_of(order: Seq<Visit>, node: u32) -> int {
    choose|i: int| 0 <= i < order.len() && (#[trigger] order[i]).node == node
}

/// The order after looking at one edge: a new admitted target is appended.
pub open spec fn absorb_edge(
    g: SearchGraph,
    order: Seq<Visit>,
    from: int,
    label: int,
    edge: Neighbor,
) -> Seq<Visit> {
    if (g.allows)(edge) && !discovered(order, edge.target) {
        order.push(Visit { node: edge.target, from, edge_type: edge.type_id, label })
    } else {
        order
    }
}

/// The order after looking at edges from first to last.
pub open spec fn absorb(
    g: SearchGraph,
    order: Seq<Visit>,
    from: int,
    label: int,
    edges: Seq<Neighbor>,
) -> Seq<Visit>
    decreases edges.len(),
{
    if edges.len() == 0 {
        order
    } else {
        absorb_edge(
            g,
            absorb(g, order, from, label, edges.drop_last()),
            from,
            label,
            edges.last(),
        )
    }
}

/// The order after expanding the first `count` discovered nodes from a root.
/// A node at the depth limit is not expanded.
pub open spec fn expanded(g: SearchGraph, root: u32, max_depth: int, count: nat) -> Seq<Visit>
    decreases count,
{
    if count == 0 {
        seq![root_visit(root)]
    } else {
        let before = expanded(g, root, max_depth, (count - 1) as nat);
        let at = count - 1;
        if at < before.len() && before[at].label < max_depth {
            absorb(g, before, at, before[at].label + 1, (g.adjacency)(before[at].node))
        } else {
            before
        }
    }
}

/// Whether a node is eventually found from a root.
pub open spec fn found(g: SearchGraph, root: u32, max_depth: int, node: u32) -> bool {
    exists|count: nat| discovered(#[trigger] expanded(g, root, max_depth, count), node)
}

/// How many expansions suffice to find a node that is found.
pub open spec fn rounds_to_find(g: SearchGraph, root: u32, max_depth: int, node: u32) -> nat {
    choose|count: nat| discovered(#[trigger] expanded(g, root, max_depth, count), node)
}

/// The nodes from the root to a position of an order, each with the type of
/// the edge it was found by.
pub open spec fn trail(order: Seq<Visit>, at: int) -> Seq<(u32, EdgeTypeId)>
    decreases at,
{
    let here = (order[at].node, order[at].edge_type);
    if 0 <= order[at].from < at {
        trail(order, order[at].from).push(here)
    } else {
        seq![here]
    }
}

/// The trail on which a breadth-first search finds the target, if it does.
pub open spec fn bfs_trail(g: SearchGraph, source: u32, target: u32, max_depth: int) -> Option<
    Seq<(u32, EdgeTypeId)>,
> {
    if found(g, source, max_depth, target) {
        let order = expanded(g, source, max_depth, rounds_to_find(g, source, max_depth, target));
        Some(trail(order, position_of(order, target)))
    } else {
        None
    }
}

/// Whether an edge may be followed to a node.
pub open spec fn leads_to(g: SearchGraph, edge: Neighbor, node: u32) -> bool {
    (g.allows)(edge) && edge.target == node
}

/// Whether one of these edges may be followed to a node.
pub open spec fn some_leads_to(g: SearchGraph, edges: Seq<Neighbor>, node: u32) -> bool {
    exists|i: int| 0 <= i < edges.len() && leads_to(g, #[trigger] edges[i], node)
}

/// How many of these edges are looked at until one may be followed to a node.
pub open spec fn edges_until(g: SearchGraph, edges: Seq<Neighbor>, node: u32) -> nat
    decreases edges.len(),
{
    if edges.len() == 0 {
        0
    } else if leads_to(g, edges[0], node) {
        1
    } else {
        1 + edges_until(g, edges.drop_first(), node)
    }
}

/// Whether one of these is such a one.
pub open spec fn some_such<T>(such: spec_fn(T) -> bool, items: Seq<T>) -> bool {
    exists|i: int| 0 <= i < items.len() && such(#[trigger] items[i])
}

/// Whether such an edge is looked at among these until one may be followed to a
/// node.
pub open spec fn looks_until(
    g: SearchGraph,
    such: spec_fn(Neighbor) -> bool,
    edges: Seq<Neighbor>,
    node: u32,
) -> bool
    decreases edges.len(),
{
    edges.len() > 0 && (such(edges[0]) || (!leads_to(g, edges[0], node) && looks_until(
        g,
        such,
        edges.drop_first(),
        node,
    )))
}

/// How many edges a breadth-first search looks at once its first `done` nodes
/// have been expanded, until it finds the target or has expanded `rounds` more.
pub open spec fn bfs_work(
    g: SearchGraph,
    source: u32,
    target: u32,
    max_depth: int,
    done: nat,
    rounds: nat,
) -> nat
    decreases rounds,
{
    let order = expanded(g, source, max_depth, done);
    let row = (g.adjacency)(order[done as int].node);
    if rounds == 0 || done >= order.len() {
        0
    } else if order[done as int].label >= max_depth {
        bfs_work(g, source, target, max_depth, done + 1, (rounds - 1) as nat)
    } else if some_leads_to(g, row, target) {
        edges_until(g, row, target)
    } else {
        row.len() + bfs_work(g, source, target, max_depth, done + 1, (rounds - 1) as nat)
    }
}

/// Whether a breadth-first search looks at such an edge once its first `done`
/// nodes have been expanded, until it finds the target or has expanded `rounds`
/// more. The edges are those that count as its work.
pub open spec fn bfs_looks(
    g: SearchGraph,
    such: spec_fn(Neighbor) -> bool,
    source: u32,
    target: u32,
    max_depth: int,
    done: nat,
    rounds: nat,
) -> bool
    decreases rounds,
{
    let order = expanded(g, source, max_depth, done);
    let row = (g.adjacency)(order[done as int].node);
    if rounds == 0 || done >= order.len() {
        false
    } else if order[done as int].label >= max_depth {
        bfs_looks(g, such, source, target, max_depth, done + 1, (rounds - 1) as nat)
    } else {
        looks_until(g, such, row, target) || (!some_leads_to(g, row, target) && bfs_looks(
            g,
            such,
            source,
            target,
            max_depth,
            done + 1,
            (rounds - 1) as nat,
        ))
    }
}

/// One more of these.
pub proof fn lemma_such_next<T>(such: spec_fn(T) -> bool, items: Seq<T>, at: int)
    requires
        0 <= at < items.len(),
    ensures
        some_such(such, items.take(at + 1)) == (some_such(such, items.take(at)) || such(
            items[at],
        )),
        some_such(such, items.take(at + 1)) ==> some_such(such, items),
{
    let more = items.take(at + 1);
    if some_such(such, more) {
        let i = choose|i: int| 0 <= i < more.len() && such(#[trigger] more[i]);
        assert(such(items[i]));
        if i < at {
            assert(such(items.take(at)[i]));
        }
    }
    if some_such(such, items.take(at)) {
        let i = choose|i: int| 0 <= i < at && such(#[trigger] items.take(at)[i]);
        assert(such(more[i]));
    }
    if such(items[at]) {
        assert(such(more[at]));
    }
}

/// Whether such an edge is looked at from here on.
pub proof fn lemma_looks_next(
    g: SearchGraph,
    such: spec_fn(Neighbor) -> bool,
    edges: Seq<Neighbor>,
    node: u32,
    at: int,
)
    requires
        0 <= at < edges.len(),
    ensures
        looks_until(g, such, edges.skip(at), node) == (such(edges[at]) || (!leads_to(
            g,
            edges[at],
            node,
        ) && looks_until(g, such, edges.skip(at + 1), node))),
{
    assert(edges.skip(at)[0] == edges[at]);
    assert(edges.skip(at).drop_first() =~= edges.skip(at + 1));
}

proof fn lemma_looks_none(
    g: SearchGraph,
    such: spec_fn(Neighbor) -> bool,
    edges: Seq<Neighbor>,
    node: u32,
)
    requires
        forall|edge: Neighbor| !#[trigger] such(edge),
    ensures
        !looks_until(g, such, edges, node),
    decreases edges.len(),
{
    if edges.len() > 0 {
        lemma_looks_none(g, such, edges.drop_first(), node);
    }
}

/// What no edge is, no search looks at.
pub proof fn lemma_bfs_looks_none(
    g: SearchGraph,
    such: spec_fn(Neighbor) -> bool,
    source: u32,
    target: u32,
    max_depth: int,
    done: nat,
    rounds: nat,
)
    requires
        forall|edge: Neighbor| !#[trigger] such(edge),
    ensures
        !bfs_looks(g, such, source, target, max_depth, done, rounds),
    decreases rounds,
{
    if rounds > 0 {
        let order = expanded(g, source, max_depth, done);
        lemma_looks_none(g, such, (g.adjacency)(order[done as int].node), target);
        lemma_bfs_looks_none(
            g,
            such,
            source,
            target,
            max_depth,
            done + 1,
            (rounds - 1) as nat,
        );
    }
}

/// Looking at one more edge, none before it having led to the node.
pub proof fn lemma_edges_until_next(g: SearchGraph, edges: Seq<Neighbor>, node: u32, at: int)
    requires
        0 <= at < edges.len(),
    ensures
        edges_until(g, edges.skip(at), node) == if leads_to(g, edges[at], node) {
            1
        } else {
            1 + edges_until(g, edges.skip(at + 1), node)
        },
{
    assert(edges.skip(at)[0] == edges[at]);
    assert(edges.skip(at).drop_first() =~= edges.skip(at + 1));
}

/// Without an edge that leads to the node, all are looked at.
pub proof fn lemma_edges_until_none(g: SearchGraph, edges: Seq<Neighbor>, node: u32)
    ensures
        !some_leads_to(g, edges, node) ==> edges_until(g, edges, node) == edges.len(),
    decreases edges.len(),
{
    if edges.len() > 0 {
        let rest = edges.drop_first();
        lemma_edges_until_none(g, rest, node);
        if !some_leads_to(g, edges, node) {
            assert(!leads_to(g, edges[0], node));
            assert forall|i: int| 0 <= i < rest.len() implies !leads_to(
                g,
                #[trigger] rest[i],
                node,
            ) by {
                assert(rest[i] == edges[i + 1]);
            }
        }
    }
}

/// Where a walk stands after its first `count` edges.
pub open spec fn stands_at(source: u32, walk: Seq<Neighbor>, count: int) -> u32 {
    if count <= 0 {
        source
    } else {
        walk[count - 1].target
    }
}

/// Whether edges form an admitted walk from the source.
pub open spec fn is_walk(g: SearchGraph, source: u32, walk: Seq<Neighbor>) -> bool {
    forall|i: int|
        0 <= i < walk.len() ==> {
            &&& (g.adjacency)(stands_at(source, walk, i)).contains(#[trigger] walk[i])
            &&& (g.allows)(walk[i])
        }
}

/// Whether edges form an admitted walk from the source to the target.
pub open spec fn walk_between(
    g: SearchGraph,
    source: u32,
    target: u32,
    walk: Seq<Neighbor>,
) -> bool {
    is_walk(g, source, walk) && stands_at(source, walk, walk.len() as int) == target
}

/// Whether a trail lists the nodes of a walk and the types of its edges.
pub open spec fn trail_follows(
    trail: Seq<(u32, EdgeTypeId)>,
    source: u32,
    walk: Seq<Neighbor>,
) -> bool {
    &&& trail.len() == walk.len() + 1
    &&& trail[0] == (source, EdgeTypeId(0))
    &&& forall|i: int|
        0 <= i < walk.len() ==> trail[i + 1] == ((#[trigger] walk[i]).target, walk[i].type_id)
}

/// Whether one admitted edge leads from a node to a visit.
pub open spec fn reaches(g: SearchGraph, node: u32, visit: Visit) -> bool {
    exists|i: int|
        0 <= i < (g.adjacency)(node).len() && (g.allows)((#[trigger] (g.adjacency)(node)[i]))
            && (g.adjacency)(node)[i].target == visit.node && (g.adjacency)(node)[i].type_id
            == visit.edge_type
}

/// Whether no node is discovered twice.
pub open spec fn distinct(order: Seq<Visit>) -> bool {
    forall|i: int, j: int|
        0 <= i < j < order.len() ==> (#[trigger] order[i]).node != (#[trigger] order[j]).node
}

/// Whether every visit but the root's comes from an earlier visit by an
/// admitted edge.
pub open spec fn rooted(g: SearchGraph, root: u32, order: Seq<Visit>) -> bool {
    &&& order.len() > 0
    &&& order[0] == root_visit(root)
    &&& forall|i: int|
        0 < i < order.len() ==> {
            &&& 0 <= (#[trigger] order[i]).from < i
            &&& reaches(g, order[order[i].from].node, order[i])
        }
}

pub proof fn lemma_absorb(
    g: SearchGraph,
    order: Seq<Visit>,
    from: int,
    label: int,
    edges: Seq<Neighbor>,
)
    ensures
        absorb(g, order, from, label, edges).len() >= order.len(),
        forall|i: int|
            0 <= i < order.len() ==> #[trigger] absorb(g, order, from, label, edges)[i] == order[i],
        forall|i: int|
            order.len() <= i < absorb(g, order, from, label, edges).len() ==> {
                let visit = #[trigger] absorb(g, order, from, label, edges)[i];
                &&& visit.from == from
                &&& visit.label == label
                &&& exists|j: int|
                    0 <= j < edges.len() && (g.allows)(#[trigger] edges[j]) && edges[j].target
                        == visit.node && edges[j].type_id == visit.edge_type
            },
        distinct(order) ==> distinct(absorb(g, order, from, label, edges)),
        forall|j: int|
            0 <= j < edges.len() && (g.allows)(#[trigger] edges[j]) ==> discovered(
                absorb(g, order, from, label, edges),
                edges[j].target,
            ),
    decreases edges.len(),
{
    if edges.len() > 0 {
        let rest = edges.drop_last();
        let before = absorb(g, order, from, label, rest);
        let after = absorb(g, order, from, label, edges);
        lemma_absorb(g, order, from, label, rest);
        let last = edges.last();
        assert(after == absorb_edge(g, before, from, label, last));
        assert forall|j: int|
            0 <= j < edges.len() && (g.allows)(#[trigger] edges[j]) implies discovered(
            after,
            edges[j].target,
        ) by {
            if j < rest.len() {
                assert(rest[j] == edges[j]);
                let p = position_of(before, edges[j].target);
                assert(after[p] == before[p]);
            } else if discovered(before, last.target) {
                let p = position_of(before, last.target);
                assert(after[p] == before[p]);
            } else {
                assert(after[before.len() as int].node == last.target);
            }
        }
        assert forall|i: int| order.len() <= i < after.len() implies {
            let visit = #[trigger] after[i];
            &&& visit.from == from
            &&& visit.label == label
            &&& exists|j: int|
                0 <= j < edges.len() && (g.allows)(#[trigger] edges[j]) && edges[j].target
                    == visit.node && edges[j].type_id == visit.edge_type
        } by {
            if i < before.len() {
                assert(after[i] == before[i]);
                let j = choose|j: int|
                    0 <= j < rest.len() && (g.allows)(#[trigger] rest[j]) && rest[j].target
                        == before[i].node && rest[j].type_id == before[i].edge_type;
                assert(edges[j] == rest[j]);
            } else {
                assert(edges[edges.len() - 1] == last);
            }
        }
    }
}

/// Looking at one more edge.
pub proof fn lemma_absorb_next(
    g: SearchGraph,
    order: Seq<Visit>,
    from: int,
    label: int,
    edges: Seq<Neighbor>,
    at: int,
)
    requires
        0 <= at < edges.len(),
    ensures
        absorb(g, order, from, label, edges.take(at + 1)) == absorb_edge(
            g,
            absorb(g, order, from, label, edges.take(at)),
            from,
            label,
            edges[at],
        ),
{
    assert(edges.take(at + 1).drop_last() =~= edges.take(at));
}

/// Looking at fewer edges gives a beginning of the order.
pub proof fn lemma_absorb_take(
    g: SearchGraph,
    order: Seq<Visit>,
    from: int,
    label: int,
    edges: Seq<Neighbor>,
    upto: int,
)
    requires
        0 <= upto <= edges.len(),
    ensures
        absorb(g, order, from, label, edges.take(upto)).len() <= absorb(
            g,
            order,
            from,
            label,
            edges,
        ).len(),
        forall|i: int|
            0 <= i < absorb(g, order, from, label, edges.take(upto)).len() ==> #[trigger] absorb(
                g,
                order,
                from,
                label,
                edges,
            )[i] == absorb(g, order, from, label, edges.take(upto))[i],
    decreases edges.len(),
{
    if upto < edges.len() {
        lemma_absorb_take(g, order, from, label, edges.drop_last(), upto);
        assert(edges.drop_last().take(upto) =~= edges.take(upto));
    } else {
        assert(edges.take(upto) =~= edges);
    }
}

/// What holds of the order once `count` nodes have been expanded.
pub open spec fn expansion_inv(
    g: SearchGraph,
    root: u32,
    max_depth: int,
    order: Seq<Visit>,
    count: int,
) -> bool {
    &&& 0 <= count
    &&& distinct(order)
    &&& rooted(g, root, order)
    &&& forall|i: int|
        0 < i < order.len() ==> {
            &&& (#[trigger] order[i]).from < count
            &&& order[i].label == order[order[i].from].label + 1
            &&& order[i].label <= max_depth
        }
    &&& forall|i: int, j: int|
        0 <= i <= j < order.len() ==> (#[trigger] order[i]).label <= (#[trigger] order[j]).label
    &&& forall|i: int, j: int|
        count - 1 <= i < order.len() && 0 <= i && 0 <= j < order.len() ==> (
        #[trigger] order[j]).label <= (#[trigger] order[i]).label + 1
    &&& forall|i: int, e: int|
        0 <= i < count && i < order.len() && order[i].label < max_depth && 0 <= e < (g.adjacency)(
            order[i].node,
        ).len() && (g.allows)((#[trigger] (g.adjacency)((#[trigger] order[i]).node)[e]))
            ==> found_within(
            order,
            (g.adjacency)(order[i].node)[e].target,
            order[i].label + 1,
        )
}

/// Whether a node is discovered with at most the given label.
pub open spec fn found_within(order: Seq<Visit>, node: u32, label: int) -> bool {
    exists|i: int|
        0 <= i < order.len() && (#[trigger] order[i]).node == node && order[i].label <= label
}

/// Expanding one more node keeps what holds of the order.
#[verifier::spinoff_prover]
#[verifier::rlimit(40)]
pub proof fn lemma_expand_one(
    g: SearchGraph,
    root: u32,
    max_depth: int,
    before: Seq<Visit>,
    at: int,
)
    requires
        expansion_inv(g, root, max_depth, before, at),
        0 <= at < before.len(),
        before[at].label < max_depth,
    ensures
        expansion_inv(
            g,
            root,
            max_depth,
            absorb(g, before, at, before[at].label + 1, (g.adjacency)(before[at].node)),
            at + 1,
        ),
{
    let label = before[at].label + 1;
    let edges = (g.adjacency)(before[at].node);
    let order = absorb(g, before, at, label, edges);
    lemma_absorb(g, before, at, label, edges);
    assert(order[at] == before[at]);
    assert(rooted(g, root, order) && forall|i: int|
        0 < i < order.len() ==> {
            &&& (#[trigger] order[i]).from < at + 1
            &&& order[i].label == order[order[i].from].label + 1
            &&& order[i].label <= max_depth
        }) by {
        assert forall|i: int| 0 < i < order.len() implies {
            &&& 0 <= (#[trigger] order[i]).from < i
            &&& reaches(g, order[order[i].from].node, order[i])
            &&& order[i].from < at + 1
            &&& order[i].label == order[order[i].from].label + 1
            &&& order[i].label <= max_depth
        } by {
            if i < before.len() {
                assert(order[i] == before[i]);
                assert(order[before[i].from] == before[before[i].from]);
            } else {
                let j = choose|j: int|
                    0 <= j < edges.len() && (g.allows)(#[trigger] edges[j]) && edges[j].target
                        == order[i].node && edges[j].type_id == order[i].edge_type;
                assert((g.adjacency)(order[at].node)[j] == edges[j]);
            }
        }
        assert(order[0] == before[0]);
    }
    assert forall|i: int, j: int| 0 <= i <= j < order.len() implies (#[trigger] order[i]).label <= (
    #[trigger] order[j]).label by {
        if i < before.len() {
            assert(order[i] == before[i]);
            if j < before.len() {
                assert(order[j] == before[j]);
            } else {
                assert(before[i].label <= before[at].label + 1);
            }
        }
    }
    assert forall|i: int, j: int|
        at <= i < order.len() && 0 <= j < order.len() implies (#[trigger] order[j]).label <= (
    #[trigger] order[i]).label + 1 by {
        assert(order[at].label <= order[i].label);
        if j < before.len() {
            assert(order[j] == before[j]);
            assert(before[j].label <= before[at].label + 1);
        }
    }
    assert forall|i: int, e: int|
        0 <= i < at + 1 && i < order.len() && order[i].label < max_depth && 0 <= e < (g.adjacency)(
            order[i].node,
        ).len() && (g.allows)((#[trigger] (g.adjacency)((#[trigger] order[i]).node)[e])) implies found_within(
        order,
        (g.adjacency)(order[i].node)[e].target,
        order[i].label + 1,
    ) by {
        let target = (g.adjacency)(order[i].node)[e].target;
        assert(order[i] == before[i]);
        if i < at {
            assert((g.adjacency)(before[i].node)[e].target == target);
            assert(found_within(before, target, before[i].label + 1));
            let p = choose|p: int|
                0 <= p < before.len() && (#[trigger] before[p]).node == target && before[p].label
                    <= before[i].label + 1;
            assert(order[p] == before[p]);
        } else {
            assert(edges[e].target == target);
            let p = position_of(order, target);
            assert(order[p].label <= order[at].label + 1);
        }
    }
}

/// How many of the discovered nodes `count` expansions have expanded.
pub open spec fn settled_count(order: Seq<Visit>, count: nat) -> int {
    if count <= order.len() {
        count as int
    } else {
        order.len() as int
    }
}

pub proof fn lemma_expanded(g: SearchGraph, root: u32, max_depth: int, count: nat)
    ensures
        expansion_inv(
            g,
            root,
            max_depth,
            expanded(g, root, max_depth, count),
            settled_count(expanded(g, root, max_depth, count), count),
        ),
    decreases count,
{
    if count > 0 {
        let before = expanded(g, root, max_depth, (count - 1) as nat);
        let at = count - 1;
        lemma_expanded(g, root, max_depth, (count - 1) as nat);
        if at < before.len() && before[at].label < max_depth {
            lemma_expand_one(g, root, max_depth, before, at);
            lemma_absorb(
                g,
                before,
                at,
                before[at].label + 1,
                (g.adjacency)(before[at].node),
            );
        }
    }
}

/// An order only grows.
pub proof fn lemma_expanded_grows(
    g: SearchGraph,
    root: u32,
    max_depth: int,
    small: nat,
    large: nat,
)
    requires
        small <= large,
    ensures
        expanded(g, root, max_depth, small).len() <= expanded(g, root, max_depth, large).len(),
        forall|i: int|
            0 <= i < expanded(g, root, max_depth, small).len() ==> #[trigger] expanded(
                g,
                root,
                max_depth,
                large,
            )[i] == expanded(g, root, max_depth, small)[i],
    decreases large - small,
{
    if small < large {
        let middle = (large - 1) as nat;
        lemma_expanded_grows(g, root, max_depth, small, middle);
        let before = expanded(g, root, max_depth, middle);
        if middle < before.len() && before[middle as int].label < max_depth {
            lemma_absorb(
                g,
                before,
                middle as int,
                before[middle as int].label + 1,
                (g.adjacency)(before[middle as int].node),
            );
        }
    }
}

/// A trail depends only on the order up to its end.
pub proof fn lemma_trail_prefix(small: Seq<Visit>, large: Seq<Visit>, at: int)
    requires
        0 <= at < small.len() <= large.len(),
        forall|i: int| 0 <= i < small.len() ==> #[trigger] large[i] == small[i],
    ensures
        trail(large, at) == trail(small, at),
    decreases at,
{
    if 0 <= small[at].from < at {
        lemma_trail_prefix(small, large, small[at].from);
    }
    assert(large[at] == small[at]);
}

/// A node that some order holds is found on the trail that this order gives.
pub proof fn lemma_found_trail(
    g: SearchGraph,
    source: u32,
    target: u32,
    max_depth: int,
    count: nat,
    at: int,
)
    requires
        0 <= at < expanded(g, source, max_depth, count).len(),
        expanded(g, source, max_depth, count)[at].node == target,
    ensures
        bfs_trail(g, source, target, max_depth) == Some(
            trail(expanded(g, source, max_depth, count), at),
        ),
{
    let order = expanded(g, source, max_depth, count);
    assert(discovered(order, target));
    let other = rounds_to_find(g, source, max_depth, target);
    let found_order = expanded(g, source, max_depth, other);
    let p = position_of(found_order, target);
    lemma_expanded(g, source, max_depth, count);
    lemma_expanded(g, source, max_depth, other);
    if count <= other {
        lemma_expanded_grows(g, source, max_depth, count, other);
        assert(found_order[at] == order[at]);
        assert(at == p);
        lemma_trail_prefix(order, found_order, at);
    } else {
        lemma_expanded_grows(g, source, max_depth, other, count);
        assert(order[p] == found_order[p]);
        assert(at == p);
        lemma_trail_prefix(found_order, order, p);
    }
}

/// Once every discovered node has been expanded, expanding more changes nothing.
pub proof fn lemma_expanded_settles(
    g: SearchGraph,
    root: u32,
    max_depth: int,
    count: nat,
    more: nat,
)
    requires
        expanded(g, root, max_depth, count).len() <= count <= more,
    ensures
        expanded(g, root, max_depth, more) == expanded(g, root, max_depth, count),
    decreases more - count,
{
    if count < more {
        lemma_expanded_settles(g, root, max_depth, count, (more - 1) as nat);
    }
}

/// A search that has expanded everything it discovered, without the target,
/// never finds the target.
pub proof fn lemma_not_found(
    g: SearchGraph,
    source: u32,
    target: u32,
    max_depth: int,
    count: nat,
)
    requires
        expanded(g, source, max_depth, count).len() <= count,
        !discovered(expanded(g, source, max_depth, count), target),
    ensures
        bfs_trail(g, source, target, max_depth) is None,
{
    assert forall|other: nat| !discovered(#[trigger] expanded(g, source, max_depth, other), target) by {
        if other <= count {
            lemma_expanded_grows(g, source, max_depth, other, count);
            if discovered(expanded(g, source, max_depth, other), target) {
                let p = position_of(expanded(g, source, max_depth, other), target);
                assert(expanded(g, source, max_depth, count)[p].node == target);
            }
        } else {
            lemma_expanded_settles(g, source, max_depth, count, other);
        }
    }
}

/// The walk along a trail.
pub proof fn lemma_trail_walk(g: SearchGraph, root: u32, order: Seq<Visit>, at: int) -> (walk: Seq<
    Neighbor,
>)
    requires
        rooted(g, root, order),
        0 <= at < order.len(),
    ensures
        walk_between(g, root, order[at].node, walk),
        trail_follows(trail(order, at), root, walk),
    decreases at,
{
    if at == 0 {
        let walk = Seq::<Neighbor>::empty();
        assert(trail(order, 0) =~= seq![(root, EdgeTypeId(0))]);
        walk
    } else {
        let from = order[at].from;
        let before = lemma_trail_walk(g, root, order, from);
        let e = choose|i: int|
            0 <= i < (g.adjacency)(order[from].node).len() && (g.allows)(
                (#[trigger] (g.adjacency)(order[from].node)[i]),
            ) && (g.adjacency)(order[from].node)[i].target == order[at].node && (g.adjacency)(
                order[from].node,
            )[i].type_id == order[at].edge_type;
        let edge = (g.adjacency)(order[from].node)[e];
        let walk = before.push(edge);
        assert forall|i: int| 0 <= i < walk.len() implies {
            &&& (g.adjacency)(stands_at(root, walk, i)).contains(#[trigger] walk[i])
            &&& (g.allows)(walk[i])
        } by {
            if i < before.len() {
                assert(walk[i] == before[i]);
                assert(stands_at(root, walk, i) == stands_at(root, before, i));
            } else {
                assert(stands_at(root, walk, i) == stands_at(root, before, i));
            }
        }
        assert forall|i: int| 0 <= i < walk.len() implies trail(order, at)[i + 1] == (
            (#[trigger] walk[i]).target,
            walk[i].type_id,
        ) by {
            if i < before.len() {
                assert(walk[i] == before[i]);
            }
        }
        walk
    }
}

/// The recorded label of a breadth-first visit is the length of its trail.
pub proof fn lemma_label_is_length(
    g: SearchGraph,
    root: u32,
    max_depth: int,
    order: Seq<Visit>,
    count: int,
    at: int,
)
    requires
        expansion_inv(g, root, max_depth, order, count),
        0 <= at < order.len(),
    ensures
        trail(order, at).len() == order[at].label + 1,
    decreases at,
{
    if at > 0 {
        lemma_label_is_length(g, root, max_depth, order, count, order[at].from);
    }
}

/// Every walk within the depth limit ends at a discovered node whose label is
/// at most the length of the walk, once all discovered nodes are expanded.
pub proof fn lemma_walk_is_found(
    g: SearchGraph,
    root: u32,
    max_depth: int,
    order: Seq<Visit>,
    walk: Seq<Neighbor>,
    length: int,
)
    requires
        expansion_inv(g, root, max_depth, order, order.len() as int),
        is_walk(g, root, walk),
        0 <= length <= walk.len(),
        length <= max_depth,
    ensures
        found_within(order, stands_at(root, walk, length), length),
    decreases length,
{
    if length == 0 {
        assert(order[0].node == root);
    } else {
        lemma_walk_is_found(g, root, max_depth, order, walk, length - 1);
        let node = stands_at(root, walk, length - 1);
        let p = choose|i: int|
            0 <= i < order.len() && (#[trigger] order[i]).node == node && order[i].label <= length
                - 1;
        let edge = walk[length - 1];
        let row = (g.adjacency)(node);
        let e = choose|e: int| 0 <= e < row.len() && row[e] == edge;
        assert((g.adjacency)(order[p].node)[e] == edge);
        assert((g.allows)((g.adjacency)(order[p].node)[e]));
        assert(found_within(order, edge.target, order[p].label + 1));
        let q = choose|i: int|
            0 <= i < order.len() && (#[trigger] order[i]).node == edge.target && order[i].label
                <= order[p].label + 1;
        assert(order[q].label <= length);
    }
}

/// Breadth-first search returns a shortest admitted walk: the trail follows an
/// admitted walk within the depth limit, and none is shorter.
pub proof fn law_bfs_trail_is_shortest(
    g: SearchGraph,
    source: u32,
    target: u32,
    max_depth: int,
    walk: Seq<Neighbor>,
)
    requires
        0 <= max_depth,
        bfs_trail(g, source, target, max_depth) is Some,
    ensures
        exists|own: Seq<Neighbor>|
            #![trigger is_walk(g, source, own)]
            walk_between(g, source, target, own) && trail_follows(
                bfs_trail(g, source, target, max_depth)->0,
                source,
                own,
            ) && own.len() <= max_depth,
        walk_between(g, source, target, walk) ==> bfs_trail(
            g,
            source,
            target,
            max_depth,
        )->0.len() <= walk.len() + 1,
{
    let count = rounds_to_find(g, source, max_depth, target);
    let order = expanded(g, source, max_depth, count);
    let at = position_of(order, target);
    lemma_expanded(g, source, max_depth, count);
    lemma_label_is_length(g, source, max_depth, order, settled_count(order, count), at);
    let own = lemma_trail_walk(g, source, order, at);
    assert(is_walk(g, source, own));
    if walk_between(g, source, target, walk) {
        lemma_walk_gives_label(g, source, max_depth, count, at, walk);
    }
}

/// A discovered node's label is at most the length of any walk to it.
proof fn lemma_walk_gives_label(
    g: SearchGraph,
    root: u32,
    max_depth: int,
    count: nat,
    at: int,
    walk: Seq<Neighbor>,
)
    requires
        0 <= at < expanded(g, root, max_depth, count).len(),
        is_walk(g, root, walk),
        stands_at(root, walk, walk.len() as int) == expanded(g, root, max_depth, count)[at].node,
    ensures
        expanded(g, root, max_depth, count)[at].label <= walk.len(),
{
    let order = expanded(g, root, max_depth, count);
    let settled = settled_count(order, count);
    lemma_expanded(g, root, max_depth, count);
    if walk.len() < order[at].label {
        lemma_short_walk_is_found(g, root, max_depth, order, settled, at, walk, walk.len() as int);
        let node = stands_at(root, walk, walk.len() as int);
        let p = choose|i: int|
            0 <= i < order.len() && (#[trigger] order[i]).node == node && order[i].label
                <= walk.len();
        assert(p == at);
    }
}

/// Walks shorter than some recorded label end at discovered nodes, because the
/// nodes before that label have all been expanded.
proof fn lemma_short_walk_is_found(
    g: SearchGraph,
    root: u32,
    max_depth: int,
    order: Seq<Visit>,
    count: int,
    at: int,
    walk: Seq<Neighbor>,
    length: int,
)
    requires
        expansion_inv(g, root, max_depth, order, count),
        count <= order.len(),
        0 <= at < order.len(),
        is_walk(g, root, walk),
        0 <= length <= walk.len(),
        length < order[at].label,
    ensures
        found_within(order, stands_at(root, walk, length), length),
    decreases length,
{
    if length == 0 {
        assert(order[0].node == root);
    } else {
        lemma_short_walk_is_found(g, root, max_depth, order, count, at, walk, length - 1);
        let node = stands_at(root, walk, length - 1);
        let p = choose|i: int|
            0 <= i < order.len() && (#[trigger] order[i]).node == node && order[i].label <= length
                - 1;
        let parent = order[at].from;
        assert(order[parent].label >= length);
        assert(p < count) by {
            if p >= count {
                assert(order[parent].label <= order[p].label);
            }
        }
        let edge = walk[length - 1];
        let row = (g.adjacency)(node);
        let e = choose|e: int| 0 <= e < row.len() && row[e] == edge;
        assert((g.adjacency)(order[p].node)[e] == edge);
        assert((g.allows)((g.adjacency)(order[p].node)[e]));
        assert(found_within(order, edge.target, order[p].label + 1));
        let q = choose|i: int|
            0 <= i < order.len() && (#[trigger] order[i]).node == edge.target && order[i].label
                <= order[p].label + 1;
        assert(order[q].label <= length);
    }
}

/// Whether every edge that may be followed leads below a bound.
pub open spec fn bounded(g: SearchGraph, bound: nat) -> bool {
    forall|node: u32, i: int|
        0 <= i < (g.adjacency)(node).len() && (g.allows)((#[trigger] (g.adjacency)(node)[i]))
            ==> (g.adjacency)(node)[i].target < bound
}

/// Distinct numbers below a bound are at most as many as the bound.
pub proof fn lemma_distinct_fit(order: Seq<Visit>, bound: nat)
    requires
        distinct(order),
        forall|i: int| 0 <= i < order.len() ==> (#[trigger] order[i]).node < bound,
    ensures
        order.len() <= bound,
{
    let nodes = Seq::new(order.len(), |i: int| order[i].node as int);
    assert(nodes.no_duplicates()) by {
        assert forall|i: int, j: int| 0 <= i < nodes.len() && 0 <= j < nodes.len() && i != j implies nodes[i]
            != nodes[j] by {
            if i < j {
                assert(order[i].node != order[j].node);
            } else {
                assert(order[j].node != order[i].node);
            }
        }
    }
    nodes.unique_seq_to_set();
    let range = vstd::set_lib::set_int_range(0, bound as int);
    vstd::set_lib::lemma_int_range(0, bound as int);
    assert(nodes.to_set().subset_of(range)) by {
        assert forall|n: int| nodes.to_set().contains(n) implies range.contains(n) by {
            let i = choose|i: int| 0 <= i < nodes.len() && nodes[i] == n;
            assert(order[i].node as int == n);
        }
    }
    vstd::set_lib::lemma_len_subset(nodes.to_set(), range);
}

/// Every discovered node but the root is the target of an edge that may be followed.
pub proof fn lemma_order_bounded(
    g: SearchGraph,
    root: u32,
    order: Seq<Visit>,
    bound: nat,
)
    requires
        rooted(g, root, order),
        distinct(order),
        bounded(g, bound),
        root < bound,
    ensures
        order.len() <= bound,
        forall|i: int| 0 <= i < order.len() ==> (#[trigger] order[i]).node < bound,
{
    assert forall|i: int| 0 <= i < order.len() implies (#[trigger] order[i]).node < bound by {
        if i > 0 {
            let node = order[order[i].from].node;
            let e = choose|e: int|
                0 <= e < (g.adjacency)(node).len() && (g.allows)(
                    (#[trigger] (g.adjacency)(node)[e]),
                ) && (g.adjacency)(node)[e].target == order[i].node && (g.adjacency)(node)[e].type_id
                    == order[i].edge_type;
            assert((g.allows)((g.adjacency)(node)[e]));
        }
    }
    lemma_distinct_fit(order, bound);
}

/// Breadth-first search finds the target exactly when an admitted walk of at
/// most `max_depth` edges leads to it.
pub proof fn law_bfs_finds_iff_walk_exists(
    g: SearchGraph,
    source: u32,
    target: u32,
    max_depth: int,
    bound: nat,
)
    requires
        bounded(g, bound),
        source < bound,
        0 <= max_depth,
    ensures
        bfs_trail(g, source, target, max_depth) is Some <==> exists|walk: Seq<Neighbor>|
            #[trigger] walk_between(g, source, target, walk) && walk.len() <= max_depth,
{
    if bfs_trail(g, source, target, max_depth) is Some {
        law_bfs_trail_is_shortest(g, source, target, max_depth, Seq::empty());
        let own = choose|own: Seq<Neighbor>|
            #![trigger is_walk(g, source, own)]
            walk_between(g, source, target, own) && trail_follows(
                bfs_trail(g, source, target, max_depth)->0,
                source,
                own,
            ) && own.len() <= max_depth;
        assert(walk_between(g, source, target, own));
    }
    if exists|walk: Seq<Neighbor>|
        #[trigger] walk_between(g, source, target, walk) && walk.len() <= max_depth {
        let walk = choose|walk: Seq<Neighbor>|
            #[trigger] walk_between(g, source, target, walk) && walk.len() <= max_depth;
        let order = expanded(g, source, max_depth, bound);
        lemma_expanded(g, source, max_depth, bound);
        lemma_order_bounded(g, source, order, bound);
        lemma_walk_is_found(g, source, max_depth, order, walk, walk.len() as int);
        assert(discovered(order, target));
    }
}

} // verus!
