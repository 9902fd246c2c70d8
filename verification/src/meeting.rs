//! Bidirectional search as a mathematical object: two discovery orders that
//! grow level by level until they meet.
use vstd::prelude::*;

use crate::neighbors::Neighbor;
use crate::search::{
    absorb, bfs_trail, bounded, discovered, distinct, expanded, found_within, is_walk,
    law_bfs_finds_iff_walk_exists, law_bfs_trail_is_shortest, lemma_absorb, lemma_expanded,
    lemma_label_is_length, lemma_trail_walk, position_of, reaches, root_visit, rooted,
    settled_count, some_such, stands_at, trail, trail_follows, walk_between, SearchGraph, Visit,
};
use crate::types::EdgeTypeId;

verus! {

/// The two sides of a bidirectional search.
#[verifier::ext_equal]
pub struct Sides {
    pub forward: Seq<Visit>,
    /// How many forward visits have been expanded.
    pub forward_done: int,
    pub backward: Seq<Visit>,
    /// How many backward visits have been expanded.
    pub backward_done: int,
}

/// Both roots discovered, nothing expanded.
pub open spec fn start_sides(source: u32, target: u32) -> Sides {
    Sides {
        forward: seq![root_visit(source)],
        forward_done: 0,
        backward: seq![root_visit(target)],
        backward_done: 0,
    }
}

/// The order after expanding its visits from `done` up to `upto`; every new
/// visit gets the same label.
pub open spec fn level(
    g: SearchGraph,
    order: Seq<Visit>,
    done: int,
    upto: int,
    label: int,
) -> Seq<Visit>
    decreases upto - done,
{
    if upto <= done {
        order
    } else {
        absorb(
            g,
            level(g, order, done, upto - 1, label),
            upto - 1,
            label,
            (g.adjacency)(order[upto - 1].node),
        )
    }
}

/// Whether the next round expands the forward side: the smaller frontier
/// goes first, the forward one on a tie.
pub open spec fn goes_forward(sides: Sides) -> bool {
    sides.forward.len() - sides.forward_done <= sides.backward.len() - sides.backward_done
}

/// The sides after one round, which expands one frontier as a whole.
pub open spec fn next_round(g: SearchGraph, sides: Sides, depth: int) -> Sides {
    if goes_forward(sides) {
        Sides {
            forward: level(
                g,
                sides.forward,
                sides.forward_done,
                sides.forward.len() as int,
                depth + 1,
            ),
            forward_done: sides.forward.len() as int,
            ..sides
        }
    } else {
        Sides {
            backward: level(
                g,
                sides.backward,
                sides.backward_done,
                sides.backward.len() as int,
                depth + 1,
            ),
            backward_done: sides.backward.len() as int,
            ..sides
        }
    }
}

/// The best meeting among the visits from `start` up to `upto`: the node that
/// both sides hold with the least sum of labels, the earliest on a tie.
pub open spec fn best_meeting(
    selected: Seq<Visit>,
    start: int,
    upto: int,
    opposite: Seq<Visit>,
) -> Option<(int, u32)>
    decreases upto - start,
{
    if upto <= start {
        None
    } else {
        let best = best_meeting(selected, start, upto - 1, opposite);
        let visit = selected[upto - 1];
        if discovered(opposite, visit.node) {
            let combined = visit.label + opposite[position_of(opposite, visit.node)].label;
            match best {
                Some((least, _)) if least <= combined => best,
                _ => Some((combined, visit.node)),
            }
        } else {
            best
        }
    }
}

/// The meeting that a round brings about.
pub open spec fn round_meeting(g: SearchGraph, sides: Sides, depth: int) -> Option<(int, u32)> {
    let next = next_round(g, sides, depth);
    if goes_forward(sides) {
        best_meeting(
            next.forward,
            sides.forward.len() as int,
            next.forward.len() as int,
            sides.backward,
        )
    } else {
        best_meeting(
            next.backward,
            sides.backward.len() as int,
            next.backward.len() as int,
            sides.forward,
        )
    }
}

/// The sides and the node where a search from `sides` meets, if it does.
pub open spec fn meet(g: SearchGraph, sides: Sides, depth: int, max_depth: int) -> Option<
    (Sides, u32),
>
    decreases max_depth - depth,
{
    if depth >= max_depth || sides.forward_done >= sides.forward.len() || sides.backward_done
        >= sides.backward.len() {
        None
    } else {
        match round_meeting(g, sides, depth) {
            Some((_, node)) => Some((next_round(g, sides, depth), node)),
            None => meet(g, next_round(g, sides, depth), depth + 1, max_depth),
        }
    }
}

/// How many edges the visits from `done` up to `upto` have.
pub open spec fn level_work(g: SearchGraph, order: Seq<Visit>, done: int, upto: int) -> nat
    decreases upto - done,
{
    if upto <= done {
        0
    } else {
        level_work(g, order, done, upto - 1) + (g.adjacency)(order[upto - 1].node).len()
    }
}

/// How many edges a round looks at: those of the frontier that it expands.
pub open spec fn round_work(g: SearchGraph, sides: Sides) -> nat {
    if goes_forward(sides) {
        level_work(g, sides.forward, sides.forward_done, sides.forward.len() as int)
    } else {
        level_work(g, sides.backward, sides.backward_done, sides.backward.len() as int)
    }
}

/// How many edges a search from `sides` looks at until they meet, a frontier
/// is empty or the depth limit is reached.
pub open spec fn meet_work(g: SearchGraph, sides: Sides, depth: int, max_depth: int) -> nat
    decreases max_depth - depth,
{
    if depth >= max_depth || sides.forward_done >= sides.forward.len() || sides.backward_done
        >= sides.backward.len() {
        0
    } else if round_meeting(g, sides, depth) is Some {
        round_work(g, sides)
    } else {
        round_work(g, sides) + meet_work(g, next_round(g, sides, depth), depth + 1, max_depth)
    }
}

/// Whether such an edge is among those of the visits from `done` up to `upto`.
pub open spec fn level_looks(
    g: SearchGraph,
    such: spec_fn(Neighbor) -> bool,
    order: Seq<Visit>,
    done: int,
    upto: int,
) -> bool
    decreases upto - done,
{
    upto > done && (level_looks(g, such, order, done, upto - 1) || some_such(
        such,
        (g.adjacency)(order[upto - 1].node),
    ))
}

/// Whether a round looks at such an edge.
pub open spec fn round_looks(
    g: SearchGraph,
    such: spec_fn(Neighbor) -> bool,
    sides: Sides,
) -> bool {
    if goes_forward(sides) {
        level_looks(g, such, sides.forward, sides.forward_done, sides.forward.len() as int)
    } else {
        level_looks(g, such, sides.backward, sides.backward_done, sides.backward.len() as int)
    }
}

/// Whether a search from `sides` looks at such an edge until they meet, a
/// frontier is empty or the depth limit is reached. The edges are those that
/// count as its work.
pub open spec fn meet_looks(
    g: SearchGraph,
    such: spec_fn(Neighbor) -> bool,
    sides: Sides,
    depth: int,
    max_depth: int,
) -> bool
    decreases max_depth - depth,
{
    if depth >= max_depth || sides.forward_done >= sides.forward.len() || sides.backward_done
        >= sides.backward.len() {
        false
    } else {
        round_looks(g, such, sides) || (round_meeting(g, sides, depth) is None && meet_looks(
            g,
            such,
            next_round(g, sides, depth),
            depth + 1,
            max_depth,
        ))
    }
}

/// What fewer visits look at, more do.
pub proof fn lemma_level_looks(
    g: SearchGraph,
    such: spec_fn(Neighbor) -> bool,
    order: Seq<Visit>,
    done: int,
    small: int,
    large: int,
)
    requires
        small <= large,
        level_looks(g, such, order, done, small),
    ensures
        level_looks(g, such, order, done, large),
    decreases large - small,
{
    if small < large {
        lemma_level_looks(g, such, order, done, small, large - 1);
    }
}

proof fn lemma_level_looks_none(
    g: SearchGraph,
    such: spec_fn(Neighbor) -> bool,
    order: Seq<Visit>,
    done: int,
    upto: int,
)
    requires
        forall|edge: Neighbor| !#[trigger] such(edge),
    ensures
        !level_looks(g, such, order, done, upto),
    decreases upto - done,
{
    if upto > done {
        lemma_level_looks_none(g, such, order, done, upto - 1);
    }
}

/// What no edge is, no search looks at.
pub proof fn lemma_meet_looks_none(
    g: SearchGraph,
    such: spec_fn(Neighbor) -> bool,
    sides: Sides,
    depth: int,
    max_depth: int,
)
    requires
        forall|edge: Neighbor| !#[trigger] such(edge),
    ensures
        !meet_looks(g, such, sides, depth, max_depth),
    decreases max_depth - depth,
{
    if depth < max_depth {
        lemma_level_looks_none(
            g,
            such,
            sides.forward,
            sides.forward_done,
            sides.forward.len() as int,
        );
        lemma_level_looks_none(
            g,
            such,
            sides.backward,
            sides.backward_done,
            sides.backward.len() as int,
        );
        lemma_meet_looks_none(g, such, next_round(g, sides, depth), depth + 1, max_depth);
    }
}

/// Fewer visits have no more edges.
pub proof fn lemma_level_work(g: SearchGraph, order: Seq<Visit>, done: int, small: int, large: int)
    requires
        small <= large,
    ensures
        level_work(g, order, done, small) <= level_work(g, order, done, large),
    decreases large - small,
{
    if small < large {
        lemma_level_work(g, order, done, small, large - 1);
    }
}

/// The nodes from after a backward visit to the backward root, each with the
/// type of the edge that was followed there.
pub open spec fn back_trail(order: Seq<Visit>, at: int) -> Seq<(u32, EdgeTypeId)>
    decreases at,
{
    if 0 <= order[at].from < at {
        seq![(order[order[at].from].node, order[at].edge_type)] + back_trail(order, order[at].from)
    } else {
        Seq::empty()
    }
}

/// The joined trail through a meeting node.
pub open spec fn joined_trail(sides: Sides, node: u32) -> Seq<(u32, EdgeTypeId)> {
    trail(sides.forward, position_of(sides.forward, node)) + back_trail(
        sides.backward,
        position_of(sides.backward, node),
    )
}

/// The trail that a bidirectional search finds, if it does.
pub open spec fn bidirectional_trail(
    g: SearchGraph,
    source: u32,
    target: u32,
    max_depth: int,
) -> Option<Seq<(u32, EdgeTypeId)>> {
    match meet(g, start_sides(source, target), 0, max_depth) {
        Some((sides, node)) => Some(joined_trail(sides, node)),
        None => None,
    }
}

/// Whether an edge that may be followed leads from one node to another.
pub open spec fn linked(g: SearchGraph, from: u32, to: u32) -> bool {
    exists|i: int|
        0 <= i < (g.adjacency)(from).len() && (g.allows)((#[trigger] (g.adjacency)(from)[i])) && (
        g.adjacency)(from)[i].target == to
}

/// Whether every link has a link back.
pub open spec fn symmetric(g: SearchGraph) -> bool {
    forall|from: u32, to: u32| #[trigger] linked(g, from, to) ==> linked(g, to, from)
}

/// Whether two orders agree but for their labels.
pub open spec fn same_shape(left: Seq<Visit>, right: Seq<Visit>) -> bool {
    &&& left.len() == right.len()
    &&& forall|i: int|
        0 <= i < left.len() ==> {
            &&& (#[trigger] left[i]).node == (#[trigger] right[i]).node
            &&& left[i].from == right[i].from
            &&& left[i].edge_type == right[i].edge_type
        }
}

proof fn lemma_same_shape_discovered(left: Seq<Visit>, right: Seq<Visit>, node: u32)
    requires
        same_shape(left, right),
    ensures
        discovered(left, node) == discovered(right, node),
{
    if discovered(left, node) {
        let p = position_of(left, node);
        assert(right[p].node == node);
    }
    if discovered(right, node) {
        let p = position_of(right, node);
        assert(left[p].node == node);
    }
}

proof fn lemma_same_shape_absorb(
    g: SearchGraph,
    left: Seq<Visit>,
    right: Seq<Visit>,
    from: int,
    left_label: int,
    right_label: int,
    edges: Seq<Neighbor>,
)
    requires
        same_shape(left, right),
    ensures
        same_shape(
            absorb(g, left, from, left_label, edges),
            absorb(g, right, from, right_label, edges),
        ),
    decreases edges.len(),
{
    if edges.len() > 0 {
        let rest = edges.drop_last();
        lemma_same_shape_absorb(g, left, right, from, left_label, right_label, rest);
        lemma_same_shape_discovered(
            absorb(g, left, from, left_label, rest),
            absorb(g, right, from, right_label, rest),
            edges.last().target,
        );
    }
}

proof fn lemma_same_shape_trail(left: Seq<Visit>, right: Seq<Visit>, at: int)
    requires
        same_shape(left, right),
        0 <= at < left.len(),
    ensures
        trail(left, at) == trail(right, at),
    decreases at,
{
    assert(left[at].node == right[at].node);
    if 0 <= left[at].from < at {
        lemma_same_shape_trail(left, right, left[at].from);
    }
}

/// Growing an order by a level keeps what was there.
pub proof fn lemma_level(
    g: SearchGraph,
    order: Seq<Visit>,
    done: int,
    upto: int,
    label: int,
)
    requires
        0 <= done,
        upto <= order.len(),
    ensures
        level(g, order, done, upto, label).len() >= order.len(),
        forall|i: int|
            0 <= i < order.len() ==> #[trigger] level(g, order, done, upto, label)[i] == order[i],
        forall|i: int|
            order.len() <= i < level(g, order, done, upto, label).len() ==> (#[trigger] level(
                g,
                order,
                done,
                upto,
                label,
            )[i]).label == label,
        distinct(order) ==> distinct(level(g, order, done, upto, label)),
    decreases upto - done,
{
    if upto > done {
        lemma_level(g, order, done, upto - 1, label);
        let before = level(g, order, done, upto - 1, label);
        lemma_absorb(g, before, upto - 1, label, (g.adjacency)(order[upto - 1].node));
        let after = level(g, order, done, upto, label);
        assert forall|i: int| 0 <= i < order.len() implies #[trigger] after[i] == order[i] by {
            assert(before[i] == order[i]);
            assert(after[i] == before[i]);
        }
        assert forall|i: int| order.len() <= i < after.len() implies (#[trigger] after[i]).label
            == label by {
            if i < before.len() {
                assert(after[i] == before[i]);
            }
        }
    }
}

/// Whether an order is the breadth-first order of a root after expanding the
/// visits below `hops`, all of which stand first; the rest stand `hops` away.
pub open spec fn ball(
    g: SearchGraph,
    root: u32,
    max_depth: int,
    order: Seq<Visit>,
    done: int,
    hops: int,
) -> bool {
    let model = expanded(g, root, max_depth, done as nat);
    &&& 0 <= done <= order.len()
    &&& 0 <= hops
    &&& same_shape(order, model)
    &&& forall|i: int| 0 <= i < done ==> (#[trigger] model[i]).label < hops
    &&& forall|i: int| done <= i < model.len() ==> (#[trigger] model[i]).label == hops
}

proof fn lemma_ball_level(
    g: SearchGraph,
    root: u32,
    max_depth: int,
    order: Seq<Visit>,
    done: int,
    hops: int,
    upto: int,
    label: int,
)
    requires
        ball(g, root, max_depth, order, done, hops),
        hops < max_depth,
        done <= upto <= order.len(),
    ensures
        same_shape(
            level(g, order, done, upto, label),
            expanded(g, root, max_depth, upto as nat),
        ),
        forall|i: int|
            0 <= i < order.len() ==> (#[trigger] expanded(g, root, max_depth, upto as nat)[i])
                == expanded(g, root, max_depth, done as nat)[i],
        forall|i: int|
            order.len() <= i < expanded(g, root, max_depth, upto as nat).len() ==> (
            #[trigger] expanded(g, root, max_depth, upto as nat)[i]).label == hops + 1,
    decreases upto - done,
{
    if upto > done {
        let model = expanded(g, root, max_depth, done as nat);
        let before = expanded(g, root, max_depth, (upto - 1) as nat);
        let after = expanded(g, root, max_depth, upto as nat);
        let at = upto - 1;
        lemma_ball_level(g, root, max_depth, order, done, hops, at, label);
        lemma_level(g, order, done, at, label);
        assert(before[at] == model[at]);
        assert(model[at].label == hops);
        assert(order[at].node == model[at].node);
        let edges = (g.adjacency)(before[at].node);
        assert(after == absorb(g, before, at, before[at].label + 1, edges));
        lemma_absorb(g, before, at, before[at].label + 1, edges);
        lemma_same_shape_absorb(
            g,
            level(g, order, done, at, label),
            before,
            at,
            label,
            before[at].label + 1,
            edges,
        );
        assert forall|i: int| 0 <= i < order.len() implies (#[trigger] after[i]) == model[i] by {
            assert(after[i] == before[i]);
        }
        assert forall|i: int| order.len() <= i < after.len() implies (#[trigger] after[i]).label
            == hops + 1 by {
            if i < before.len() {
                assert(after[i] == before[i]);
            }
        }
    }
}

/// Expanding a whole frontier widens the ball by one hop.
pub proof fn lemma_ball_grows(
    g: SearchGraph,
    root: u32,
    max_depth: int,
    order: Seq<Visit>,
    done: int,
    hops: int,
    label: int,
)
    requires
        ball(g, root, max_depth, order, done, hops),
        hops < max_depth,
    ensures
        ball(
            g,
            root,
            max_depth,
            level(g, order, done, order.len() as int, label),
            order.len() as int,
            hops + 1,
        ),
{
    lemma_ball_level(g, root, max_depth, order, done, hops, order.len() as int, label);
    lemma_level(g, order, done, order.len() as int, label);
    let model = expanded(g, root, max_depth, done as nat);
    let after = expanded(g, root, max_depth, order.len() as nat);
    assert forall|i: int| 0 <= i < order.len() implies (#[trigger] after[i]).label < hops + 1 by {
        assert(after[i] == model[i]);
    }
}

/// Whether no node is on both sides.
pub open spec fn disjoint(left: Seq<Visit>, right: Seq<Visit>) -> bool {
    forall|i: int, j: int|
        0 <= i < left.len() && 0 <= j < right.len() ==> (#[trigger] left[i]).node != (
        #[trigger] right[j]).node
}

/// Without a best meeting, no visit in the range is on the opposite side.
pub proof fn lemma_no_meeting(selected: Seq<Visit>, start: int, upto: int, opposite: Seq<Visit>)
    requires
        0 <= start,
        upto <= selected.len(),
        best_meeting(selected, start, upto, opposite) is None,
    ensures
        forall|i: int| start <= i < upto ==> !discovered(opposite, (#[trigger] selected[i]).node),
    decreases upto - start,
{
    if upto > start {
        lemma_no_meeting(selected, start, upto - 1, opposite);
    }
}

/// A best meeting is a node of both sides.
pub proof fn lemma_meeting(selected: Seq<Visit>, start: int, upto: int, opposite: Seq<Visit>)
    requires
        0 <= start,
        upto <= selected.len(),
        best_meeting(selected, start, upto, opposite) is Some,
    ensures
        discovered(opposite, (best_meeting(selected, start, upto, opposite)->0).1),
        exists|i: int|
            start <= i < upto && (#[trigger] selected[i]).node == (best_meeting(
                selected,
                start,
                upto,
                opposite,
            )->0).1,
    decreases upto - start,
{
    if upto > start {
        if best_meeting(selected, start, upto - 1, opposite) is Some {
            lemma_meeting(selected, start, upto - 1, opposite);
        }
        assert(selected[upto - 1].node == selected[upto - 1].node);
    }
}

/// What holds between rounds while the sides have not met.
pub open spec fn apart(
    g: SearchGraph,
    source: u32,
    target: u32,
    max_depth: int,
    sides: Sides,
    forward_hops: int,
    backward_hops: int,
) -> bool {
    &&& ball(g, source, max_depth, sides.forward, sides.forward_done, forward_hops)
    &&& ball(g, target, max_depth, sides.backward, sides.backward_done, backward_hops)
    &&& disjoint(sides.forward, sides.backward)
}

pub proof fn lemma_start_apart(g: SearchGraph, source: u32, target: u32, max_depth: int)
    requires
        source != target,
    ensures
        apart(g, source, target, max_depth, start_sides(source, target), 0, 0),
{
}

/// A round without a meeting keeps the sides apart.
pub proof fn lemma_round_apart(
    g: SearchGraph,
    source: u32,
    target: u32,
    max_depth: int,
    sides: Sides,
    forward_hops: int,
    backward_hops: int,
    depth: int,
)
    requires
        apart(g, source, target, max_depth, sides, forward_hops, backward_hops),
        forward_hops < max_depth,
        backward_hops < max_depth,
        round_meeting(g, sides, depth) is None,
    ensures
        goes_forward(sides) ==> apart(
            g,
            source,
            target,
            max_depth,
            next_round(g, sides, depth),
            forward_hops + 1,
            backward_hops,
        ),
        !goes_forward(sides) ==> apart(
            g,
            source,
            target,
            max_depth,
            next_round(g, sides, depth),
            forward_hops,
            backward_hops + 1,
        ),
{
    let next = next_round(g, sides, depth);
    if goes_forward(sides) {
        lemma_ball_grows(
            g,
            source,
            max_depth,
            sides.forward,
            sides.forward_done,
            forward_hops,
            depth + 1,
        );
        lemma_level(
            g,
            sides.forward,
            sides.forward_done,
            sides.forward.len() as int,
            depth + 1,
        );
        lemma_no_meeting(
            next.forward,
            sides.forward.len() as int,
            next.forward.len() as int,
            sides.backward,
        );
        assert forall|i: int, j: int|
            0 <= i < next.forward.len() && 0 <= j < next.backward.len() implies (
        #[trigger] next.forward[i]).node != (#[trigger] next.backward[j]).node by {
            if i < sides.forward.len() {
                assert(next.forward[i] == sides.forward[i]);
            }
        }
    } else {
        lemma_ball_grows(
            g,
            target,
            max_depth,
            sides.backward,
            sides.backward_done,
            backward_hops,
            depth + 1,
        );
        lemma_level(
            g,
            sides.backward,
            sides.backward_done,
            sides.backward.len() as int,
            depth + 1,
        );
        lemma_no_meeting(
            next.backward,
            sides.backward.len() as int,
            next.backward.len() as int,
            sides.forward,
        );
        assert forall|i: int, j: int|
            0 <= i < next.forward.len() && 0 <= j < next.backward.len() implies (
        #[trigger] next.forward[i]).node != (#[trigger] next.backward[j]).node by {
            if j < sides.backward.len() {
                assert(next.backward[j] == sides.backward[j]);
            }
        }
    }
}

/// Walks no longer than a ball is wide end inside it.
proof fn lemma_ball_holds_walks(
    g: SearchGraph,
    root: u32,
    max_depth: int,
    order: Seq<Visit>,
    done: int,
    hops: int,
    walk: Seq<Neighbor>,
    length: int,
)
    requires
        ball(g, root, max_depth, order, done, hops),
        hops <= max_depth,
        is_walk(g, root, walk),
        0 <= length <= walk.len(),
        length <= hops || done == order.len(),
    ensures
        done < order.len() ==> found_within(
            expanded(g, root, max_depth, done as nat),
            stands_at(root, walk, length),
            length,
        ),
        discovered(order, stands_at(root, walk, length)),
    decreases length,
{
    let model = expanded(g, root, max_depth, done as nat);
    lemma_expanded(g, root, max_depth, done as nat);
    let here = stands_at(root, walk, length);
    if length == 0 {
        assert(model[0].node == root);
        assert(order[0].node == model[0].node);
    } else {
        lemma_ball_holds_walks(g, root, max_depth, order, done, hops, walk, length - 1);
        let node = stands_at(root, walk, length - 1);
        let p = if done < order.len() {
            choose|i: int|
                0 <= i < model.len() && (#[trigger] model[i]).node == node && model[i].label
                    <= length - 1
        } else {
            position_of(order, node)
        };
        assert(order[p].node == model[p].node);
        assert(p < done);
        let edge = walk[length - 1];
        let row = (g.adjacency)(node);
        let e = choose|e: int| 0 <= e < row.len() && row[e] == edge;
        assert((g.adjacency)(model[p].node)[e] == edge);
        assert((g.allows)((g.adjacency)(model[p].node)[e]));
        assert(found_within(model, edge.target, model[p].label + 1));
        let q = choose|i: int|
            0 <= i < model.len() && (#[trigger] model[i]).node == edge.target && model[i].label
                <= model[p].label + 1;
        assert(order[q].node == model[q].node);
    }
}

/// In a symmetric graph the rest of a walk can be walked back.
proof fn lemma_walk_back(g: SearchGraph, source: u32, walk: Seq<Neighbor>, from: int) -> (back: Seq<
    Neighbor,
>)
    requires
        symmetric(g),
        is_walk(g, source, walk),
        0 <= from <= walk.len(),
    ensures
        walk_between(
            g,
            stands_at(source, walk, walk.len() as int),
            stands_at(source, walk, from),
            back,
        ),
        back.len() == walk.len() - from,
    decreases walk.len() - from,
{
    let start = stands_at(source, walk, walk.len() as int);
    if from == walk.len() {
        Seq::<Neighbor>::empty()
    } else {
        let rest = lemma_walk_back(g, source, walk, from + 1);
        let here = stands_at(source, walk, from);
        let there = stands_at(source, walk, from + 1);
        let edge = walk[from];
        let row = (g.adjacency)(here);
        let i = choose|i: int| 0 <= i < row.len() && row[i] == edge;
        assert((g.allows)((g.adjacency)(here)[i]));
        assert(linked(g, here, there));
        assert(linked(g, there, here));
        let j = choose|j: int|
            0 <= j < (g.adjacency)(there).len() && (g.allows)((#[trigger] (g.adjacency)(there)[j]))
                && (g.adjacency)(there)[j].target == here;
        let back = rest.push((g.adjacency)(there)[j]);
        assert forall|k: int| 0 <= k < back.len() implies {
            &&& (g.adjacency)(stands_at(start, back, k)).contains(#[trigger] back[k])
            &&& (g.allows)(back[k])
        } by {
            assert(stands_at(start, back, k) == stands_at(start, rest, k));
            if k < rest.len() {
                assert(back[k] == rest[k]);
            } else {
                assert((g.adjacency)(there)[j] == back[k]);
            }
        }
        back
    }
}

/// Two walks that follow each other form one.
proof fn lemma_walks_join(
    g: SearchGraph,
    source: u32,
    middle: u32,
    target: u32,
    first: Seq<Neighbor>,
    second: Seq<Neighbor>,
)
    requires
        walk_between(g, source, middle, first),
        walk_between(g, middle, target, second),
    ensures
        walk_between(g, source, target, first + second),
{
    let both = first + second;
    assert forall|k: int| 0 <= k < both.len() implies {
        &&& (g.adjacency)(stands_at(source, both, k)).contains(#[trigger] both[k])
        &&& (g.allows)(both[k])
    } by {
        if k < first.len() {
            assert(both[k] == first[k]);
            assert(stands_at(source, both, k) == stands_at(source, first, k));
        } else {
            let m = k - first.len();
            assert(both[k] == second[m]);
            assert(stands_at(source, both, k) == stands_at(middle, second, m));
        }
    }
}

/// While two balls are apart, no walk is as short as their widths together;
/// and none exists at all once one of them cannot grow.
proof fn lemma_apart_means_far(
    g: SearchGraph,
    source: u32,
    target: u32,
    max_depth: int,
    sides: Sides,
    forward_hops: int,
    backward_hops: int,
    walk: Seq<Neighbor>,
)
    requires
        symmetric(g),
        apart(g, source, target, max_depth, sides, forward_hops, backward_hops),
        forward_hops <= max_depth,
        backward_hops <= max_depth,
        walk_between(g, source, target, walk),
    ensures
        walk.len() > forward_hops + backward_hops,
        sides.forward_done < sides.forward.len(),
        sides.backward_done < sides.backward.len(),
{
    let length = walk.len() as int;
    lemma_expanded(g, target, max_depth, sides.backward_done as nat);
    lemma_expanded(g, source, max_depth, sides.forward_done as nat);
    let backward_model = expanded(g, target, max_depth, sides.backward_done as nat);
    let forward_model = expanded(g, source, max_depth, sides.forward_done as nat);
    assert(sides.backward[0].node == backward_model[0].node);
    assert(sides.forward[0].node == forward_model[0].node);
    let back = lemma_walk_back(g, source, walk, 0);
    if sides.forward_done >= sides.forward.len() {
        lemma_ball_holds_walks(
            g,
            source,
            max_depth,
            sides.forward,
            sides.forward_done,
            forward_hops,
            walk,
            length,
        );
        let p = position_of(sides.forward, target);
        assert(sides.forward[p].node == sides.backward[0].node);
    }
    if sides.backward_done >= sides.backward.len() {
        lemma_ball_holds_walks(
            g,
            target,
            max_depth,
            sides.backward,
            sides.backward_done,
            backward_hops,
            back,
            back.len() as int,
        );
        let p = position_of(sides.backward, source);
        assert(sides.forward[0].node == sides.backward[p].node);
    }
    if length <= forward_hops + backward_hops {
        let at = if length <= forward_hops {
            length
        } else {
            forward_hops
        };
        let middle = stands_at(source, walk, at);
        lemma_ball_holds_walks(
            g,
            source,
            max_depth,
            sides.forward,
            sides.forward_done,
            forward_hops,
            walk,
            at,
        );
        let rest = lemma_walk_back(g, source, walk, at);
        lemma_ball_holds_walks(
            g,
            target,
            max_depth,
            sides.backward,
            sides.backward_done,
            backward_hops,
            rest,
            rest.len() as int,
        );
        let p = position_of(sides.forward, middle);
        let q = position_of(sides.backward, middle);
        assert(sides.forward[p].node == sides.backward[q].node);
    }
}

/// A backward trail has one node less than the trail from the backward root.
proof fn lemma_back_trail_length(order: Seq<Visit>, at: int)
    ensures
        back_trail(order, at).len() + 1 == trail(order, at).len(),
    decreases at,
{
    if 0 <= order[at].from < at {
        lemma_back_trail_length(order, order[at].from);
    }
}

/// The joined trail through a meeting node is as long as a walk.
proof fn lemma_joined_walk(
    g: SearchGraph,
    source: u32,
    target: u32,
    max_depth: int,
    sides: Sides,
    forward_hops: int,
    backward_hops: int,
    node: u32,
) -> (walk: Seq<Neighbor>)
    requires
        symmetric(g),
        ball(g, source, max_depth, sides.forward, sides.forward_done, forward_hops),
        ball(g, target, max_depth, sides.backward, sides.backward_done, backward_hops),
        discovered(sides.forward, node),
        discovered(sides.backward, node),
    ensures
        walk_between(g, source, target, walk),
        joined_trail(sides, node).len() == walk.len() + 1,
        walk.len() <= forward_hops + backward_hops,
{
    let forward_model = expanded(g, source, max_depth, sides.forward_done as nat);
    let backward_model = expanded(g, target, max_depth, sides.backward_done as nat);
    lemma_expanded(g, source, max_depth, sides.forward_done as nat);
    lemma_expanded(g, target, max_depth, sides.backward_done as nat);
    let p = position_of(sides.forward, node);
    let q = position_of(sides.backward, node);
    assert(sides.forward[p].node == forward_model[p].node);
    assert(sides.backward[q].node == backward_model[q].node);
    lemma_same_shape_trail(sides.forward, forward_model, p);
    lemma_same_shape_trail(sides.backward, backward_model, q);
    lemma_back_trail_length(sides.backward, q);
    lemma_label_is_length(
        g,
        source,
        max_depth,
        forward_model,
        settled_count(forward_model, sides.forward_done as nat),
        p,
    );
    lemma_label_is_length(
        g,
        target,
        max_depth,
        backward_model,
        settled_count(backward_model, sides.backward_done as nat),
        q,
    );
    let first = lemma_trail_walk(g, source, forward_model, p);
    let other = lemma_trail_walk(g, target, backward_model, q);
    let second = lemma_walk_back(g, target, other, 0);
    lemma_walks_join(g, source, node, target, first, second);
    assert(forward_model[p].label <= forward_hops);
    assert(backward_model[q].label <= backward_hops);
    first + second
}

/// What a bidirectional search has found is shortest; what it has not found
/// is not there.
proof fn lemma_meet_is_shortest(
    g: SearchGraph,
    source: u32,
    target: u32,
    max_depth: int,
    sides: Sides,
    forward_hops: int,
    backward_hops: int,
    walk: Seq<Neighbor>,
)
    requires
        symmetric(g),
        apart(g, source, target, max_depth, sides, forward_hops, backward_hops),
        forward_hops + backward_hops <= max_depth,
    ensures
        match meet(g, sides, forward_hops + backward_hops, max_depth) {
            Some((last, node)) => {
                &&& 1 <= joined_trail(last, node).len() <= max_depth + 1
                &&& exists|own: Seq<Neighbor>|
                    #[trigger] walk_between(g, source, target, own) && own.len() + 1
                        == joined_trail(last, node).len()
                &&& walk_between(g, source, target, walk) ==> joined_trail(last, node).len()
                    <= walk.len() + 1
            },
            None => walk_between(g, source, target, walk) ==> walk.len() > max_depth,
        },
    decreases max_depth - forward_hops - backward_hops,
{
    let depth = forward_hops + backward_hops;
    if walk_between(g, source, target, walk) {
        lemma_apart_means_far(
            g,
            source,
            target,
            max_depth,
            sides,
            forward_hops,
            backward_hops,
            walk,
        );
    }
    if depth >= max_depth || sides.forward_done >= sides.forward.len() || sides.backward_done
        >= sides.backward.len() {
    } else {
        let next = next_round(g, sides, depth);
        match round_meeting(g, sides, depth) {
            Some((_, node)) => {
                if goes_forward(sides) {
                    lemma_ball_grows(
                        g,
                        source,
                        max_depth,
                        sides.forward,
                        sides.forward_done,
                        forward_hops,
                        depth + 1,
                    );
                    lemma_meeting(
                        next.forward,
                        sides.forward.len() as int,
                        next.forward.len() as int,
                        sides.backward,
                    );
                    let own = lemma_joined_walk(
                        g,
                        source,
                        target,
                        max_depth,
                        next,
                        forward_hops + 1,
                        backward_hops,
                        node,
                    );
                    assert(walk_between(g, source, target, own));
                } else {
                    lemma_ball_grows(
                        g,
                        target,
                        max_depth,
                        sides.backward,
                        sides.backward_done,
                        backward_hops,
                        depth + 1,
                    );
                    lemma_meeting(
                        next.backward,
                        sides.backward.len() as int,
                        next.backward.len() as int,
                        sides.forward,
                    );
                    let own = lemma_joined_walk(
                        g,
                        source,
                        target,
                        max_depth,
                        next,
                        forward_hops,
                        backward_hops + 1,
                        node,
                    );
                    assert(walk_between(g, source, target, own));
                }
            },
            None => {
                lemma_round_apart(
                    g,
                    source,
                    target,
                    max_depth,
                    sides,
                    forward_hops,
                    backward_hops,
                    depth,
                );
                if goes_forward(sides) {
                    lemma_meet_is_shortest(
                        g,
                        source,
                        target,
                        max_depth,
                        next,
                        forward_hops + 1,
                        backward_hops,
                        walk,
                    );
                } else {
                    lemma_meet_is_shortest(
                        g,
                        source,
                        target,
                        max_depth,
                        next,
                        forward_hops,
                        backward_hops + 1,
                        walk,
                    );
                }
            },
        }
    }
}

/// In a graph where every link has a link back, bidirectional search finds a
/// target exactly when breadth-first search does, on a trail of the same
/// length.
pub proof fn law_bidirectional_is_shortest(
    g: SearchGraph,
    source: u32,
    target: u32,
    max_depth: int,
    bound: nat,
)
    requires
        symmetric(g),
        bounded(g, bound),
        source < bound,
        source != target,
        0 <= max_depth,
    ensures
        bidirectional_trail(g, source, target, max_depth) is Some <==> bfs_trail(
            g,
            source,
            target,
            max_depth,
        ) is Some,
        bidirectional_trail(g, source, target, max_depth) is Some ==> bidirectional_trail(
            g,
            source,
            target,
            max_depth,
        )->0.len() == bfs_trail(g, source, target, max_depth)->0.len(),
{
    let sides = start_sides(source, target);
    lemma_start_apart(g, source, target, max_depth);
    law_bfs_finds_iff_walk_exists(g, source, target, max_depth, bound);
    lemma_meet_is_shortest(g, source, target, max_depth, sides, 0, 0, Seq::empty());
    if bfs_trail(g, source, target, max_depth) is Some {
        law_bfs_trail_is_shortest(g, source, target, max_depth, Seq::empty());
        let own = choose|own: Seq<Neighbor>|
            #![trigger is_walk(g, source, own)]
            walk_between(g, source, target, own) && trail_follows(
                bfs_trail(g, source, target, max_depth)->0,
                source,
                own,
            ) && own.len() <= max_depth;
        lemma_meet_is_shortest(g, source, target, max_depth, sides, 0, 0, own);
    }
    if let Some((last, node)) = meet(g, sides, 0, max_depth) {
        let walk = choose|own: Seq<Neighbor>|
            #[trigger] walk_between(g, source, target, own) && own.len() + 1 == joined_trail(
                last,
                node,
            ).len();
        assert(walk.len() <= max_depth);
        law_bfs_trail_is_shortest(g, source, target, max_depth, walk);
    }
}

/// A best meeting depends only on the visits it looks at.
pub proof fn lemma_best_prefix(
    small: Seq<Visit>,
    large: Seq<Visit>,
    start: int,
    upto: int,
    opposite: Seq<Visit>,
)
    requires
        0 <= start,
        upto <= small.len() <= large.len(),
        forall|i: int| 0 <= i < small.len() ==> #[trigger] large[i] == small[i],
    ensures
        best_meeting(large, start, upto, opposite) == best_meeting(small, start, upto, opposite),
    decreases upto - start,
{
    if upto > start {
        lemma_best_prefix(small, large, start, upto - 1, opposite);
        assert(large[upto - 1] == small[upto - 1]);
    }
}

/// No visit in the range meets at a lesser sum than the best one.
pub proof fn lemma_best_is_least(
    selected: Seq<Visit>,
    start: int,
    upto: int,
    opposite: Seq<Visit>,
    at: int,
)
    requires
        0 <= start <= at < upto <= selected.len(),
        discovered(opposite, selected[at].node),
    ensures
        best_meeting(selected, start, upto, opposite) is Some,
        (best_meeting(selected, start, upto, opposite)->0).0 <= selected[at].label
            + opposite[position_of(opposite, selected[at].node)].label,
    decreases upto - start,
{
    if at < upto - 1 {
        lemma_best_is_least(selected, start, upto - 1, opposite, at);
    }
}

/// Looking at edges of a discovered node keeps an order rooted.
pub proof fn lemma_absorb_rooted(
    g: SearchGraph,
    root: u32,
    order: Seq<Visit>,
    from: int,
    label: int,
    upto: int,
)
    requires
        rooted(g, root, order),
        0 <= from < order.len(),
        0 <= upto <= (g.adjacency)(order[from].node).len(),
    ensures
        rooted(
            g,
            root,
            absorb(g, order, from, label, (g.adjacency)(order[from].node).take(upto)),
        ),
{
    let row = (g.adjacency)(order[from].node);
    let edges = row.take(upto);
    let after = absorb(g, order, from, label, edges);
    lemma_absorb(g, order, from, label, edges);
    assert forall|i: int| 0 < i < after.len() implies {
        &&& 0 <= (#[trigger] after[i]).from < i
        &&& reaches(g, after[after[i].from].node, after[i])
    } by {
        if i < order.len() {
            assert(after[i] == order[i]);
            assert(after[order[i].from] == order[order[i].from]);
        } else {
            let j = choose|j: int|
                0 <= j < edges.len() && (g.allows)(#[trigger] edges[j]) && edges[j].target
                    == after[i].node && edges[j].type_id == after[i].edge_type;
            assert(after[from] == order[from]);
            assert((g.adjacency)(after[from].node)[j] == edges[j]);
        }
    }
    assert(after[0] == order[0]);
}

/// Growing an order by a level keeps it rooted.
pub proof fn lemma_level_rooted(
    g: SearchGraph,
    root: u32,
    order: Seq<Visit>,
    done: int,
    upto: int,
    label: int,
)
    requires
        rooted(g, root, order),
        0 <= done,
        upto <= order.len(),
    ensures
        rooted(g, root, level(g, order, done, upto, label)),
    decreases upto - done,
{
    if upto > done {
        lemma_level_rooted(g, root, order, done, upto - 1, label);
        lemma_level(g, order, done, upto - 1, label);
        let before = level(g, order, done, upto - 1, label);
        assert(before[upto - 1] == order[upto - 1]);
        let row = (g.adjacency)(order[upto - 1].node);
        assert(row.take(row.len() as int) =~= row);
        lemma_absorb_rooted(g, root, before, upto - 1, label, row.len() as int);
    }
}

/// Whether an edge of a type that may be followed leads from one node to another.
pub open spec fn linked_by(g: SearchGraph, from: u32, to: u32, type_id: EdgeTypeId) -> bool {
    exists|i: int|
        0 <= i < (g.adjacency)(from).len() && (g.allows)((#[trigger] (g.adjacency)(from)[i])) && (
        g.adjacency)(from)[i].target == to && (g.adjacency)(from)[i].type_id == type_id
}

/// Whether every edge that may be followed has an edge back of the same type.
pub open spec fn typed_symmetric(g: SearchGraph) -> bool {
    forall|from: u32, to: u32, type_id: EdgeTypeId| #[trigger]
        linked_by(g, from, to, type_id) ==> linked_by(g, to, from, type_id)
}

/// The walk along a backward trail, from its visit to the backward root.
proof fn lemma_back_trail_walk(g: SearchGraph, root: u32, order: Seq<Visit>, at: int) -> (walk: Seq<
    Neighbor,
>)
    requires
        typed_symmetric(g),
        rooted(g, root, order),
        0 <= at < order.len(),
    ensures
        walk_between(g, order[at].node, root, walk),
        walk.len() == back_trail(order, at).len(),
        forall|i: int|
            0 <= i < walk.len() ==> back_trail(order, at)[i] == (
                (#[trigger] walk[i]).target,
                walk[i].type_id,
            ),
    decreases at,
{
    if at == 0 {
        Seq::empty()
    } else {
        let from = order[at].from;
        let (node, before) = (order[at].node, order[from].node);
        let rest = lemma_back_trail_walk(g, root, order, from);
        assert(reaches(g, before, order[at]));
        assert(linked_by(g, before, node, order[at].edge_type)) by {
            let i = choose|i: int|
                0 <= i < (g.adjacency)(before).len() && (g.allows)(
                    (#[trigger] (g.adjacency)(before)[i]),
                ) && (g.adjacency)(before)[i].target == node && (g.adjacency)(before)[i].type_id
                    == order[at].edge_type;
            assert((g.allows)((g.adjacency)(before)[i]));
        }
        assert(linked_by(g, node, before, order[at].edge_type));
        let k = choose|i: int|
            0 <= i < (g.adjacency)(node).len() && (g.allows)((#[trigger] (g.adjacency)(node)[i]))
                && (g.adjacency)(node)[i].target == before && (g.adjacency)(node)[i].type_id
                == order[at].edge_type;
        let edge = (g.adjacency)(node)[k];
        let walk = seq![edge] + rest;
        assert forall|i: int| 0 <= i < walk.len() implies {
            &&& (g.adjacency)(stands_at(node, walk, i)).contains(#[trigger] walk[i])
            &&& (g.allows)(walk[i])
        } by {
            if i > 0 {
                assert(walk[i] == rest[i - 1]);
                assert(stands_at(node, walk, i) == stands_at(before, rest, i - 1));
            }
        }
        let whole = back_trail(order, at);
        assert(whole == seq![(before, order[at].edge_type)] + back_trail(order, from));
        assert forall|i: int| 0 <= i < walk.len() implies whole[i] == (
            (#[trigger] walk[i]).target,
            walk[i].type_id,
        ) by {
            if i > 0 {
                assert(walk[i] == rest[i - 1]);
                assert(whole[i] == back_trail(order, from)[i - 1]);
            }
        }
        assert(stands_at(node, walk, walk.len() as int) == root) by {
            if rest.len() > 0 {
                assert(walk[walk.len() - 1] == rest[rest.len() - 1]);
            }
        }
        walk
    }
}

/// Where two sides meet, both have found the node by edges from their roots.
proof fn lemma_meet_rooted(
    g: SearchGraph,
    source: u32,
    target: u32,
    sides: Sides,
    depth: int,
    max_depth: int,
)
    requires
        rooted(g, source, sides.forward),
        rooted(g, target, sides.backward),
        0 <= sides.forward_done,
        0 <= sides.backward_done,
    ensures
        meet(g, sides, depth, max_depth) matches Some((last, node)) ==> {
            &&& rooted(g, source, last.forward)
            &&& rooted(g, target, last.backward)
            &&& discovered(last.forward, node)
            &&& discovered(last.backward, node)
        },
    decreases max_depth - depth,
{
    if depth < max_depth {
        let next = next_round(g, sides, depth);
        let (forward, backward) = (sides.forward.len() as int, sides.backward.len() as int);
        lemma_level_rooted(g, source, sides.forward, sides.forward_done, forward, depth + 1);
        lemma_level_rooted(g, target, sides.backward, sides.backward_done, backward, depth + 1);
        if let Some((_, node)) = round_meeting(g, sides, depth) {
            if goes_forward(sides) {
                lemma_meeting(next.forward, forward, next.forward.len() as int, sides.backward);
            } else {
                lemma_meeting(next.backward, backward, next.backward.len() as int, sides.forward);
            }
        } else {
            lemma_meet_rooted(g, source, target, next, depth + 1, max_depth);
        }
    }
}

/// Where every edge has an edge back of the same type, the trail that a search
/// from both ends finds follows admitted edges from the source to the target,
/// node by node and type by type.
pub proof fn law_bidirectional_trail_follows_edges(
    g: SearchGraph,
    source: u32,
    target: u32,
    max_depth: int,
)
    requires
        typed_symmetric(g),
    ensures
        bidirectional_trail(g, source, target, max_depth) matches Some(found) ==> exists|
            own: Seq<Neighbor>,
        |
            #![trigger is_walk(g, source, own)]
            walk_between(g, source, target, own) && trail_follows(found, source, own),
{
    let start = start_sides(source, target);
    lemma_meet_rooted(g, source, target, start, 0, max_depth);
    if let Some((last, node)) = meet(g, start, 0, max_depth) {
        let p = position_of(last.forward, node);
        let q = position_of(last.backward, node);
        let first = lemma_trail_walk(g, source, last.forward, p);
        let second = lemma_back_trail_walk(g, target, last.backward, q);
        lemma_walks_join(g, source, node, target, first, second);
        let own = first + second;
        let found = joined_trail(last, node);
        let before = trail(last.forward, p);
        let after = back_trail(last.backward, q);
        assert(found == before + after);
        assert forall|i: int| 0 <= i < own.len() implies found[i + 1] == (
            (#[trigger] own[i]).target,
            own[i].type_id,
        ) by {
            if i < first.len() {
                assert(own[i] == first[i]);
                assert(before[i + 1] == (first[i].target, first[i].type_id));
            } else {
                assert(own[i] == second[i - first.len()]);
                assert(found[i + 1] == after[i - first.len()]);
            }
        }
        assert(is_walk(g, source, own));
    }
}

} // verus!
