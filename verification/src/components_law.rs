//! What the components of a graph are: numbers that edges cannot change and
//! that nothing else makes equal, how many there are, and how large they get.
use vstd::prelude::*;

use crate::components::{
    class_size, classes, is_chain, largest_class, linked, lemma_linked_edge, touches,
    ComponentResult, LinkGraph,
};
use crate::engine::Engine;
use crate::overlay::TxDelta;
use crate::resource::GovernorView;
use crate::types::TraversalDirection;

verus! {

/// Whether a node is live.
pub open spec fn is_live(engine: Engine, node: u32) -> bool {
    node < engine.node_store.nodes().len() && engine.node_store.nodes()[node as int].active
}

/// Whether a current edge leads from one node to another.
pub open spec fn edge_leads(engine: Engine, delta: TxDelta, from: u32, to: u32) -> bool {
    exists|i: int|
        0 <= i < engine.current_row(delta, TraversalDirection::Out, from).len() && (
        #[trigger] engine.current_row(delta, TraversalDirection::Out, from)[i]).target == to
}

/// The live nodes that have a number.
pub open spec fn numbered(live: Seq<bool>, numbers: Seq<u32>, number: int) -> Set<int> {
    Set::new(|node: int| 0 <= node < live.len() && live[node] && numbers[node] == number)
}

/// The numbers that live nodes have.
pub open spec fn numbers_used(live: Seq<bool>, numbers: Seq<u32>) -> Set<int> {
    Set::new(
        |number: int|
            exists|node: int|
                0 <= node < live.len() && live[node] && #[trigger] numbers[node] == number,
    )
}

proof fn lemma_class_counts(live: Seq<bool>, numbers: Seq<u32>, number: int, count: nat)
    requires
        count <= live.len(),
        live.len() == numbers.len(),
    ensures
        ({
            let some = Set::new(
                |node: int| 0 <= node < count && live[node] && numbers[node] == number,
            );
            some.finite() && some.len() == class_size(live, numbers, number, count)
        }),
    decreases count,
{
    let some = Set::new(|node: int| 0 <= node < count && live[node] && numbers[node] == number);
    if count == 0 {
        assert(some =~= Set::<int>::empty());
    } else {
        let last = count - 1;
        lemma_class_counts(live, numbers, number, last as nat);
        let fewer = Set::new(
            |node: int| 0 <= node < last && live[node] && numbers[node] == number,
        );
        if live[last] && numbers[last] == number {
            assert(some =~= fewer.insert(last));
        } else {
            assert(some =~= fewer);
        }
    }
}

proof fn lemma_classes_count(live: Seq<bool>, numbers: Seq<u32>, count: nat)
    requires
        live.len() == numbers.len(),
    ensures
        ({
            let some = Set::new(
                |number: int| 0 <= number < count && numbers_used(live, numbers).contains(number),
            );
            some.finite() && some.len() == classes(live, numbers, count)
        }),
    decreases count,
{
    let used = numbers_used(live, numbers);
    let some = Set::new(|number: int| 0 <= number < count && used.contains(number));
    if count == 0 {
        assert(some =~= Set::<int>::empty());
    } else {
        let last = count - 1;
        lemma_classes_count(live, numbers, last as nat);
        let fewer = Set::new(|number: int| 0 <= number < last && used.contains(number));
        lemma_class_counts(live, numbers, last, live.len());
        let own = Set::new(
            |node: int| 0 <= node < live.len() && live[node] && numbers[node] == last,
        );
        if used.contains(last) {
            let node = choose|node: int|
                0 <= node < live.len() && live[node] && #[trigger] numbers[node] == last;
            assert(own.contains(node));
            assert(own.len() > 0) by {
                if own.len() == 0 {
                    assert(own =~= Set::<int>::empty());
                }
            }
            assert(some =~= fewer.insert(last));
        } else {
            assert(own =~= Set::<int>::empty()) by {
                assert forall|node: int| !own.contains(node) by {
                    if own.contains(node) {
                        assert(numbers[node] == last);
                    }
                }
            }
            assert(some =~= fewer);
        }
    }
}

proof fn lemma_largest(live: Seq<bool>, numbers: Seq<u32>, count: nat, number: int)
    requires
        live.len() == numbers.len(),
    ensures
        0 <= number < count ==> class_size(live, numbers, number, live.len()) <= largest_class(
            live,
            numbers,
            count,
        ),
        largest_class(live, numbers, count) > 0 ==> exists|own: int|
            0 <= own < count && #[trigger] class_size(live, numbers, own, live.len())
                == largest_class(live, numbers, count),
    decreases count,
{
    if count > 0 {
        lemma_largest(live, numbers, (count - 1) as nat, number);
        let own = class_size(live, numbers, count - 1, live.len());
        let rest = largest_class(live, numbers, (count - 1) as nat);
        if own <= rest && rest > 0 {
            let other = choose|other: int|
                0 <= other < count - 1 && #[trigger] class_size(live, numbers, other, live.len())
                    == rest;
            assert(class_size(live, numbers, other, live.len()) == rest);
        }
    }
}

proof fn lemma_chain_keeps(g: LinkGraph, chain: Seq<u32>, kept: spec_fn(u32) -> int, at: int)
    requires
        is_chain(g, chain),
        0 <= at < chain.len(),
        forall|a: u32, b: u32| #[trigger] touches(g, a, b) ==> kept(a) == kept(b),
    ensures
        kept(chain[at]) == kept(chain[0]),
    decreases at,
{
    if at > 0 {
        lemma_chain_keeps(g, chain, kept, at - 1);
        assert(touches(g, chain[at - 1], chain[(at - 1) + 1]));
    }
}

/// What the search for components answers. Two live nodes that a current edge
/// joins have the same number. Two live nodes have the same number only if edges
/// join them, directly or through others: whatever is the same at both ends of
/// every edge between live nodes is the same for both. The number of components
/// is the number of numbers that live nodes have, and the size of the largest is
/// the greatest number of live nodes that share one.
pub proof fn law_component_numbers(
    engine: Engine,
    delta: TxDelta,
    before: GovernorView,
    after: GovernorView,
    components: ComponentResult,
    a: u32,
    b: u32,
    kept: spec_fn(u32) -> int,
    number: int,
)
    requires
        engine.components_answer(delta, before, after, Ok(components)),
        engine.node_store.nodes().len() <= u32::MAX,
    ensures
        ({
            let nodes = engine.node_store.nodes();
            let numbers = components.component_of@;
            let live = Seq::new(nodes.len(), |i: int| nodes[i].active);
            let used = numbers_used(live, numbers);
            let same = numbered(live, numbers, number);
            &&& numbers.len() == nodes.len()
            &&& is_live(engine, a) && is_live(engine, b) && edge_leads(engine, delta, a, b)
                ==> numbers[a as int] == numbers[b as int]
            &&& is_live(engine, a) && is_live(engine, b) && numbers[a as int] == numbers[b as int]
                && (forall|from: u32, to: u32|
                is_live(engine, from) && is_live(engine, to) && #[trigger] edge_leads(
                    engine,
                    delta,
                    from,
                    to,
                ) ==> kept(from) == kept(to)) ==> kept(a) == kept(b)
            &&& used.finite() && components.num_components == used.len()
            &&& same.finite() && same.len() <= components.largest_component_size
            &&& components.largest_component_size > 0 ==> exists|own: int|
                (#[trigger] numbered(live, numbers, own)).len()
                    == components.largest_component_size
        }),
{
    let nodes = engine.node_store.nodes();
    let g = engine.current_links(delta);
    let numbers = components.component_of@;
    let live = Seq::new(nodes.len(), |i: int| nodes[i].active);
    assert(g.live =~= live);
    assert forall|from: u32, to: u32|
        is_live(engine, from) && is_live(engine, to) implies (#[trigger] edge_leads(
        engine,
        delta,
        from,
        to,
    ) <==> crate::components::leads(g, from, to)) by {
        let row = engine.current_row(delta, TraversalDirection::Out, from);
        let links = (g.adjacency)(from);
        if edge_leads(engine, delta, from, to) {
            let i = choose|i: int| 0 <= i < row.len() && (#[trigger] row[i]).target == to;
            assert(links[i].target == to);
        }
        if crate::components::leads(g, from, to) {
            let i = choose|i: int| 0 <= i < links.len() && (#[trigger] links[i]).target == to;
            assert(row[i].target == to);
        }
    }
    if is_live(engine, a) && is_live(engine, b) && edge_leads(engine, delta, a, b) {
        lemma_linked_edge(g, a, b);
        assert(numbers[a as int] == numbers[b as int]);
    }
    if is_live(engine, a) && is_live(engine, b) && numbers[a as int] == numbers[b as int] && (
    forall|from: u32, to: u32|
        is_live(engine, from) && is_live(engine, to) && #[trigger] edge_leads(
            engine,
            delta,
            from,
            to,
        ) ==> kept(from) == kept(to)) {
        assert(linked(g, a, b));
        let chain = choose|chain: Seq<u32>| #[trigger]
            is_chain(g, chain) && chain.len() > 0 && chain[0] == a && chain.last() == b;
        assert forall|from: u32, to: u32| #[trigger] touches(g, from, to) implies kept(from)
            == kept(to) by {
            assert(is_live(engine, from) && is_live(engine, to));
            if crate::components::leads(g, from, to) {
                assert(edge_leads(engine, delta, from, to));
            } else {
                assert(edge_leads(engine, delta, to, from));
            }
        }
        lemma_chain_keeps(g, chain, kept, chain.len() - 1);
    }
    lemma_classes_count(live, numbers, live.len());
    let used = numbers_used(live, numbers);
    assert(used =~= Set::new(
        |number: int| 0 <= number < live.len() && used.contains(number),
    )) by {
        assert forall|number: int| used.contains(number) implies 0 <= number < live.len() by {
            let node = choose|node: int|
                0 <= node < live.len() && live[node] && #[trigger] numbers[node] == number;
            assert(numbers[node] < g.live.len());
        }
    }
    let same = numbered(live, numbers, number);
    lemma_class_counts(live, numbers, number, live.len());
    assert(same =~= Set::new(
        |node: int| 0 <= node < live.len() && live[node] && numbers[node] == number,
    ));
    lemma_largest(live, numbers, live.len(), number);
    if !(0 <= number < live.len()) {
        assert(same =~= Set::<int>::empty()) by {
            assert forall|node: int| !same.contains(node) by {
                if same.contains(node) {
                    assert(numbers[node] < g.live.len());
                }
            }
        }
    }
    if components.largest_component_size > 0 {
        let own = choose|own: int|
            0 <= own < live.len() && #[trigger] class_size(live, numbers, own, live.len())
                == largest_class(live, numbers, live.len());
        lemma_class_counts(live, numbers, own, live.len());
        assert(numbered(live, numbers, own) =~= Set::new(
            |node: int| 0 <= node < live.len() && live[node] && numbers[node] == own,
        ));
        assert(numbered(live, numbers, own).len() == components.largest_component_size);
    }
}

} // verus!
