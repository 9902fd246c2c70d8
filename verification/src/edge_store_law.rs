//! What the rows of a store hold: each edge in its source's row, in the order in
//! which edges came.
use vstd::prelude::*;

use crate::cost_heap::CostHeap;
use crate::edge_store::{rows_of, EdgeStore, RawEdge};
use crate::neighbors::WeightedNeighbor;
use crate::node_set::NodeSet;
use crate::text_dictionary::TextDictionary;

verus! {

/// Whether a stored edge is a given one: the same target, type, sense and
/// relationship, and its weight, or one where it has none.
pub open spec fn is_stored(
    stored: WeightedNeighbor,
    edge: RawEdge,
    relationship: Option<u32>,
) -> bool {
    &&& stored.target == edge.target
    &&& stored.type_id == edge.type_id
    &&& stored.schema_reversed == edge.schema_reversed
    &&& stored.relationship_id == relationship
    &&& match edge.weight {
        Some(weight) => stored.weight == weight,
        None => stored.weight == 1,
    }
}

/// A pushed edge comes last in its source's row; nothing else changes.
pub proof fn law_pushed_edge_is_last(
    store: &mut EdgeStore,
    edge: RawEdge,
    relationship: Option<u32>,
    node: u32,
)
    requires
        edge.source < old(store).rows().len(),
        call_ensures(EdgeStore::push, (store, edge, relationship), ()),
    ensures
        ({
            let (before, after) = (old(store).rows(), final(store).rows());
            let (own_before, own) = (before[edge.source as int], after[edge.source as int]);
            &&& after.len() == before.len()
            &&& own.len() == own_before.len() + 1
            &&& is_stored(own.last(), edge, relationship)
            &&& forall|i: int| 0 <= i < own_before.len() ==> #[trigger] own[i] == own_before[i]
            &&& node != edge.source && node < before.len() ==> after[node as int]
                == before[node as int]
            &&& final(store).count() == old(store).count() + 1
        }),
{
}

/// How many of the first edges come from a node.
pub open spec fn edges_from(edges: Seq<RawEdge>, node: u32, count: nat) -> nat
    decreases count,
{
    if count == 0 {
        0
    } else {
        edges_from(edges, node, (count - 1) as nat) + if edges[count - 1].source == node {
            1nat
        } else {
            0nat
        }
    }
}

proof fn lemma_rows_hold(nodes: nat, edges: Seq<RawEdge>, node: u32, at: int)
    requires
        node < nodes,
        0 <= at <= edges.len(),
        forall|i: int| 0 <= i < edges.len() ==> (#[trigger] edges[i]).source < nodes,
    ensures
        ({
            let all = edges.map_values(|edge: RawEdge| (edge, None::<u32>));
            let rows = rows_of(nodes, all);
            let place = edges_from(edges, node, at as nat);
            &&& rows.len() == nodes
            &&& rows[node as int].len() == edges_from(edges, node, edges.len())
            &&& at < edges.len() && edges[at].source == node ==> place < rows[node as int].len()
                && is_stored(rows[node as int][place as int], edges[at], None)
        }),
    decreases edges.len(),
{
    let all = edges.map_values(|edge: RawEdge| (edge, None::<u32>));
    if edges.len() > 0 {
        let shorter = edges.drop_last();
        let less = if at < edges.len() {
            at
        } else {
            at - 1
        };
        assert(all.drop_last() =~= shorter.map_values(|edge: RawEdge| (edge, None::<u32>)));
        assert(all.last() == (edges.last(), None::<u32>));
        lemma_rows_hold(nodes, shorter, node, less);
        lemma_edges_from(shorter, edges, node, less as nat);
        lemma_edges_from(shorter, edges, node, shorter.len());
    }
}

proof fn lemma_edges_from(left: Seq<RawEdge>, right: Seq<RawEdge>, node: u32, count: nat)
    requires
        count <= left.len(),
        count <= right.len(),
        forall|i: int| 0 <= i < count ==> #[trigger] left[i] == right[i],
    ensures
        edges_from(left, node, count) == edges_from(right, node, count),
    decreases count,
{
    if count > 0 {
        lemma_edges_from(left, right, node, (count - 1) as nat);
        assert(left[count - 1] == right[count - 1]);
    }
}

/// A store that is made of edges has a row for each node, which holds the edges
/// from that node, and no others, in their order.
pub proof fn law_store_holds_its_edges(
    nodes: u32,
    edges: Vec<RawEdge>,
    weighted: bool,
    store: EdgeStore,
    node: u32,
    at: int,
)
    requires
        forall|i: int| 0 <= i < edges@.len() ==> (#[trigger] edges@[i]).source < nodes,
        call_ensures(EdgeStore::from_edges, (nodes, edges, weighted), store),
        node < nodes,
        0 <= at < edges@.len(),
    ensures
        store.rows().len() == nodes,
        store.count() == edges@.len(),
        store.is_weighted() == weighted,
        store.rows()[node as int].len() == edges_from(edges@, node, edges@.len()),
        edges@[at].source == node ==> {
            let place = edges_from(edges@, node, at as nat);
            place < store.rows()[node as int].len() && is_stored(
                store.rows()[node as int][place as int],
                edges@[at],
                None,
            )
        },
{
    lemma_rows_hold(nodes as nat, edges@, node, at);
}

/// The entry that leaves a heap is one that was in it, and none that stays has a
/// lower cost, or the same cost and a lower node; all others stay.
pub proof fn law_heap_gives_the_least(
    heap: &mut CostHeap,
    entry: Option<(u64, u32)>,
    other: (u64, u32),
)
    requires
        call_ensures(CostHeap::pop, (heap,), entry),
    ensures
        entry is None <==> old(heap)@.len() == 0,
        entry matches Some(least) ==> {
            &&& old(heap)@.contains(least)
            &&& old(heap)@.contains(other) ==> least.0 < other.0 || (least.0 == other.0
                && least.1 <= other.1)
            &&& final(heap)@.len() + 1 == old(heap)@.len()
            &&& final(heap)@.count(least) + 1 == old(heap)@.count(least)
            &&& other != least ==> final(heap)@.count(other) == old(heap)@.count(other)
        },
{
}

/// A heap takes what is pushed, and keeps the rest.
pub proof fn law_heap_takes_entries(heap: &mut CostHeap, entry: (u64, u32), other: (u64, u32))
    requires
        call_ensures(CostHeap::push, (heap, entry), ()),
    ensures
        final(heap)@.count(entry) == old(heap)@.count(entry) + 1,
        other != entry ==> final(heap)@.count(other) == old(heap)@.count(other),
{
}

/// A set of nodes holds what was inserted and not removed since, and says of each
/// step whether it changed anything.
pub proof fn law_node_set_holds_what_was_inserted(
    inserted: &mut NodeSet,
    removed: &mut NodeSet,
    node: u32,
    other: u32,
    added: bool,
    taken: bool,
    after_insert: bool,
    after_remove: bool,
)
    requires
        call_ensures(NodeSet::insert, (inserted, node), added),
        call_ensures(NodeSet::remove, (removed, node), taken),
        call_ensures(NodeSet::contains, (final(inserted), other), after_insert),
        call_ensures(NodeSet::contains, (final(removed), other), after_remove),
    ensures
        added <==> !old(inserted)@.contains(node),
        taken <==> old(removed)@.contains(node),
        after_insert <==> other == node || old(inserted)@.contains(other),
        after_remove <==> other != node && old(removed)@.contains(other),
{
}

/// An interned text is found under its token, its token gives it back, and texts
/// that were interned before keep theirs.
pub proof fn law_dictionary_keeps_texts(
    dictionary: &mut TextDictionary,
    text: &str,
    token: Option<u32>,
    later: Option<u32>,
    read: Option<&str>,
    other: u32,
    before: Option<&str>,
    after: Option<&str>,
)
    requires
        old(dictionary)@.len() <= u32::MAX,
        old(dictionary)@.no_duplicates(),
        call_ensures(TextDictionary::intern, (dictionary, text), token),
        token is Some,
        call_ensures(TextDictionary::find, (final(dictionary), text), later),
        call_ensures(TextDictionary::get, (final(dictionary), token->Some_0), read),
        call_ensures(TextDictionary::get, (old(dictionary), other), before),
        call_ensures(TextDictionary::get, (final(dictionary), other), after),
    ensures
        later == token,
        read matches Some(read) && read@ == text@,
        before matches Some(before) ==> (after matches Some(after) && after@ == before@),
{
    let (first, last) = (old(dictionary)@, final(dictionary)@);
    assert(last.no_duplicates()) by {
        if !first.contains(text@) {
            assert forall|i: int, j: int|
                0 <= i < last.len() && 0 <= j < last.len() && i != j implies last[i] != last[j] by {
                if i == first.len() {
                    assert(first.contains(last[j]) || j == first.len());
                    assert(last[j] == first[j]);
                } else if j == first.len() {
                    assert(last[i] == first[i]);
                    assert(first.contains(first[i]));
                }
            }
        }
    }
    assert(last[token->Some_0 as int] == text@);
    assert(last.contains(text@));
}

} // verus!
