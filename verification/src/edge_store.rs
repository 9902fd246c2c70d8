//! Forward and reverse adjacency rows of the base graph.
use vstd::prelude::*;

use crate::neighbors::{
    page_of, strip_weights, Neighbor, NeighborSource, OwnedNeighborCursor, WeightedNeighbor,
    WeightedNeighborSource,
};
use crate::rooms::{
    adds, have_room, lemma_adds, lemma_adds_room, push_list, total_bytes, total_of, Need, Room,
};
use crate::types::EdgeTypeId;

verus! {

/// An edge before it is stored.
#[derive(Debug, Clone, Copy, PartialEq, Eq, Structural)]
pub struct RawEdge {
    pub source: u32,
    pub target: u32,
    pub type_id: EdgeTypeId,
    pub weight: Option<u32>,
    pub schema_reversed: bool,
}

impl RawEdge {
    /// The edge as its source's row holds it; an absent weight counts as one.
    pub open spec fn stored(self, relationship_id: Option<u32>) -> WeightedNeighbor {
        WeightedNeighbor {
            target: self.target,
            type_id: self.type_id,
            schema_reversed: self.schema_reversed,
            relationship_id,
            weight: match self.weight {
                Some(weight) => weight,
                None => 1,
            },
        }
    }
}

/// Adjacency rows, one per node, each in the order in which edges arrived.
pub struct EdgeStore {
    rows: Vec<Vec<WeightedNeighbor>>,
    weighted: bool,
    edges: u32,
}

/// The rows that a list of edges gives, for a number of nodes.
pub open spec fn rows_of(
    node_count: nat,
    edges: Seq<(RawEdge, Option<u32>)>,
) -> Seq<Seq<WeightedNeighbor>>
    decreases edges.len(),
{
    if edges.len() == 0 {
        Seq::new(node_count, |i: int| Seq::empty())
    } else {
        let before = rows_of(node_count, edges.drop_last());
        let (edge, id) = edges.last();
        before.update(
            edge.source as int,
            before[edge.source as int].push(edge.stored(id)),
        )
    }
}

impl EdgeStore {
    /// The rows of the store.
    pub closed spec fn rows(&self) -> Seq<Seq<WeightedNeighbor>> {
        Seq::new(self.rows@.len(), |i: int| self.rows@[i]@)
    }

    /// Whether the store was made with weights.
    pub closed spec fn is_weighted(&self) -> bool {
        self.weighted
    }

    /// Number of stored edges.
    pub closed spec fn count(&self) -> nat {
        self.edges as nat
    }

    /// A store without nodes and edges.
    pub fn new() -> (store: Self)
        ensures
            store.rows() == Seq::<Seq<WeightedNeighbor>>::empty(),
            !store.is_weighted(),
            store.count() == 0,
    {
        let store = EdgeStore { rows: Vec::new(), weighted: false, edges: 0 };
        assert(store.rows() =~= Seq::<Seq<WeightedNeighbor>>::empty());
        store
    }

    /// A store of `node_count` empty rows.
    pub fn with_nodes(node_count: u32, weighted: bool) -> (store: Self)
        ensures
            store.rows() == rows_of(node_count as nat, Seq::empty()),
            store.is_weighted() == weighted,
            store.count() == 0,
    {
        let mut rows: Vec<Vec<WeightedNeighbor>> = Vec::new();
        let mut node: u32 = 0;
        while node < node_count
            invariant
                node <= node_count,
                rows@.len() == node,
                forall|i: int| 0 <= i < node ==> (#[trigger] rows@[i])@.len() == 0,
            decreases node_count - node,
        {
            rows.push(Vec::new());
            node = node + 1;
        }
        let store = EdgeStore { rows, weighted, edges: 0 };
        assert(store.rows() =~~= rows_of(node_count as nat, Seq::empty()));
        store
    }

    /// Appends an edge to its source's row.
    pub fn push(&mut self, edge: RawEdge, relationship_id: Option<u32>)
        requires
            edge.source < old(self).rows().len(),
            old(self).count() < u32::MAX,
        ensures
            final(self).rows() == old(self).rows().update(
                edge.source as int,
                old(self).rows()[edge.source as int].push(edge.stored(relationship_id)),
            ),
            final(self).is_weighted() == old(self).is_weighted(),
            final(self).count() == old(self).count() + 1,
    {
        let stored = WeightedNeighbor {
            target: edge.target,
            type_id: edge.type_id,
            schema_reversed: edge.schema_reversed,
            relationship_id,
            weight: match edge.weight {
                Some(weight) => weight,
                None => 1,
            },
        };
        let ghost before = self.rows();
        self.rows[edge.source as usize].push(stored);
        self.edges = self.edges + 1;
        assert(self.rows() =~= before.update(
            edge.source as int,
            before[edge.source as int].push(stored),
        ));
    }

    /// Builds a store from edges without relationship identities.
    pub fn from_edges(node_count: u32, edges: Vec<RawEdge>, weighted: bool) -> (store: Self)
        requires
            edges@.len() <= u32::MAX,
            forall|i: int| 0 <= i < edges@.len() ==> (#[trigger] edges@[i]).source < node_count,
        ensures
            store.rows() == rows_of(
                node_count as nat,
                edges@.map_values(|edge: RawEdge| (edge, None::<u32>)),
            ),
            store.is_weighted() == weighted,
            store.count() == edges@.len(),
    {
        let mut store = EdgeStore::with_nodes(node_count, weighted);
        let ghost all = edges@.map_values(|edge: RawEdge| (edge, None::<u32>));
        let mut at: usize = 0;
        proof {
            assert(all.take(0) =~= Seq::empty());
        }
        while at < edges.len()
            invariant
                at <= edges@.len() <= u32::MAX,
                all == edges@.map_values(|edge: RawEdge| (edge, None::<u32>)),
                forall|i: int| 0 <= i < edges@.len() ==> (#[trigger] edges@[i]).source < node_count,
                store.rows() == rows_of(node_count as nat, all.take(at as int)),
                store.rows().len() == node_count,
                store.is_weighted() == weighted,
                store.count() == at,
            decreases edges@.len() - at,
        {
            store.push(edges[at], None);
            proof {
                assert(all.take(at + 1).drop_last() =~= all.take(at as int));
                assert(all.take(at + 1).last() == (edges@[at as int], None::<u32>));
            }
            at = at + 1;
        }
        proof {
            assert(all.take(at as int) =~= all);
        }
        store
    }

    /// Number of stored edges.
    pub fn edge_count(&self) -> (count: u32)
        ensures
            count == self.count(),
    {
        self.edges
    }

    /// Whether the store was made with weights.
    pub fn has_weights(&self) -> (weighted: bool)
        ensures
            weighted == self.is_weighted(),
    {
        self.weighted
    }

    /// Number of edges in a node's row.
    fn row_len(&self, node: u32) -> (length: usize)
        ensures
            length == self.row(node).len(),
    {
        if (node as usize) < self.rows.len() {
            self.rows[node as usize].len()
        } else {
            0
        }
    }

    /// The row of a node; a node without a row has no edges.
    pub open spec fn row(&self, node: u32) -> Seq<WeightedNeighbor> {
        if node < self.rows().len() {
            self.rows()[node as int]
        } else {
            Seq::empty()
        }
    }
}

impl NeighborSource for EdgeStore {
    open spec fn adjacency(&self, node: u32) -> Seq<Neighbor> {
        strip_weights(self.row(node))
    }

    fn neighbors(&self, node: u32) -> (row: Vec<Neighbor>) {
        let mut row: Vec<Neighbor> = Vec::new();
        let mut cursor = OwnedNeighborCursor::start();
        let length: usize = self.row_len(node);
        self.fill_neighbors(node, &mut cursor, length, &mut row);
        proof {
            assert(row@ =~= self.adjacency(node));
        }
        row
    }

    fn fill_neighbors(
        &self,
        node: u32,
        cursor: &mut OwnedNeighborCursor,
        limit: usize,
        page: &mut Vec<Neighbor>,
    ) -> (exhausted: bool) {
        let ghost row = self.adjacency(node);
        let ghost start = cursor.position as int;
        let ghost first = page@;
        if (node as usize) < self.rows.len() {
            let edges: &Vec<WeightedNeighbor> = &self.rows[node as usize];
            let mut taken: usize = 0;
            while taken < limit && cursor.position < edges.len()
                invariant
                    edges@ == self.row(node),
                    row == strip_weights(edges@),
                    row.len() == edges@.len(),
                    taken <= limit,
                    0 <= start,
                    start + taken == cursor.position <= edges@.len(),
                    page@ == first + row.subrange(start, cursor.position as int),
                decreases limit - taken,
            {
                page.push(edges[cursor.position].to_neighbor());
                cursor.position = cursor.position + 1;
                taken = taken + 1;
                proof {
                    assert(page@ =~= first + row.subrange(start, cursor.position as int));
                }
            }
            cursor.position == edges.len()
        } else {
            proof {
                assert(page@ =~= first + page_of(row, 0, limit as int));
            }
            true
        }
    }
}

impl WeightedNeighborSource for EdgeStore {
    open spec fn weighted_adjacency(&self, node: u32) -> Seq<WeightedNeighbor> {
        self.row(node)
    }

    open spec fn weighted(&self) -> bool {
        self.is_weighted()
    }

    fn has_weighted_edges(&self) -> (weighted: bool) {
        self.weighted
    }

    fn weighted_neighbors(&self, node: u32) -> (row: Vec<WeightedNeighbor>) {
        let mut row: Vec<WeightedNeighbor> = Vec::new();
        let mut cursor = OwnedNeighborCursor::start();
        let length: usize = self.row_len(node);
        self.fill_weighted_neighbors(node, &mut cursor, length, &mut row);
        proof {
            assert(row@ =~= self.row(node));
        }
        row
    }

    fn fill_weighted_neighbors(
        &self,
        node: u32,
        cursor: &mut OwnedNeighborCursor,
        limit: usize,
        page: &mut Vec<WeightedNeighbor>,
    ) -> (exhausted: bool) {
        let ghost row = self.row(node);
        let ghost start = cursor.position as int;
        let ghost first = page@;
        if (node as usize) < self.rows.len() {
            let edges: &Vec<WeightedNeighbor> = &self.rows[node as usize];
            let mut taken: usize = 0;
            while taken < limit && cursor.position < edges.len()
                invariant
                    edges@ == self.row(node),
                    row == edges@,
                    taken <= limit,
                    0 <= start,
                    start + taken == cursor.position <= edges@.len(),
                    page@ == first + row.subrange(start, cursor.position as int),
                decreases limit - taken,
            {
                page.push(edges[cursor.position]);
                cursor.position = cursor.position + 1;
                taken = taken + 1;
                proof {
                    assert(page@ =~= first + row.subrange(start, cursor.position as int));
                }
            }
            cursor.position == edges.len()
        } else {
            proof {
                assert(page@ =~= first + page_of(row, 0, limit as int));
            }
            true
        }
    }
}

/// The edges of a source's row that lead to a target, seen from the target.
pub open spec fn edges_into(row: Seq<WeightedNeighbor>, source: u32, target: u32) -> Seq<
    WeightedNeighbor,
>
    decreases row.len(),
{
    if row.len() == 0 {
        Seq::empty()
    } else if row.last().target == target {
        edges_into(row.drop_last(), source, target).push(
            WeightedNeighbor { target: source, ..row.last() },
        )
    } else {
        edges_into(row.drop_last(), source, target)
    }
}

/// The edges of the first rows that lead to a target, seen from the target.
pub open spec fn inbound_row(rows: Seq<Seq<WeightedNeighbor>>, target: u32, count: nat) -> Seq<
    WeightedNeighbor,
>
    decreases count,
{
    if count == 0 {
        Seq::empty()
    } else {
        inbound_row(rows, target, (count - 1) as nat) + edges_into(
            rows[count - 1],
            (count - 1) as u32,
            target,
        )
    }
}

impl EdgeStore {
    /// The same edges, seen from their other ends. An edge that leads to no row
    /// is counted, but cannot be seen.
    pub fn reversed(&self) -> (store: Self)
        requires
            self.rows().len() <= u32::MAX + 1,
        ensures
            store.rows().len() == self.rows().len(),
            forall|target: u32|
                target < store.rows().len() ==> #[trigger] store.rows()[target as int]
                    == inbound_row(self.rows(), target, self.rows().len()),
            store.is_weighted() == self.is_weighted(),
            store.count() == self.count(),
    {
        let ghost all = self.rows();
        let total: usize = self.rows.len();
        let mut rows: Vec<Vec<WeightedNeighbor>> = Vec::new();
        let mut made: usize = 0;
        while made < total
            invariant
                made <= total,
                rows@.len() == made,
                forall|i: int| 0 <= i < made ==> (#[trigger] rows@[i])@.len() == 0,
            decreases total - made,
        {
            rows.push(Vec::new());
            made = made + 1;
        }
        let mut source: usize = 0;
        assert forall|t: u32| t < total implies (#[trigger] rows@[t as int])@ == inbound_row(
            all,
            t,
            0,
        ) by {
            assert(rows@[t as int]@ =~= inbound_row(all, t, 0));
        }
        while source < total
            invariant
                source <= total == all.len() == rows@.len(),
                total == self.rows@.len(),
                total <= u32::MAX + 1,
                all == self.rows(),
                forall|t: u32|
                    t < total ==> (#[trigger] rows@[t as int])@ == inbound_row(
                        all,
                        t,
                        source as nat,
                    ),
            decreases total - source,
        {
            let row: &Vec<WeightedNeighbor> = &self.rows[source];
            assert(row@ == all[source as int]);
            let mut at: usize = 0;
            proof {
                assert(row@.take(0) =~= Seq::<WeightedNeighbor>::empty());
                assert forall|t: u32| t < total implies (#[trigger] rows@[t as int])@
                    == inbound_row(all, t, source as nat) + edges_into(
                    row@.take(0),
                    source as u32,
                    t,
                ) by {
                    assert(rows@[t as int]@ =~= inbound_row(all, t, source as nat) + edges_into(
                        row@.take(0),
                        source as u32,
                        t,
                    ));
                }
            }
            while at < row.len()
                invariant
                    source < total == all.len() == rows@.len(),
                    total <= u32::MAX + 1,
                    row@ == all[source as int],
                    at <= row@.len(),
                    forall|t: u32|
                        t < total ==> (#[trigger] rows@[t as int])@ == inbound_row(
                            all,
                            t,
                            source as nat,
                        ) + edges_into(row@.take(at as int), source as u32, t),
                decreases row@.len() - at,
            {
                let edge: WeightedNeighbor = row[at];
                let turned = WeightedNeighbor {
                    target: source as u32,
                    type_id: edge.type_id,
                    schema_reversed: edge.schema_reversed,
                    relationship_id: edge.relationship_id,
                    weight: edge.weight,
                };
                let ghost before = rows@;
                if (edge.target as usize) < total {
                    rows[edge.target as usize].push(turned);
                }
                proof {
                    assert(row@.take(at + 1).drop_last() =~= row@.take(at as int));
                    assert(row@.take(at + 1).last() == edge);
                    assert forall|t: u32| t < total implies (#[trigger] rows@[t as int])@
                        == inbound_row(all, t, source as nat) + edges_into(
                        row@.take(at + 1),
                        source as u32,
                        t,
                    ) by {
                        if t == edge.target {
                            assert(rows@[t as int]@ =~= before[t as int]@.push(turned));
                            assert(rows@[t as int]@ =~= inbound_row(all, t, source as nat)
                                + edges_into(row@.take(at + 1), source as u32, t));
                        } else {
                            assert(rows@[t as int] == before[t as int]);
                        }
                    }
                }
                at = at + 1;
            }
            assert(row@.take(at as int) =~= row@);
            source = source + 1;
        }
        let store = EdgeStore { rows, weighted: self.weighted, edges: self.edges };
        proof {
            assert forall|target: u32| target < store.rows().len() implies #[trigger] store.rows()[target as int]
                == inbound_row(self.rows(), target, self.rows().len()) by {
                assert(store.rows()[target as int] == rows@[target as int]@);
            }
        }
        store
    }
}

/// An edge of a row is among those that lead to its target.
proof fn lemma_edge_into(row: Seq<WeightedNeighbor>, source: u32, at: int)
    requires
        0 <= at < row.len(),
    ensures
        edges_into(row, source, row[at].target).contains(
            WeightedNeighbor { target: source, ..row[at] },
        ),
    decreases row.len(),
{
    let target = row[at].target;
    let turned = WeightedNeighbor { target: source, ..row[at] };
    let all = edges_into(row, source, target);
    if at == row.len() - 1 {
        assert(all[all.len() - 1] == turned);
    } else {
        assert(row.drop_last()[at] == row[at]);
        lemma_edge_into(row.drop_last(), source, at);
        let rest = edges_into(row.drop_last(), source, target);
        let k = choose|k: int| 0 <= k < rest.len() && rest[k] == turned;
        assert(all[k] == turned);
    }
}

/// Edges of fewer rows are among those of more.
proof fn lemma_inbound_grows(
    rows: Seq<Seq<WeightedNeighbor>>,
    target: u32,
    small: nat,
    large: nat,
    edge: WeightedNeighbor,
)
    requires
        small <= large,
        inbound_row(rows, target, small).contains(edge),
    ensures
        inbound_row(rows, target, large).contains(edge),
    decreases large,
{
    if small < large {
        lemma_inbound_grows(rows, target, small, (large - 1) as nat, edge);
        let rest = inbound_row(rows, target, (large - 1) as nat);
        let k = choose|k: int| 0 <= k < rest.len() && rest[k] == edge;
        assert(inbound_row(rows, target, large)[k] == edge);
    }
}

/// Every edge can be followed back in the reversed rows.
pub proof fn law_reversed_edge_leads_back(
    rows: Seq<Seq<WeightedNeighbor>>,
    source: u32,
    at: int,
)
    requires
        source < rows.len(),
        0 <= at < rows[source as int].len(),
    ensures
        inbound_row(rows, rows[source as int][at].target, rows.len()).contains(
            WeightedNeighbor { target: source, ..rows[source as int][at] },
        ),
{
    let row = rows[source as int];
    let target = row[at].target;
    let turned = WeightedNeighbor { target: source, ..row[at] };
    lemma_edge_into(row, source, at);
    let own = edges_into(row, source, target);
    let k = choose|k: int| 0 <= k < own.len() && own[k] == turned;
    let before = inbound_row(rows, target, source as nat);
    let upto = inbound_row(rows, target, (source + 1) as nat);
    assert(upto[before.len() + k] == turned);
    lemma_inbound_grows(rows, target, (source + 1) as nat, rows.len(), turned);
}

/// Number of edges in the first rows.
pub open spec fn edges_in(rows: Seq<Seq<WeightedNeighbor>>, count: nat) -> nat
    decreases count,
{
    if count == 0 {
        0
    } else {
        edges_in(rows, (count - 1) as nat) + rows[count - 1].len()
    }
}

/// The views of rows.
pub open spec fn row_views(rows: Seq<Vec<WeightedNeighbor>>) -> Seq<Seq<WeightedNeighbor>> {
    Seq::new(rows.len(), |i: int| rows[i]@)
}

/// More rows have more edges.
proof fn lemma_edges_grow(rows: Seq<Seq<WeightedNeighbor>>, small: nat, large: nat)
    requires
        small <= large,
    ensures
        edges_in(rows, small) <= edges_in(rows, large),
    decreases large,
{
    if small < large {
        lemma_edges_grow(rows, small, (large - 1) as nat);
    }
}

impl EdgeStore {
    /// A store of rows, if their edges can be counted.
    pub fn from_rows(rows: Vec<Vec<WeightedNeighbor>>, weighted: bool) -> (store: Option<Self>)
        ensures
            match store {
                Some(store) => {
                    &&& store.rows() == row_views(rows@)
                    &&& store.is_weighted() == weighted
                    &&& store.count() == edges_in(row_views(rows@), rows@.len())
                },
                None => edges_in(row_views(rows@), rows@.len()) > u32::MAX,
            },
    {
        let ghost all = row_views(rows@);
        let mut edges: u32 = 0;
        let mut at: usize = 0;
        while at < rows.len()
            invariant
                at <= rows@.len(),
                all == row_views(rows@),
                edges == edges_in(all, at as nat),
            decreases rows@.len() - at,
        {
            let length: usize = rows[at].len();
            proof {
                lemma_edges_grow(all, (at + 1) as nat, rows@.len());
            }
            if edges as u64 as u128 + length as u128 > u32::MAX as u128 {
                return None;
            }
            edges = edges + length as u32;
            at = at + 1;
        }
        let store = EdgeStore { rows, weighted, edges };
        assert(store.rows() =~= all);
        Some(store)
    }

    /// The rows of the first nodes; a node without a row gets an empty one.
    pub fn padded_rows(&self, node_count: u32) -> (rows: Vec<Vec<WeightedNeighbor>>)
        ensures
            row_views(rows@) == Seq::new(node_count as nat, |i: int| self.row(i as u32)),
    {
        let mut rows: Vec<Vec<WeightedNeighbor>> = Vec::new();
        let mut node: u32 = 0;
        while node < node_count
            invariant
                node <= node_count,
                rows@.len() == node,
                forall|i: int| 0 <= i < node ==> (#[trigger] rows@[i])@ == self.row(i as u32),
            decreases node_count - node,
        {
            rows.push(self.weighted_neighbors(node));
            node = node + 1;
        }
        assert(row_views(rows@) =~= Seq::new(node_count as nat, |i: int| self.row(i as u32)));
        rows
    }
}

impl Clone for EdgeStore {
    /// A copy with the same rows.
    fn clone(&self) -> (copy: Self)
        ensures
            copy.rows() == self.rows(),
            copy.is_weighted() == self.is_weighted(),
            copy.count() == self.count(),
    {
        let mut rows: Vec<Vec<WeightedNeighbor>> = Vec::new();
        let mut node: usize = 0;
        while node < self.rows.len()
            invariant
                node <= self.rows@.len(),
                rows@.len() == node,
                forall|i: int| 0 <= i < node ==> (#[trigger] rows@[i])@ == self.rows@[i]@,
            decreases self.rows@.len() - node,
        {
            rows.push(vstd::slice::slice_to_vec(self.rows[node].as_slice()));
            node = node + 1;
        }
        let copy = EdgeStore { rows, weighted: self.weighted, edges: self.edges };
        assert(copy.rows() =~= self.rows());
        copy
    }
}

/// What rows have to hold: a list of rows, and each row's edges.
pub open spec fn rows_needs(rows: Seq<Seq<WeightedNeighbor>>) -> Seq<Need> {
    seq![
        Need::Items {
            count: rows.len(),
            unit: vstd::layout::size_of::<Vec<WeightedNeighbor>>(),
        },
    ] + Seq::new(
        rows.len(),
        |i: int|
            Need::Items {
                count: rows[i].len(),
                unit: vstd::layout::size_of::<WeightedNeighbor>(),
            },
    )
}

impl EdgeStore {
    /// Adds what the store has allocated.
    pub fn push_rooms(&self, rooms: &mut Vec<Room>)
        ensures
            adds(old(rooms)@, final(rooms)@, rows_needs(self.rows())),
    {
        let ghost start = rooms@;
        let ghost all = rows_needs(self.rows());
        push_list(rooms, &self.rows);
        let mut at: usize = 0;
        assert(all.take(1) =~= seq![all[0]]);
        while at < self.rows.len()
            invariant
                at <= self.rows@.len() == self.rows().len(),
                all == rows_needs(self.rows()),
                adds(start, rooms@, all.take(at + 1)),
            decreases self.rows@.len() - at,
        {
            let ghost before = rooms@;
            push_list(rooms, &self.rows[at]);
            proof {
                let own = seq![all[at + 1]];
                assert(self.rows()[at as int] == self.rows@[at as int]@);
                lemma_adds(start, before, rooms@, all.take(at + 1), own);
                assert(all.take(at + 2) =~= all.take(at + 1) + own);
            }
            at = at + 1;
        }
        assert(all.take(all.len() as int) =~= all);
    }

    /// Estimated bytes that the store owns: those of its allocations.
    pub fn estimated_heap_bytes(&self) -> (bytes: usize)
        ensures
            exists|have: Seq<Need>| #[trigger]
                have_room(have, rows_needs(self.rows())) && bytes == total_of(have),
    {
        let mut rooms: Vec<Room> = Vec::new();
        self.push_rooms(&mut rooms);
        proof {
            lemma_adds_room(rooms@, rows_needs(self.rows()));
        }
        total_bytes(&rooms)
    }
}

} // verus!
