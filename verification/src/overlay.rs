//! Pending edge changes over a stored graph.
use roaring::RoaringBitmap;
use vstd::prelude::*;

use crate::edge_store::EdgeStore;
use crate::neighbors::{
    strip_weights, Neighbor, NeighborSource, OwnedNeighborCursor, WeightedNeighbor,
    WeightedNeighborSource,
};
use crate::types::{EdgeTypeId, TraversalDirection};

verus! {

/// Whether a mutation adds or removes an edge.
#[derive(Debug, Clone, Copy, PartialEq, Eq, Structural)]
pub enum MutationKind {
    Insert,
    Delete,
}

/// A pending change of one edge.
#[derive(Debug, Clone, Copy, PartialEq, Eq, Structural)]
pub struct EdgeMutation {
    pub source: u32,
    pub target: u32,
    pub type_id: u8,
    pub schema_reversed: bool,
    pub relationship_id: Option<u32>,
    pub kind: MutationKind,
}

/// An edge of an overlay. Among removed edges, one without a relationship
/// stands for the edges of every relationship.
#[derive(Debug, Clone, Copy, PartialEq, Eq, Structural)]
pub struct OverlayEdge {
    pub source: u32,
    pub target: u32,
    pub type_id: EdgeTypeId,
    pub schema_reversed: bool,
    pub relationship_id: Option<u32>,
}

/// Changes that the running transaction has made.
#[derive(Debug)]
pub struct TxDelta {
    pub inserted: Vec<OverlayEdge>,
    pub deleted: Vec<OverlayEdge>,
    pub deleted_nodes: RoaringBitmap,
    pub added_node_count: usize,
    pub memory_bytes: usize,
}

impl TxDelta {
    /// No changes.
    pub fn empty() -> (delta: Self)
        ensures
            delta.inserted@.len() == 0,
            delta.deleted@.len() == 0,
            crate::bitmap::bitmap_contents(delta.deleted_nodes) == Set::<u32>::empty(),
            delta.added_node_count == 0,
            delta.memory_bytes == 0,
    {
        TxDelta {
            inserted: Vec::new(),
            deleted: Vec::new(),
            deleted_nodes: RoaringBitmap::new(),
            added_node_count: 0,
            memory_bytes: 0,
        }
    }
}

/// Added and removed edges.
#[derive(Debug)]
pub struct EdgeOverlay {
    pub inserts: Vec<OverlayEdge>,
    pub deletes: Vec<OverlayEdge>,
}

/// Added and removed edges, as sequences without repetition.
#[verifier::ext_equal]
pub struct OverlayView {
    pub inserts: Seq<OverlayEdge>,
    pub deletes: Seq<OverlayEdge>,
}

impl View for EdgeOverlay {
    type V = OverlayView;

    open spec fn view(&self) -> OverlayView {
        OverlayView { inserts: self.inserts@, deletes: self.deletes@ }
    }
}

/// An edge as it is followed in a direction.
pub open spec fn facing(edge: OverlayEdge, direction: TraversalDirection) -> OverlayEdge {
    match direction {
        TraversalDirection::In => OverlayEdge { source: edge.target, target: edge.source, ..edge },
        _ => edge,
    }
}

/// The edge of a mutation.
pub open spec fn mutation_edge(mutation: EdgeMutation) -> OverlayEdge {
    OverlayEdge {
        source: mutation.source,
        target: mutation.target,
        type_id: EdgeTypeId(mutation.type_id as u32),
        schema_reversed: mutation.schema_reversed,
        relationship_id: mutation.relationship_id,
    }
}

/// Whether a removal removes an edge.
pub open spec fn erases(removal: OverlayEdge, edge: OverlayEdge) -> bool {
    &&& removal.source == edge.source
    &&& removal.target == edge.target
    &&& removal.type_id == edge.type_id
    &&& removal.schema_reversed == edge.schema_reversed
    &&& removal.relationship_id is None || removal.relationship_id == edge.relationship_id
}

/// The edges other than one.
pub open spec fn others(edges: Seq<OverlayEdge>, edge: OverlayEdge) -> Seq<OverlayEdge>
    decreases edges.len(),
{
    if edges.len() == 0 {
        Seq::empty()
    } else if edges.last() == edge {
        others(edges.drop_last(), edge)
    } else {
        others(edges.drop_last(), edge).push(edges.last())
    }
}

/// The edges that a removal leaves.
pub open spec fn unerased(edges: Seq<OverlayEdge>, removal: OverlayEdge) -> Seq<OverlayEdge>
    decreases edges.len(),
{
    if edges.len() == 0 {
        Seq::empty()
    } else if erases(removal, edges.last()) {
        unerased(edges.drop_last(), removal)
    } else {
        unerased(edges.drop_last(), removal).push(edges.last())
    }
}

/// A list with an edge in it.
pub open spec fn with_edge(edges: Seq<OverlayEdge>, edge: OverlayEdge) -> Seq<OverlayEdge> {
    if edges.contains(edge) {
        edges
    } else {
        edges.push(edge)
    }
}

/// The overlay after an edge was added: it is no longer removed.
pub open spec fn after_insert(overlay: OverlayView, edge: OverlayEdge) -> OverlayView {
    OverlayView {
        inserts: with_edge(overlay.inserts, edge),
        deletes: others(overlay.deletes, edge),
    }
}

/// The overlay after an edge was removed: what it stands for is no longer added.
pub open spec fn after_delete(overlay: OverlayView, edge: OverlayEdge) -> OverlayView {
    OverlayView {
        inserts: unerased(overlay.inserts, edge),
        deletes: with_edge(overlay.deletes, edge),
    }
}

/// The overlay after the first mutations.
pub open spec fn after_mutations(
    mutations: Seq<EdgeMutation>,
    direction: TraversalDirection,
    count: nat,
) -> OverlayView
    decreases count,
{
    if count == 0 {
        OverlayView { inserts: Seq::empty(), deletes: Seq::empty() }
    } else {
        let before = after_mutations(mutations, direction, (count - 1) as nat);
        let edge = facing(mutation_edge(mutations[count - 1]), direction);
        match mutations[count - 1].kind {
            MutationKind::Insert => after_insert(before, edge),
            MutationKind::Delete => after_delete(before, edge),
        }
    }
}

/// The overlay after the first of some removals.
pub open spec fn after_deletes(
    overlay: OverlayView,
    edges: Seq<OverlayEdge>,
    direction: TraversalDirection,
    count: nat,
) -> OverlayView
    decreases count,
{
    if count == 0 {
        overlay
    } else {
        after_delete(
            after_deletes(overlay, edges, direction, (count - 1) as nat),
            facing(edges[count - 1], direction),
        )
    }
}

/// The overlay after the first of some additions.
pub open spec fn after_inserts(
    overlay: OverlayView,
    edges: Seq<OverlayEdge>,
    direction: TraversalDirection,
    count: nat,
) -> OverlayView
    decreases count,
{
    if count == 0 {
        overlay
    } else {
        after_insert(
            after_inserts(overlay, edges, direction, (count - 1) as nat),
            facing(edges[count - 1], direction),
        )
    }
}

/// The overlay of buffered mutations and of a transaction's own changes, which
/// come after them.
pub open spec fn overlay_of(
    mutations: Seq<EdgeMutation>,
    delta: TxDelta,
    direction: TraversalDirection,
) -> OverlayView {
    let buffered = after_mutations(mutations, direction, mutations.len());
    let removed = after_deletes(buffered, delta.deleted@, direction, delta.deleted@.len());
    after_inserts(removed, delta.inserted@, direction, delta.inserted@.len())
}

fn turned(edge: OverlayEdge, direction: TraversalDirection) -> (result: OverlayEdge)
    ensures
        result == facing(edge, direction),
{
    match direction {
        TraversalDirection::In => OverlayEdge {
            source: edge.target,
            target: edge.source,
            type_id: edge.type_id,
            schema_reversed: edge.schema_reversed,
            relationship_id: edge.relationship_id,
        },
        _ => edge,
    }
}

fn is_erased(removal: &OverlayEdge, edge: &OverlayEdge) -> (result: bool)
    ensures
        result == erases(*removal, *edge),
{
    removal.source == edge.source && removal.target == edge.target && removal.type_id
        == edge.type_id && removal.schema_reversed == edge.schema_reversed && (
    removal.relationship_id.is_none() || removal.relationship_id == edge.relationship_id)
}

fn add_edge(edges: &mut Vec<OverlayEdge>, edge: OverlayEdge)
    ensures
        final(edges)@ == with_edge(old(edges)@, edge),
{
    let mut at: usize = 0;
    while at < edges.len()
        invariant
            at <= edges@.len(),
            edges@ == old(edges)@,
            forall|i: int| 0 <= i < at ==> edges@[i] != edge,
        decreases edges@.len() - at,
    {
        if edges[at] == edge {
            assert(edges@[at as int] == edge);
            return ;
        }
        at = at + 1;
    }
    edges.push(edge);
}

impl EdgeOverlay {
    /// No changes.
    pub fn new() -> (overlay: Self)
        ensures
            overlay@.inserts.len() == 0,
            overlay@.deletes.len() == 0,
    {
        EdgeOverlay { inserts: Vec::new(), deletes: Vec::new() }
    }

    /// Adds an edge.
    pub fn insert(&mut self, edge: OverlayEdge)
        ensures
            final(self)@ == after_insert(old(self)@, edge),
    {
        let mut kept: Vec<OverlayEdge> = Vec::new();
        let mut at: usize = 0;
        assert(self.deletes@.take(0) =~= Seq::<OverlayEdge>::empty());
        while at < self.deletes.len()
            invariant
                at <= self.deletes@.len(),
                self@ == old(self)@,
                kept@ == others(self.deletes@.take(at as int), edge),
            decreases self.deletes@.len() - at,
        {
            assert(self.deletes@.take(at + 1).drop_last() =~= self.deletes@.take(at as int));
            if self.deletes[at] != edge {
                kept.push(self.deletes[at]);
            }
            at = at + 1;
        }
        assert(self.deletes@.take(at as int) =~= self.deletes@);
        self.deletes = kept;
        add_edge(&mut self.inserts, edge);
    }

    /// Removes an edge.
    pub fn delete(&mut self, edge: OverlayEdge)
        ensures
            final(self)@ == after_delete(old(self)@, edge),
    {
        let mut kept: Vec<OverlayEdge> = Vec::new();
        let mut at: usize = 0;
        assert(self.inserts@.take(0) =~= Seq::<OverlayEdge>::empty());
        while at < self.inserts.len()
            invariant
                at <= self.inserts@.len(),
                self@ == old(self)@,
                kept@ == unerased(self.inserts@.take(at as int), edge),
            decreases self.inserts@.len() - at,
        {
            assert(self.inserts@.take(at + 1).drop_last() =~= self.inserts@.take(at as int));
            if !is_erased(&edge, &self.inserts[at]) {
                kept.push(self.inserts[at]);
            }
            at = at + 1;
        }
        assert(self.inserts@.take(at as int) =~= self.inserts@);
        self.inserts = kept;
        add_edge(&mut self.deletes, edge);
    }

    /// The overlay of buffered mutations and of a transaction's own changes.
    pub fn build(
        mutations: &Vec<EdgeMutation>,
        delta: &TxDelta,
        direction: TraversalDirection,
    ) -> (overlay: Self)
        ensures
            overlay@ == overlay_of(mutations@, *delta, direction),
    {
        let mut overlay = EdgeOverlay::new();
        let mut at: usize = 0;
        assert(overlay@ =~= after_mutations(mutations@, direction, 0));
        while at < mutations.len()
            invariant
                at <= mutations@.len(),
                overlay@ == after_mutations(mutations@, direction, at as nat),
            decreases mutations@.len() - at,
        {
            let mutation: EdgeMutation = mutations[at];
            let edge: OverlayEdge = turned(
                OverlayEdge {
                    source: mutation.source,
                    target: mutation.target,
                    type_id: EdgeTypeId(mutation.type_id as u32),
                    schema_reversed: mutation.schema_reversed,
                    relationship_id: mutation.relationship_id,
                },
                direction,
            );
            match mutation.kind {
                MutationKind::Insert => overlay.insert(edge),
                MutationKind::Delete => overlay.delete(edge),
            }
            at = at + 1;
        }
        let ghost buffered = overlay@;
        let mut at: usize = 0;
        while at < delta.deleted.len()
            invariant
                at <= delta.deleted@.len(),
                overlay@ == after_deletes(buffered, delta.deleted@, direction, at as nat),
            decreases delta.deleted@.len() - at,
        {
            overlay.delete(turned(delta.deleted[at], direction));
            at = at + 1;
        }
        let ghost removed = overlay@;
        let mut at: usize = 0;
        while at < delta.inserted.len()
            invariant
                at <= delta.inserted@.len(),
                overlay@ == after_inserts(removed, delta.inserted@, direction, at as nat),
            decreases delta.inserted@.len() - at,
        {
            overlay.insert(turned(delta.inserted[at], direction));
            at = at + 1;
        }
        overlay
    }
}

/// An edge of a row as an overlay names it.
pub open spec fn row_edge(node: u32, edge: WeightedNeighbor) -> OverlayEdge {
    OverlayEdge {
        source: node,
        target: edge.target,
        type_id: edge.type_id,
        schema_reversed: edge.schema_reversed,
        relationship_id: edge.relationship_id,
    }
}

/// Whether some removal removes an edge.
pub open spec fn erased_by_any(deletes: Seq<OverlayEdge>, edge: OverlayEdge) -> bool {
    exists|i: int| 0 <= i < deletes.len() && erases(#[trigger] deletes[i], edge)
}

/// The stored edges of a node that no removal removes.
pub open spec fn kept_row(
    row: Seq<WeightedNeighbor>,
    node: u32,
    deletes: Seq<OverlayEdge>,
) -> Seq<WeightedNeighbor>
    decreases row.len(),
{
    if row.len() == 0 {
        Seq::empty()
    } else if erased_by_any(deletes, row_edge(node, row.last())) {
        kept_row(row.drop_last(), node, deletes)
    } else {
        kept_row(row.drop_last(), node, deletes).push(row.last())
    }
}

/// The added edges of a node.
pub open spec fn added_row(inserts: Seq<OverlayEdge>, node: u32) -> Seq<WeightedNeighbor>
    decreases inserts.len(),
{
    if inserts.len() == 0 {
        Seq::empty()
    } else if inserts.last().source == node {
        added_row(inserts.drop_last(), node).push(added_edge(inserts.last()))
    } else {
        added_row(inserts.drop_last(), node)
    }
}

/// An added edge as a row holds it. Additions carry no weight of their own.
pub open spec fn added_edge(edge: OverlayEdge) -> WeightedNeighbor {
    WeightedNeighbor {
        target: edge.target,
        type_id: edge.type_id,
        schema_reversed: edge.schema_reversed,
        relationship_id: edge.relationship_id,
        weight: 1,
    }
}

/// The edges of a node under an overlay: stored ones first, then added ones.
pub open spec fn overlaid_row(
    row: Seq<WeightedNeighbor>,
    node: u32,
    overlay: OverlayView,
) -> Seq<WeightedNeighbor> {
    kept_row(row, node, overlay.deletes) + added_row(overlay.inserts, node)
}

/// A stored graph under an overlay.
pub struct OverlayNeighbors<'a> {
    pub base: &'a EdgeStore,
    pub overlay: &'a EdgeOverlay,
}

impl<'a> OverlayNeighbors<'a> {
    /// A stored graph under an overlay.
    pub fn new(base: &'a EdgeStore, overlay: &'a EdgeOverlay) -> (neighbors: Self)
        ensures
            neighbors.base == base,
            neighbors.overlay == overlay,
    {
        OverlayNeighbors { base, overlay }
    }

    /// Whether some removal removes an edge of a node.
    fn removes(&self, node: u32, edge: &WeightedNeighbor) -> (removed: bool)
        ensures
            removed == erased_by_any(self.overlay@.deletes, row_edge(node, *edge)),
    {
        let named = OverlayEdge {
            source: node,
            target: edge.target,
            type_id: edge.type_id,
            schema_reversed: edge.schema_reversed,
            relationship_id: edge.relationship_id,
        };
        let mut at: usize = 0;
        while at < self.overlay.deletes.len()
            invariant
                at <= self.overlay.deletes@.len(),
                named == row_edge(node, *edge),
                forall|i: int| 0 <= i < at ==> !erases(#[trigger] self.overlay.deletes@[i], named),
            decreases self.overlay.deletes@.len() - at,
        {
            if is_erased(&self.overlay.deletes[at], &named) {
                assert(erases(self.overlay.deletes@[at as int], named));
                return true;
            }
            at = at + 1;
        }
        false
    }
}

impl<'a> WeightedNeighborSource for OverlayNeighbors<'a> {
    open spec fn weighted_adjacency(&self, node: u32) -> Seq<WeightedNeighbor> {
        overlaid_row(self.base.row(node), node, self.overlay@)
    }

    open spec fn weighted(&self) -> bool {
        self.base.is_weighted()
    }

    fn has_weighted_edges(&self) -> (weighted: bool) {
        self.base.has_weights()
    }

    fn weighted_neighbors(&self, node: u32) -> (row: Vec<WeightedNeighbor>) {
        let stored: Vec<WeightedNeighbor> = self.base.weighted_neighbors(node);
        let mut row: Vec<WeightedNeighbor> = Vec::new();
        let mut at: usize = 0;
        assert(stored@.take(0) =~= Seq::<WeightedNeighbor>::empty());
        while at < stored.len()
            invariant
                at <= stored@.len(),
                row@ == kept_row(stored@.take(at as int), node, self.overlay@.deletes),
            decreases stored@.len() - at,
        {
            assert(stored@.take(at + 1).drop_last() =~= stored@.take(at as int));
            let edge: WeightedNeighbor = stored[at];
            if !self.removes(node, &edge) {
                row.push(edge);
            }
            at = at + 1;
        }
        assert(stored@.take(at as int) =~= stored@);
        let ghost kept = row@;
        let inserts: &Vec<OverlayEdge> = &self.overlay.inserts;
        let mut at: usize = 0;
        proof {
            assert(inserts@.take(0) =~= Seq::<OverlayEdge>::empty());
            assert(row@ =~= kept + added_row(inserts@.take(0), node));
        }
        while at < inserts.len()
            invariant
                at <= inserts@.len(),
                row@ == kept + added_row(inserts@.take(at as int), node),
            decreases inserts@.len() - at,
        {
            assert(inserts@.take(at + 1).drop_last() =~= inserts@.take(at as int));
            let edge: OverlayEdge = inserts[at];
            if edge.source == node {
                row.push(
                    WeightedNeighbor {
                        target: edge.target,
                        type_id: edge.type_id,
                        schema_reversed: edge.schema_reversed,
                        relationship_id: edge.relationship_id,
                        weight: 1,
                    },
                );
            }
            at = at + 1;
            assert(row@ =~= kept + added_row(inserts@.take(at as int), node));
        }
        assert(inserts@.take(at as int) =~= inserts@);
        row
    }

    fn fill_weighted_neighbors(
        &self,
        node: u32,
        cursor: &mut OwnedNeighborCursor,
        limit: usize,
        page: &mut Vec<WeightedNeighbor>,
    ) -> (exhausted: bool) {
        let row: Vec<WeightedNeighbor> = self.weighted_neighbors(node);
        let ghost start = cursor.position as int;
        let ghost first = page@;
        let mut taken: usize = 0;
        proof {
            assert(page@ =~= first + row@.subrange(start, start));
        }
        while taken < limit && cursor.position < row.len()
            invariant
                row@ == self.weighted_adjacency(node),
                taken <= limit,
                0 <= start,
                start + taken == cursor.position <= row@.len(),
                page@ == first + row@.subrange(start, cursor.position as int),
            decreases limit - taken,
        {
            page.push(row[cursor.position]);
            cursor.position = cursor.position + 1;
            taken = taken + 1;
            proof {
                assert(page@ =~= first + row@.subrange(start, cursor.position as int));
            }
        }
        cursor.position == row.len()
    }
}

impl<'a> NeighborSource for OverlayNeighbors<'a> {
    open spec fn adjacency(&self, node: u32) -> Seq<Neighbor> {
        strip_weights(self.weighted_adjacency(node))
    }

    fn neighbors(&self, node: u32) -> (row: Vec<Neighbor>) {
        let weighted: Vec<WeightedNeighbor> = self.weighted_neighbors(node);
        let mut row: Vec<Neighbor> = Vec::new();
        let mut at: usize = 0;
        while at < weighted.len()
            invariant
                at <= weighted@.len(),
                row@ == strip_weights(weighted@).take(at as int),
            decreases weighted@.len() - at,
        {
            row.push(weighted[at].to_neighbor());
            proof {
                assert(row@ =~= strip_weights(weighted@).take(at + 1));
            }
            at = at + 1;
        }
        assert(strip_weights(weighted@).take(at as int) =~= strip_weights(weighted@));
        row
    }

    fn fill_neighbors(
        &self,
        node: u32,
        cursor: &mut OwnedNeighborCursor,
        limit: usize,
        page: &mut Vec<Neighbor>,
    ) -> (exhausted: bool) {
        let row: Vec<Neighbor> = self.neighbors(node);
        let ghost start = cursor.position as int;
        let ghost first = page@;
        let mut taken: usize = 0;
        proof {
            assert(page@ =~= first + row@.subrange(start, start));
        }
        while taken < limit && cursor.position < row.len()
            invariant
                row@ == self.adjacency(node),
                taken <= limit,
                0 <= start,
                start + taken == cursor.position <= row@.len(),
                page@ == first + row@.subrange(start, cursor.position as int),
            decreases limit - taken,
        {
            page.push(row[cursor.position]);
            cursor.position = cursor.position + 1;
            taken = taken + 1;
            proof {
                assert(page@ =~= first + row@.subrange(start, cursor.position as int));
            }
        }
        cursor.position == row.len()
    }
}

/// An added edge is in its node's row.
proof fn lemma_added_in_row(inserts: Seq<OverlayEdge>, edge: OverlayEdge)
    requires
        inserts.contains(edge),
    ensures
        added_row(inserts, edge.source).contains(added_edge(edge)),
    decreases inserts.len(),
{
    let row = added_row(inserts, edge.source);
    if inserts.last() == edge {
        assert(row[row.len() - 1] == added_edge(edge));
    } else {
        let i = choose|i: int| 0 <= i < inserts.len() && inserts[i] == edge;
        assert(inserts.drop_last()[i] == edge);
        lemma_added_in_row(inserts.drop_last(), edge);
        let before = added_row(inserts.drop_last(), edge.source);
        let j = choose|j: int| 0 <= j < before.len() && before[j] == added_edge(edge);
        assert(row[j] == added_edge(edge));
    }
}

/// Every edge of an added row comes from an addition.
proof fn lemma_added_from(inserts: Seq<OverlayEdge>, node: u32, at: int)
    requires
        0 <= at < added_row(inserts, node).len(),
    ensures
        exists|i: int|
            0 <= i < inserts.len() && (#[trigger] inserts[i]).source == node && added_edge(
                inserts[i],
            ) == added_row(inserts, node)[at],
    decreases inserts.len(),
{
    let rest = added_row(inserts.drop_last(), node);
    if at < rest.len() {
        lemma_added_from(inserts.drop_last(), node, at);
        let i = choose|i: int|
            0 <= i < inserts.drop_last().len() && (#[trigger] inserts.drop_last()[i]).source == node
                && added_edge(inserts.drop_last()[i]) == rest[at];
        assert(inserts[i] == inserts.drop_last()[i]);
    } else {
        assert(inserts[inserts.len() - 1].source == node);
    }
}

/// Every kept edge is a stored edge that no removal removes.
proof fn lemma_kept_from(
    row: Seq<WeightedNeighbor>,
    node: u32,
    deletes: Seq<OverlayEdge>,
    at: int,
)
    requires
        0 <= at < kept_row(row, node, deletes).len(),
    ensures
        row.contains(kept_row(row, node, deletes)[at]),
        !erased_by_any(deletes, row_edge(node, kept_row(row, node, deletes)[at])),
    decreases row.len(),
{
    let rest = kept_row(row.drop_last(), node, deletes);
    if at < rest.len() {
        lemma_kept_from(row.drop_last(), node, deletes, at);
        let i = choose|i: int| 0 <= i < row.drop_last().len() && row.drop_last()[i] == rest[at];
        assert(row[i] == rest[at]);
    } else {
        assert(row[row.len() - 1] == kept_row(row, node, deletes)[at]);
    }
}

/// What a removal leaves is not removed by it.
proof fn lemma_unerased(edges: Seq<OverlayEdge>, removal: OverlayEdge, at: int)
    requires
        0 <= at < unerased(edges, removal).len(),
    ensures
        !erases(removal, unerased(edges, removal)[at]),
    decreases edges.len(),
{
    let rest = unerased(edges.drop_last(), removal);
    if at < rest.len() {
        lemma_unerased(edges.drop_last(), removal, at);
    }
}

/// An edge that was added last can be followed.
pub proof fn law_last_insert_shows(
    row: Seq<WeightedNeighbor>,
    overlay: OverlayView,
    edge: OverlayEdge,
)
    ensures
        overlaid_row(row, edge.source, after_insert(overlay, edge)).contains(added_edge(edge)),
{
    let after = after_insert(overlay, edge);
    assert(after.inserts.contains(edge)) by {
        if !overlay.inserts.contains(edge) {
            assert(after.inserts[overlay.inserts.len() as int] == edge);
        }
    }
    lemma_added_in_row(after.inserts, edge);
    let kept = kept_row(row, edge.source, after.deletes);
    let added = added_row(after.inserts, edge.source);
    let j = choose|j: int| 0 <= j < added.len() && added[j] == added_edge(edge);
    assert((kept + added)[kept.len() + j] == added_edge(edge));
}

/// What was removed last cannot be followed.
pub proof fn law_last_delete_hides(
    row: Seq<WeightedNeighbor>,
    overlay: OverlayView,
    removal: OverlayEdge,
)
    ensures
        forall|i: int|
            0 <= i < overlaid_row(
                row,
                removal.source,
                after_delete(overlay, removal),
            ).len() ==> !erases(
                removal,
                row_edge(
                    removal.source,
                    #[trigger] overlaid_row(
                        row,
                        removal.source,
                        after_delete(overlay, removal),
                    )[i],
                ),
            ),
{
    let after = after_delete(overlay, removal);
    let node = removal.source;
    let kept = kept_row(row, node, after.deletes);
    let added = added_row(after.inserts, node);
    let whole = overlaid_row(row, node, after);
    assert(after.deletes.contains(removal)) by {
        if !overlay.deletes.contains(removal) {
            assert(after.deletes[overlay.deletes.len() as int] == removal);
        }
    }
    let d = choose|d: int| 0 <= d < after.deletes.len() && after.deletes[d] == removal;
    assert forall|i: int| 0 <= i < whole.len() implies !erases(
        removal,
        row_edge(node, #[trigger] whole[i]),
    ) by {
        if i < kept.len() {
            assert(whole[i] == kept[i]);
            lemma_kept_from(row, node, after.deletes, i);
            if erases(removal, row_edge(node, kept[i])) {
                assert(erases(after.deletes[d], row_edge(node, kept[i])));
            }
        } else {
            assert(whole[i] == added[i - kept.len()]);
            lemma_added_from(after.inserts, node, i - kept.len());
            let k = choose|k: int|
                0 <= k < after.inserts.len() && (#[trigger] after.inserts[k]).source == node
                    && added_edge(after.inserts[k]) == added[i - kept.len()];
            lemma_unerased(overlay.inserts, removal, k);
            assert(row_edge(node, whole[i]) == after.inserts[k]);
        }
    }
}

/// An overlay without changes changes nothing.
pub proof fn law_empty_overlay_is_base(row: Seq<WeightedNeighbor>, node: u32)
    ensures
        overlaid_row(
            row,
            node,
            OverlayView { inserts: Seq::empty(), deletes: Seq::empty() },
        ) == row,
    decreases row.len(),
{
    if row.len() > 0 {
        law_empty_overlay_is_base(row.drop_last(), node);
        let none = OverlayView { inserts: Seq::empty(), deletes: Seq::empty() };
        assert(!erased_by_any(none.deletes, row_edge(node, row.last())));
        assert(kept_row(row.drop_last(), node, none.deletes) =~= overlaid_row(
            row.drop_last(),
            node,
            none,
        ));
    }
    assert(overlaid_row(
        row,
        node,
        OverlayView { inserts: Seq::empty(), deletes: Seq::empty() },
    ) =~= row);
}

/// Whether the edges of an overlay lead to nodes.
pub open spec fn overlay_bounded(overlay: OverlayView, nodes: nat) -> bool {
    forall|i: int|
        0 <= i < overlay.inserts.len() ==> (#[trigger] overlay.inserts[i]).source < nodes
            && overlay.inserts[i].target < nodes
}

/// Edges under an overlay lead to nodes if stored and added ones do.
pub proof fn lemma_overlaid_bounded(
    row: Seq<WeightedNeighbor>,
    node: u32,
    overlay: OverlayView,
    nodes: nat,
)
    requires
        overlay_bounded(overlay, nodes),
        forall|i: int| 0 <= i < row.len() ==> (#[trigger] row[i]).target < nodes,
    ensures
        forall|i: int|
            0 <= i < overlaid_row(row, node, overlay).len() ==> (#[trigger] overlaid_row(
                row,
                node,
                overlay,
            )[i]).target < nodes,
{
    let kept = kept_row(row, node, overlay.deletes);
    let added = added_row(overlay.inserts, node);
    let whole = overlaid_row(row, node, overlay);
    assert forall|i: int| 0 <= i < whole.len() implies (#[trigger] whole[i]).target < nodes by {
        if i < kept.len() {
            assert(whole[i] == kept[i]);
            lemma_kept_from(row, node, overlay.deletes, i);
            let k = choose|k: int| 0 <= k < row.len() && row[k] == kept[i];
            assert(row[k].target < nodes);
        } else {
            lemma_added_from(overlay.inserts, node, i - kept.len());
            let k = choose|k: int|
                0 <= k < overlay.inserts.len() && (#[trigger] overlay.inserts[k]).source == node
                    && added_edge(overlay.inserts[k]) == added[i - kept.len()];
            assert(overlay.inserts[k].target < nodes);
        }
    }
}

/// Additions stay bounded by removing edges.
proof fn lemma_unerased_from(edges: Seq<OverlayEdge>, removal: OverlayEdge, at: int)
    requires
        0 <= at < unerased(edges, removal).len(),
    ensures
        edges.contains(unerased(edges, removal)[at]),
    decreases edges.len(),
{
    let rest = unerased(edges.drop_last(), removal);
    if at < rest.len() {
        lemma_unerased_from(edges.drop_last(), removal, at);
        let i = choose|i: int| 0 <= i < edges.drop_last().len() && edges.drop_last()[i] == rest[at];
        assert(edges[i] == rest[at]);
    } else {
        assert(edges[edges.len() - 1] == unerased(edges, removal)[at]);
    }
}

proof fn lemma_insert_bounded(overlay: OverlayView, edge: OverlayEdge, nodes: nat)
    requires
        overlay_bounded(overlay, nodes),
        edge.source < nodes,
        edge.target < nodes,
    ensures
        overlay_bounded(after_insert(overlay, edge), nodes),
{
}

proof fn lemma_delete_bounded(overlay: OverlayView, edge: OverlayEdge, nodes: nat)
    requires
        overlay_bounded(overlay, nodes),
    ensures
        overlay_bounded(after_delete(overlay, edge), nodes),
{
    let after = after_delete(overlay, edge);
    assert forall|i: int| 0 <= i < after.inserts.len() implies (#[trigger] after.inserts[i]).source
        < nodes && after.inserts[i].target < nodes by {
        lemma_unerased_from(overlay.inserts, edge, i);
        let k = choose|k: int|
            0 <= k < overlay.inserts.len() && overlay.inserts[k] == after.inserts[i];
        assert(overlay.inserts[k].source < nodes);
    }
}

/// Whether pending changes speak of nodes.
pub open spec fn changes_bounded(
    mutations: Seq<EdgeMutation>,
    delta: TxDelta,
    nodes: nat,
) -> bool {
    &&& forall|i: int|
        0 <= i < mutations.len() ==> (#[trigger] mutations[i]).source < nodes
            && mutations[i].target < nodes
    &&& forall|i: int|
        0 <= i < delta.inserted@.len() ==> (#[trigger] delta.inserted@[i]).source < nodes
            && delta.inserted@[i].target < nodes
}

/// The overlay of changes that speak of nodes leads to nodes.
pub proof fn lemma_overlay_bounded(
    mutations: Seq<EdgeMutation>,
    delta: TxDelta,
    direction: TraversalDirection,
    nodes: nat,
)
    requires
        changes_bounded(mutations, delta, nodes),
    ensures
        overlay_bounded(overlay_of(mutations, delta, direction), nodes),
{
    lemma_mutations_bounded(mutations, direction, mutations.len(), nodes);
    let buffered = after_mutations(mutations, direction, mutations.len());
    lemma_deletes_bounded(buffered, delta.deleted@, direction, delta.deleted@.len(), nodes);
    let removed = after_deletes(buffered, delta.deleted@, direction, delta.deleted@.len());
    lemma_inserts_bounded(removed, delta.inserted@, direction, delta.inserted@.len(), nodes);
}

proof fn lemma_mutations_bounded(
    mutations: Seq<EdgeMutation>,
    direction: TraversalDirection,
    count: nat,
    nodes: nat,
)
    requires
        count <= mutations.len(),
        forall|i: int|
            0 <= i < mutations.len() ==> (#[trigger] mutations[i]).source < nodes
                && mutations[i].target < nodes,
    ensures
        overlay_bounded(after_mutations(mutations, direction, count), nodes),
    decreases count,
{
    if count > 0 {
        lemma_mutations_bounded(mutations, direction, (count - 1) as nat, nodes);
        let before = after_mutations(mutations, direction, (count - 1) as nat);
        let edge = facing(mutation_edge(mutations[count - 1]), direction);
        match mutations[count - 1].kind {
            MutationKind::Insert => lemma_insert_bounded(before, edge, nodes),
            MutationKind::Delete => lemma_delete_bounded(before, edge, nodes),
        }
    }
}

proof fn lemma_deletes_bounded(
    overlay: OverlayView,
    edges: Seq<OverlayEdge>,
    direction: TraversalDirection,
    count: nat,
    nodes: nat,
)
    requires
        overlay_bounded(overlay, nodes),
    ensures
        overlay_bounded(after_deletes(overlay, edges, direction, count), nodes),
    decreases count,
{
    if count > 0 {
        lemma_deletes_bounded(overlay, edges, direction, (count - 1) as nat, nodes);
        lemma_delete_bounded(
            after_deletes(overlay, edges, direction, (count - 1) as nat),
            facing(edges[count - 1], direction),
            nodes,
        );
    }
}

proof fn lemma_inserts_bounded(
    overlay: OverlayView,
    edges: Seq<OverlayEdge>,
    direction: TraversalDirection,
    count: nat,
    nodes: nat,
)
    requires
        overlay_bounded(overlay, nodes),
        count <= edges.len(),
        forall|i: int|
            0 <= i < edges.len() ==> (#[trigger] edges[i]).source < nodes && edges[i].target
                < nodes,
    ensures
        overlay_bounded(after_inserts(overlay, edges, direction, count), nodes),
    decreases count,
{
    if count > 0 {
        lemma_inserts_bounded(overlay, edges, direction, (count - 1) as nat, nodes);
        lemma_insert_bounded(
            after_inserts(overlay, edges, direction, (count - 1) as nat),
            facing(edges[count - 1], direction),
            nodes,
        );
    }
}

} // verus!
