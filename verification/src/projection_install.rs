//! Durable changes of nodes: segments that are applied over a loaded graph.
use vstd::prelude::*;
use vstd::string::StringExecFns;
use vstd::utf8::encode_utf8;

use crate::active_bits::bit_capacity_limit;
use crate::errors::{corrupt, internal, ErrorView, GraphError, GraphResult};
use crate::filter_value::PersistedFilterValue;
use crate::membership::{with_member, without_member, TableMembership};
use crate::node_store::{NodeStore, NodeView};
use crate::overlay::OverlayEdge;
use crate::resolution::ResolutionEntry;
use crate::scan_codec::{hash_pk, key_hash};
use crate::text::{decimal, decimal_text, same_text};

verus! {

/// A node slot of a segment.
#[derive(Debug)]
pub struct SegmentResolution {
    pub table_oid: u32,
    pub pk_hash: u64,
    /// The key; segments of the oldest format have only its hash.
    pub primary_key: Option<String>,
    pub node_idx: u32,
    pub tombstone: bool,
}

/// Whether a node is live once a segment has been applied.
#[derive(Debug, Clone, Copy)]
pub struct SegmentNodeState {
    pub node_idx: u32,
    pub active: bool,
}

/// The weight of an edge in a segment.
#[derive(Debug, Clone, Copy)]
pub struct SegmentEdgeWeight {
    pub edge: OverlayEdge,
    pub weight: u32,
}

/// A tenant of a node in a segment.
#[derive(Debug)]
pub struct SegmentTenant {
    pub node_idx: u32,
    pub tenant_hash: u64,
    /// The tenant's name; segments of the oldest format have only its hash.
    pub tenant: Option<String>,
    pub tombstone: bool,
}

/// A filter value of a node in a segment.
#[derive(Debug)]
pub struct SegmentFilter {
    pub column_id: u64,
    pub node_idx: u32,
    pub value: PersistedFilterValue,
    pub tombstone: bool,
}

/// Durable changes, in the order in which they are applied.
#[derive(Debug)]
pub struct ProjectionSegment {
    pub resolutions: Vec<SegmentResolution>,
    pub node_states: Vec<SegmentNodeState>,
    pub edge_inserts: Vec<OverlayEdge>,
    pub edge_deletes: Vec<OverlayEdge>,
    pub edge_weights: Vec<SegmentEdgeWeight>,
    pub tenants: Vec<SegmentTenant>,
    pub filters: Vec<SegmentFilter>,
}

impl ProjectionSegment {
    /// No changes.
    pub fn empty() -> (segment: Self)
        ensures
            segment.resolutions@.len() == 0,
            segment.node_states@.len() == 0,
            segment.edge_inserts@.len() == 0,
            segment.edge_deletes@.len() == 0,
            segment.edge_weights@.len() == 0,
            segment.tenants@.len() == 0,
            segment.filters@.len() == 0,
    {
        ProjectionSegment {
            resolutions: Vec::new(),
            node_states: Vec::new(),
            edge_inserts: Vec::new(),
            edge_deletes: Vec::new(),
            edge_weights: Vec::new(),
            tenants: Vec::new(),
            filters: Vec::new(),
        }
    }
}

/// Node slots, and the entries that find the nodes of segments.
#[verifier::ext_equal]
pub struct Installed {
    pub nodes: Seq<NodeView>,
    pub entries: Seq<ResolutionEntry>,
}

/// The key that a segment's slot names.
pub open spec fn exact_key(nodes: Seq<NodeView>, slot: SegmentResolution) -> Option<Seq<char>> {
    match slot.primary_key {
        Some(key) => Some(key@),
        None => if slot.node_idx < nodes.len() && nodes[slot.node_idx as int].table_oid
            == slot.table_oid && key_hash(encode_utf8(nodes[slot.node_idx as int].key))
            == slot.pk_hash {
            Some(nodes[slot.node_idx as int].key)
        } else {
            None
        },
    }
}

/// The nodes with a slot allocated, if the slot is the next one or names the
/// node that is there.
pub open spec fn allocated(
    nodes: Seq<NodeView>,
    slot: SegmentResolution,
    key: Seq<char>,
) -> Option<Seq<NodeView>> {
    if slot.node_idx == nodes.len() {
        if nodes.len() < u32::MAX && nodes.len() < bit_capacity_limit() {
            Some(nodes.push(NodeView { active: true, table_oid: slot.table_oid, key }))
        } else {
            None
        }
    } else if slot.node_idx < nodes.len() && nodes[slot.node_idx as int].table_oid
        == slot.table_oid && nodes[slot.node_idx as int].key == key {
        Some(nodes)
    } else {
        None
    }
}

/// What a slot of a segment does. A tombstone makes the node inactive; any
/// other slot must be that of a live node.
pub open spec fn after_slot(state: Installed, slot: SegmentResolution) -> Option<Installed> {
    match exact_key(state.nodes, slot) {
        None => None,
        Some(key) => match allocated(state.nodes, slot, key) {
            None => None,
            Some(nodes) => {
                let at = slot.node_idx as int;
                let entries = state.entries.push(
                    ResolutionEntry {
                        table_oid: slot.table_oid,
                        pk_hash: key_hash(encode_utf8(key)),
                        node_idx: slot.node_idx,
                    },
                );
                if slot.tombstone {
                    Some(
                        Installed {
                            nodes: nodes.update(at, NodeView { active: false, ..nodes[at] }),
                            entries,
                        },
                    )
                } else if nodes[at].active {
                    Some(Installed { nodes, entries })
                } else {
                    None
                }
            },
        },
    }
}

/// What the first slots of a segment do.
pub open spec fn after_slots(
    state: Installed,
    slots: Seq<SegmentResolution>,
    count: nat,
) -> Option<Installed>
    decreases count,
{
    if count == 0 {
        Some(state)
    } else {
        match after_slots(state, slots, (count - 1) as nat) {
            Some(before) => after_slot(before, slots[count - 1]),
            None => None,
        }
    }
}

/// Whether nodes are as a segment says.
pub open spec fn states_agree(nodes: Seq<NodeView>, states: Seq<SegmentNodeState>) -> bool {
    forall|i: int|
        0 <= i < states.len() ==> (#[trigger] states[i]).node_idx < nodes.len()
            && nodes[states[i].node_idx as int].active == states[i].active
}

/// What the slots of the first segments do, if they agree with what the
/// segments say of nodes.
pub open spec fn after_segments(
    state: Installed,
    segments: Seq<ProjectionSegment>,
    count: nat,
) -> Option<Installed>
    decreases count,
{
    if count == 0 {
        Some(state)
    } else {
        match after_segments(state, segments, (count - 1) as nat) {
            Some(before) => {
                let slots = segments[count - 1].resolutions@;
                match after_slots(before, slots, slots.len()) {
                    Some(after) => if states_agree(
                        after.nodes,
                        segments[count - 1].node_states@,
                    ) {
                        Some(after)
                    } else {
                        None
                    },
                    None => None,
                }
            },
            None => None,
        }
    }
}

/// The tables' nodes after the first slots of a segment.
pub open spec fn tables_after_slots(
    tables: Map<u32, Set<u32>>,
    slots: Seq<SegmentResolution>,
    count: nat,
) -> Map<u32, Set<u32>>
    decreases count,
{
    if count == 0 {
        tables
    } else {
        let before = tables_after_slots(tables, slots, (count - 1) as nat);
        let slot = slots[count - 1];
        if slot.tombstone {
            without_member(before, slot.table_oid, slot.node_idx)
        } else {
            with_member(before, slot.table_oid, slot.node_idx)
        }
    }
}

/// The tables' nodes after the first segments.
pub open spec fn tables_after_segments(
    tables: Map<u32, Set<u32>>,
    segments: Seq<ProjectionSegment>,
    count: nat,
) -> Map<u32, Set<u32>>
    decreases count,
{
    if count == 0 {
        tables
    } else {
        let slots = segments[count - 1].resolutions@;
        tables_after_slots(
            tables_after_segments(tables, segments, (count - 1) as nat),
            slots,
            slots.len(),
        )
    }
}

/// The error for a slot that cannot be applied to nodes.
pub open spec fn slot_error(nodes: Seq<NodeView>, slot: SegmentResolution) -> ErrorView {
    match exact_key(nodes, slot) {
        None => ErrorView::CorruptFile(
            if slot.node_idx >= nodes.len() {
                "version 5 projection resolution references a missing base node"@
            } else {
                "version 5 projection resolution does not match its base node"@
            },
        ),
        Some(key) => if slot.node_idx == nodes.len() {
            ErrorView::Internal("node count exceeds u32 index space"@)
        } else if slot.node_idx > nodes.len() {
            ErrorView::CorruptFile(
                "projection node allocation contains an index gap: slot "@ + decimal(
                    slot.node_idx as nat,
                ) + " ("@ + key + ", table "@ + decimal(slot.table_oid as nat)
                    + ") follows node count "@ + decimal(nodes.len()),
            )
        } else if allocated(nodes, slot, key) is None {
            ErrorView::CorruptFile("projection node slot changes an existing identity"@)
        } else {
            ErrorView::CorruptFile("projection cannot reactivate an inactive node slot"@)
        },
    }
}

/// The error for what a segment says of a node and is not so.
pub open spec fn state_error(nodes: Seq<NodeView>, state: SegmentNodeState) -> ErrorView {
    ErrorView::CorruptFile(
        if state.node_idx >= nodes.len() {
            "projection node state references a missing node"@
        } else {
            "projection node state disagrees with exact identity state"@
        },
    )
}

/// Whether a slot is the first that cannot be applied.
pub open spec fn slot_fails(
    state: Installed,
    segments: Seq<ProjectionSegment>,
    at: int,
    slot: int,
    error: ErrorView,
) -> bool {
    let slots = segments[at].resolutions@;
    let begun = after_segments(state, segments, at as nat);
    let before = after_slots(begun->Some_0, slots, slot as nat);
    &&& 0 <= at < segments.len()
    &&& 0 <= slot < slots.len()
    &&& begun is Some
    &&& before is Some
    &&& after_slot(before->Some_0, slots[slot]) is None
    &&& error == slot_error(before->Some_0.nodes, slots[slot])
}

/// Whether what a segment says of a node is the first that is not so.
pub open spec fn state_fails(
    state: Installed,
    segments: Seq<ProjectionSegment>,
    at: int,
    place: int,
    error: ErrorView,
) -> bool {
    let (slots, states) = (segments[at].resolutions@, segments[at].node_states@);
    let begun = after_segments(state, segments, at as nat);
    let after = after_slots(begun->Some_0, slots, slots.len());
    &&& 0 <= at < segments.len()
    &&& 0 <= place < states.len()
    &&& begun is Some
    &&& after is Some
    &&& states_agree(after->Some_0.nodes, states.take(place))
    &&& !states_agree(after->Some_0.nodes, states.take(place + 1))
    &&& error == state_error(after->Some_0.nodes, states[place])
}

/// Whether an error is that of the first slot or node state that fails.
pub open spec fn slots_error(
    state: Installed,
    segments: Seq<ProjectionSegment>,
    error: ErrorView,
) -> bool {
    ||| exists|at: int, slot: int| #[trigger] slot_fails(state, segments, at, slot, error)
    ||| exists|at: int, place: int| #[trigger] state_fails(state, segments, at, place, error)
}

/// The key that a segment's slot names.
fn slot_key(store: &NodeStore, slot: &SegmentResolution) -> (result: GraphResult<String>)
    requires
        store.addressable(),
    ensures
        match result {
            Ok(key) => exact_key(store.nodes(), *slot) == Some(key@),
            Err(error) => exact_key(store.nodes(), *slot) is None && error@
                == ErrorView::CorruptFile(
                if slot.node_idx >= store.nodes().len() {
                    "version 5 projection resolution references a missing base node"@
                } else {
                    "version 5 projection resolution does not match its base node"@
                },
            ),
        },
{
    if let Some(key) = &slot.primary_key {
        return Ok(key.as_str().to_owned());
    }
    let key: &str = match store.primary_key(slot.node_idx) {
        Some(key) => key,
        None => return Err(
            corrupt("version 5 projection resolution references a missing base node"),
        ),
    };
    let same_table: bool = match store.table_oid(slot.node_idx) {
        Some(table_oid) => table_oid == slot.table_oid,
        None => false,
    };
    if !same_table || hash_pk(key) != slot.pk_hash {
        return Err(corrupt("version 5 projection resolution does not match its base node"));
    }
    Ok(key.to_owned())
}

/// Applies a slot of a segment.
fn apply_slot(
    store: &mut NodeStore,
    entries: &mut Vec<ResolutionEntry>,
    slot: &SegmentResolution,
) -> (result: GraphResult<()>)
    requires
        old(store).addressable(),
        !old(store).mapped(),
    ensures
        final(store).addressable(),
        !final(store).mapped(),
        ({
            let before = Installed { nodes: old(store).nodes(), entries: old(entries)@ };
            match result {
                Ok(_) => after_slot(before, *slot) == Some(
                    Installed { nodes: final(store).nodes(), entries: final(entries)@ },
                ),
                Err(error) => after_slot(before, *slot) is None && error@ == slot_error(
                    old(store).nodes(),
                    *slot,
                ),
            }
        }),
{
    let key: String = match slot_key(store, slot) {
        Ok(key) => key,
        Err(error) => return Err(error),
    };
    let ghost name = key@;
    let hash: u64 = hash_pk(key.as_str());
    let count: u32 = store.node_count();
    if slot.node_idx == count {
        if count == u32::MAX || count as usize >= (usize::MAX / 8) {
            return Err(internal("node count exceeds u32 index space"));
        }
        let _index: u32 = store.add_node(slot.table_oid, key);
    } else if slot.node_idx > count {
        return Err(
            GraphError::CorruptFile {
                reason: "projection node allocation contains an index gap: slot ".to_owned().concat(
                    decimal_text(slot.node_idx as u64).as_str(),
                ).concat(" (").concat(key.as_str()).concat(", table ").concat(
                    decimal_text(slot.table_oid as u64).as_str(),
                ).concat(") follows node count ").concat(decimal_text(count as u64).as_str()),
            },
        );
    } else {
        let same_table: bool = match store.table_oid(slot.node_idx) {
            Some(table_oid) => table_oid == slot.table_oid,
            None => false,
        };
        let same_key: bool = match store.primary_key(slot.node_idx) {
            Some(other) => same_text(other, key.as_str()),
            None => false,
        };
        if !same_table || !same_key {
            return Err(corrupt("projection node slot changes an existing identity"));
        }
    }
    entries.push(
        ResolutionEntry { table_oid: slot.table_oid, pk_hash: hash, node_idx: slot.node_idx },
    );
    if slot.tombstone {
        store.deactivate(slot.node_idx);
    } else if !store.is_active(slot.node_idx) {
        return Err(corrupt("projection cannot reactivate an inactive node slot"));
    }
    Ok(())
}

/// Applies the slots of segments to nodes, and checks what the segments say of
/// nodes. On failure the nodes are of no use.
pub fn apply_slots(store: &mut NodeStore, segments: &Vec<ProjectionSegment>) -> (result: GraphResult<
    Vec<ResolutionEntry>,
>)
    requires
        old(store).addressable(),
        !old(store).mapped(),
    ensures
        final(store).addressable(),
        !final(store).mapped(),
        ({
            let before = Installed { nodes: old(store).nodes(), entries: Seq::empty() };
            match result {
                Ok(entries) => after_segments(before, segments@, segments@.len()) == Some(
                    Installed { nodes: final(store).nodes(), entries: entries@ },
                ),
                Err(error) => after_segments(before, segments@, segments@.len()) is None
                    && slots_error(before, segments@, error@),
            }
        }),
{
    let mut entries: Vec<ResolutionEntry> = Vec::new();
    let ghost before = Installed { nodes: store.nodes(), entries: entries@ };
    let mut at: usize = 0;
    while at < segments.len()
        invariant
            at <= segments@.len(),
            store.addressable(),
            !store.mapped(),
            before == (Installed { nodes: old(store).nodes(), entries: Seq::empty() }),
            after_segments(before, segments@, at as nat) == Some(
                Installed { nodes: store.nodes(), entries: entries@ },
            ),
        decreases segments@.len() - at,
    {
        let segment: &ProjectionSegment = &segments[at];
        let ghost begun = Installed { nodes: store.nodes(), entries: entries@ };
        let mut slot: usize = 0;
        while slot < segment.resolutions.len()
            invariant
                at < segments@.len(),
                *segment == segments@[at as int],
                slot <= segment.resolutions@.len(),
                store.addressable(),
                !store.mapped(),
                before == (Installed { nodes: old(store).nodes(), entries: Seq::empty() }),
                after_segments(before, segments@, at as nat) == Some(begun),
                after_slots(begun, segment.resolutions@, slot as nat) == Some(
                    Installed { nodes: store.nodes(), entries: entries@ },
                ),
            decreases segment.resolutions@.len() - slot,
        {
            if let Err(error) = apply_slot(store, &mut entries, &segment.resolutions[slot]) {
                proof {
                    let slots = segment.resolutions@;
                    lemma_slots_fail(begun, slots, (slot + 1) as nat, slots.len());
                    lemma_segments_fail(before, segments@, (at + 1) as nat, segments@.len());
                    assert(slot_fails(before, segments@, at as int, slot as int, error@));
                }
                return Err(error);
            }
            slot = slot + 1;
        }
        let mut state: usize = 0;
        while state < segment.node_states.len()
            invariant
                at < segments@.len(),
                *segment == segments@[at as int],
                state <= segment.node_states@.len(),
                store.addressable(),
                !store.mapped(),
                before == (Installed { nodes: old(store).nodes(), entries: Seq::empty() }),
                after_segments(before, segments@, at as nat) == Some(begun),
                after_slots(begun, segment.resolutions@, segment.resolutions@.len()) == Some(
                    Installed { nodes: store.nodes(), entries: entries@ },
                ),
                forall|i: int|
                    0 <= i < state ==> (#[trigger] segment.node_states@[i]).node_idx
                        < store.nodes().len() && store.nodes()[segment.node_states@[i].node_idx as int].active
                        == segment.node_states@[i].active,
            decreases segment.node_states@.len() - state,
        {
            let named: SegmentNodeState = segment.node_states[state];
            if named.node_idx >= store.node_count() {
                proof {
                    assert(segment.node_states@[state as int].node_idx >= store.nodes().len());
                    lemma_segments_fail(before, segments@, (at + 1) as nat, segments@.len());
                    lemma_state_fails(store.nodes(), segment.node_states@, state as int);
                    assert(state_fails(
                        before,
                        segments@,
                        at as int,
                        state as int,
                        state_error(store.nodes(), named),
                    ));
                }
                return Err(corrupt("projection node state references a missing node"));
            }
            if named.active != store.is_active(named.node_idx) {
                proof {
                    assert(store.nodes()[segment.node_states@[state as int].node_idx as int].active
                        != segment.node_states@[state as int].active);
                    lemma_segments_fail(before, segments@, (at + 1) as nat, segments@.len());
                    lemma_state_fails(store.nodes(), segment.node_states@, state as int);
                    assert(state_fails(
                        before,
                        segments@,
                        at as int,
                        state as int,
                        state_error(store.nodes(), named),
                    ));
                }
                return Err(
                    corrupt("projection node state disagrees with exact identity state"),
                );
            }
            state = state + 1;
        }
        at = at + 1;
    }
    Ok(entries)
}

/// The first state that is not so.
proof fn lemma_state_fails(nodes: Seq<NodeView>, states: Seq<SegmentNodeState>, place: int)
    requires
        0 <= place < states.len(),
        forall|i: int|
            0 <= i < place ==> (#[trigger] states[i]).node_idx < nodes.len()
                && nodes[states[i].node_idx as int].active == states[i].active,
        states[place].node_idx >= nodes.len() || nodes[states[place].node_idx as int].active
            != states[place].active,
    ensures
        states_agree(nodes, states.take(place)),
        !states_agree(nodes, states.take(place + 1)),
{
    let some = states.take(place + 1);
    assert(some[place] == states[place]);
    assert forall|i: int| 0 <= i < place implies (#[trigger] states.take(place)[i]).node_idx
        < nodes.len() && nodes[states.take(place)[i].node_idx as int].active == states.take(
        place,
    )[i].active by {
        assert(states.take(place)[i] == states[i]);
    }
}

/// A segment whose first slots fail fails.
proof fn lemma_slots_fail(
    state: Installed,
    slots: Seq<SegmentResolution>,
    small: nat,
    large: nat,
)
    requires
        small <= large,
        after_slots(state, slots, small) is None,
    ensures
        after_slots(state, slots, large) is None,
    decreases large,
{
    if small < large {
        lemma_slots_fail(state, slots, small, (large - 1) as nat);
    }
}

/// Segments of which the first fail fail.
proof fn lemma_segments_fail(
    state: Installed,
    segments: Seq<ProjectionSegment>,
    small: nat,
    large: nat,
)
    requires
        small <= large,
        after_segments(state, segments, small) is None,
    ensures
        after_segments(state, segments, large) is None,
    decreases large,
{
    if small < large {
        lemma_segments_fail(state, segments, small, (large - 1) as nat);
    }
}

/// Applies the slots of segments to the tables' nodes.
pub fn apply_tables(tables: &mut TableMembership, segments: &Vec<ProjectionSegment>)
    ensures
        final(tables)@ == tables_after_segments(old(tables)@, segments@, segments@.len()),
{
    let mut at: usize = 0;
    while at < segments.len()
        invariant
            at <= segments@.len(),
            tables@ == tables_after_segments(old(tables)@, segments@, at as nat),
        decreases segments@.len() - at,
    {
        let slots: &Vec<SegmentResolution> = &segments[at].resolutions;
        let ghost begun = tables@;
        let mut slot: usize = 0;
        while slot < slots.len()
            invariant
                slot <= slots@.len(),
                tables@ == tables_after_slots(begun, slots@, slot as nat),
            decreases slots@.len() - slot,
        {
            if slots[slot].tombstone {
                tables.remove(slots[slot].table_oid, slots[slot].node_idx);
            } else {
                tables.insert(slots[slot].table_oid, slots[slot].node_idx);
            }
            slot = slot + 1;
        }
        at = at + 1;
    }
}

} // verus!
