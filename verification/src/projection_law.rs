//! What installed segments keep: nodes of the base stay, and new nodes can be
//! found.
use vstd::prelude::*;
use vstd::utf8::encode_utf8;

use crate::edge_store::EdgeStore;
use crate::engine::{Engine, ProjectionManifest};
use crate::engine_nodes::{
    base_candidates, has_identity, is_node, law_known_node_resolves, lemma_joined_contains,
    lookup_order, resolved,
};
use crate::engine_projection::{before_segments, segments_installed};
use crate::node_store::NodeView;
use crate::projection_install::{
    after_segments, after_slot, after_slots, Installed, ProjectionSegment, SegmentResolution,
};
use crate::resolution::{lemma_matching_member, matching, ResolutionEntry};
use crate::scan_codec::key_hash;

verus! {

/// The entry that finds a node.
pub open spec fn entry_of(nodes: Seq<NodeView>, node: int) -> ResolutionEntry {
    ResolutionEntry {
        table_oid: nodes[node].table_oid,
        pk_hash: key_hash(encode_utf8(nodes[node].key)),
        node_idx: node as u32,
    }
}

/// Whether nodes are kept with their identities, none of them revived, and
/// every further node has an entry.
pub open spec fn grows_from(base: Seq<NodeView>, state: Installed) -> bool {
    &&& base.len() <= state.nodes.len()
    &&& forall|i: int|
        0 <= i < base.len() ==> {
            &&& (#[trigger] state.nodes[i]).table_oid == base[i].table_oid
            &&& state.nodes[i].key == base[i].key
            &&& state.nodes[i].active ==> base[i].active
        }
    &&& forall|i: int|
        base.len() <= i < state.nodes.len() ==> state.entries.contains(
            #[trigger] entry_of(state.nodes, i),
        )
}

proof fn lemma_slot_grows(base: Seq<NodeView>, state: Installed, slot: SegmentResolution)
    requires
        grows_from(base, state),
        after_slot(state, slot) is Some,
    ensures
        grows_from(base, after_slot(state, slot)->Some_0),
{
    let after = after_slot(state, slot)->Some_0;
    let at = slot.node_idx as int;
    let last = after.entries.last();
    assert(after.entries == state.entries.push(last));
    assert forall|i: int| base.len() <= i < after.nodes.len() implies after.entries.contains(
        #[trigger] entry_of(after.nodes, i),
    ) by {
        let entry = entry_of(after.nodes, i);
        if i < state.nodes.len() {
            assert(entry == entry_of(state.nodes, i));
            let k = choose|k: int| 0 <= k < state.entries.len() && state.entries[k] == entry;
            assert(after.entries[k] == entry);
        } else {
            assert(i == at);
            assert(after.entries[state.entries.len() as int] == entry);
        }
    }
}

proof fn lemma_slots_grow(
    base: Seq<NodeView>,
    state: Installed,
    slots: Seq<SegmentResolution>,
    count: nat,
)
    requires
        grows_from(base, state),
        after_slots(state, slots, count) is Some,
    ensures
        grows_from(base, after_slots(state, slots, count)->Some_0),
    decreases count,
{
    if count > 0 {
        lemma_slots_grow(base, state, slots, (count - 1) as nat);
        lemma_slot_grows(
            base,
            after_slots(state, slots, (count - 1) as nat)->Some_0,
            slots[count - 1],
        );
    }
}

proof fn lemma_all_grow(
    base: Seq<NodeView>,
    state: Installed,
    segments: Seq<ProjectionSegment>,
    count: nat,
)
    requires
        grows_from(base, state),
        after_segments(state, segments, count) is Some,
    ensures
        grows_from(base, after_segments(state, segments, count)->Some_0),
    decreases count,
{
    if count > 0 {
        lemma_all_grow(base, state, segments, (count - 1) as nat);
        let before = after_segments(state, segments, (count - 1) as nat)->Some_0;
        let slots = segments[count - 1].resolutions@;
        lemma_slots_grow(base, before, slots, slots.len());
    }
}

/// Installing segments keeps every node of the base under its identity, and
/// revives none.
pub proof fn law_installing_keeps_base_nodes(
    before: Engine,
    after: Engine,
    manifest: ProjectionManifest,
    stored: EdgeStore,
    segments: Seq<ProjectionSegment>,
    node: u32,
)
    requires
        segments_installed(before, after, manifest, stored, segments),
        node < before.node_store.nodes().len(),
    ensures
        has_identity(
            after.node_store.nodes(),
            node,
            before.node_store.nodes()[node as int].table_oid,
            before.node_store.nodes()[node as int].key,
        ),
        after.node_store.live(node) ==> before.node_store.live(node),
{
    let base = before.node_store.nodes();
    lemma_all_grow(base, before_segments(before), segments, segments.len());
    let state = Installed {
        nodes: after.node_store.nodes(),
        entries: after.resolution_delta.entries@,
    };
    assert(grows_from(base, state));
    assert(state.nodes[node as int].table_oid == base[node as int].table_oid);
}

/// A live node that installed segments brought can be found by its table and
/// key.
pub proof fn law_installed_node_resolves(
    before: Engine,
    after: Engine,
    manifest: ProjectionManifest,
    stored: EdgeStore,
    segments: Seq<ProjectionSegment>,
    deleted: Set<u32>,
    node: u32,
)
    requires
        segments_installed(before, after, manifest, stored, segments),
        before.node_store.nodes().len() <= node < after.node_store.nodes().len(),
        after.node_store.live(node),
        !deleted.contains(node),
    ensures
        ({
            let view = after.node_store.nodes()[node as int];
            let found = resolved(after, view.table_oid, view.key, deleted);
            &&& found is Some
            &&& is_node(
                after.node_store.nodes(),
                found->Some_0,
                view.table_oid,
                view.key,
                deleted,
            )
        }),
{
    let base = before.node_store.nodes();
    let nodes = after.node_store.nodes();
    let view = nodes[node as int];
    lemma_all_grow(base, before_segments(before), segments, segments.len());
    let entries = after.resolution_delta.entries@;
    let state = Installed { nodes, entries };
    assert(grows_from(base, state));
    assert(entries.contains(entry_of(nodes, node as int)));
    let hash = key_hash(encode_utf8(view.key));
    lemma_matching_member(entries, view.table_oid, hash, node);
    let later = matching(entries, view.table_oid, hash);
    let k = choose|k: int| 0 <= k < later.len() && later[k] == node;
    assert(later.reverse()[later.len() - 1 - k] == node);
    lemma_joined_contains(
        later.reverse(),
        base_candidates(after, view.table_oid, hash),
        node,
    );
    assert(lookup_order(after, view.table_oid, view.key).contains(node));
    law_known_node_resolves(after, view.table_oid, view.key, deleted, node);
}

} // verus!
