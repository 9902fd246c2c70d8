//! What installed segments say of nodes, tables, tenants and filter values: the
//! last record that speaks of a thing decides it, and what no record speaks of
//! stays.
use vstd::prelude::*;
use vstd::utf8::encode_utf8;

use crate::active_bits::bit_capacity_limit;
use crate::bitmap::bitmap_contents;
use crate::edge_store::EdgeStore;
use crate::engine::{Engine, ProjectionManifest};
use crate::engine_projection::{before_segments, segments_installed};
use crate::errors::GraphResult;
use crate::filter_index::{applies, FilterIndex};
use crate::filter_storage::FilterStorageKind;
use crate::filter_value::{EncodedFilterValue, PersistedFilterValue};
use crate::membership::members;
use crate::node_store::NodeView;
use crate::overlay::OverlayEdge;
use crate::projection_install::{
    after_segments, after_slot, after_slots, tables_after_segments, tables_after_slots, Installed,
    ProjectionSegment, SegmentFilter, SegmentResolution, SegmentTenant,
};
use crate::projection_segments::{
    all_filters, filter_chain, tenanted_after, tenanted_after_segments, tenants_after,
    tenants_after_segments,
};
use crate::scan_codec::key_hash;

verus! {

/// Whether one place in a list of segments comes after another: in a later
/// segment, or later in the same one.
pub open spec fn comes_later(segment: int, at: int, other: int, place: int) -> bool {
    other > segment || other == segment && place > at
}

/// Whether a slot speaks of a node of a table.
pub open spec fn slot_names(slot: SegmentResolution, table: u32, node: u32) -> bool {
    slot.table_oid == table && slot.node_idx == node
}

/// Whether some slot of the segments speaks of a node of a table.
pub open spec fn slotted(segments: Seq<ProjectionSegment>, table: u32, node: u32) -> bool {
    exists|segment: int, at: int|
        0 <= segment < segments.len() && 0 <= at < segments[segment].resolutions@.len()
            && slot_names(#[trigger] segments[segment].resolutions@[at], table, node)
}

/// Whether a slot is the last to speak of a node of a table.
pub open spec fn last_slot(
    segments: Seq<ProjectionSegment>,
    table: u32,
    node: u32,
    segment: int,
    at: int,
) -> bool {
    &&& 0 <= segment < segments.len()
    &&& 0 <= at < segments[segment].resolutions@.len()
    &&& slot_names(segments[segment].resolutions@[at], table, node)
    &&& forall|other: int, place: int|
        0 <= other < segments.len() && 0 <= place < segments[other].resolutions@.len()
            && comes_later(segment, at, other, place) ==> !slot_names(
            #[trigger] segments[other].resolutions@[place],
            table,
            node,
        )
}

proof fn lemma_unnamed_slots(
    tables: Map<u32, Set<u32>>,
    slots: Seq<SegmentResolution>,
    table: u32,
    node: u32,
    low: nat,
    high: nat,
)
    requires
        low <= high <= slots.len(),
        forall|i: int| low <= i < high ==> !slot_names(#[trigger] slots[i], table, node),
    ensures
        members(tables_after_slots(tables, slots, high), table).contains(node) == members(
            tables_after_slots(tables, slots, low),
            table,
        ).contains(node),
    decreases high,
{
    if low < high {
        lemma_unnamed_slots(tables, slots, table, node, low, (high - 1) as nat);
        assert(!slot_names(slots[high - 1], table, node));
    }
}

proof fn lemma_unnamed_segments(
    tables: Map<u32, Set<u32>>,
    segments: Seq<ProjectionSegment>,
    table: u32,
    node: u32,
    low: nat,
    high: nat,
)
    requires
        low <= high <= segments.len(),
        forall|s: int, i: int|
            low <= s < high && 0 <= i < segments[s].resolutions@.len() ==> !slot_names(
                #[trigger] segments[s].resolutions@[i],
                table,
                node,
            ),
    ensures
        members(tables_after_segments(tables, segments, high), table).contains(node) == members(
            tables_after_segments(tables, segments, low),
            table,
        ).contains(node),
    decreases high,
{
    if low < high {
        lemma_unnamed_segments(tables, segments, table, node, low, (high - 1) as nat);
        let slots = segments[high - 1].resolutions@;
        lemma_unnamed_slots(
            tables_after_segments(tables, segments, (high - 1) as nat),
            slots,
            table,
            node,
            0,
            slots.len(),
        );
    }
}

/// The last slot that speaks of a node of a table decides whether the table has
/// the node: it has it unless the slot is a tombstone. A table has any other node
/// as before.
pub proof fn law_last_slot_decides_table(
    before: Engine,
    after: Engine,
    manifest: ProjectionManifest,
    stored: EdgeStore,
    segments: Seq<ProjectionSegment>,
    table: u32,
    node: u32,
    segment: int,
    at: int,
)
    requires
        segments_installed(before, after, manifest, stored, segments),
    ensures
        last_slot(segments, table, node, segment, at) ==> (members(
            after.table_membership@,
            table,
        ).contains(node) <==> !segments[segment].resolutions@[at].tombstone),
        !slotted(segments, table, node) ==> members(after.table_membership@, table).contains(node)
            == members(before.table_membership@, table).contains(node),
{
    let tables = before.table_membership@;
    if last_slot(segments, table, node, segment, at) {
        let slots = segments[segment].resolutions@;
        let begun = tables_after_segments(tables, segments, segment as nat);
        assert forall|i: int| at < i < slots.len() implies !slot_names(
            #[trigger] slots[i],
            table,
            node,
        ) by {
            assert(comes_later(segment, at, segment, i));
            assert(segments[segment].resolutions@[i] == slots[i]);
        }
        lemma_unnamed_slots(begun, slots, table, node, (at + 1) as nat, slots.len());
        assert(tables_after_slots(begun, slots, (at + 1) as nat) == if slots[at].tombstone {
            crate::membership::without_member(
                tables_after_slots(begun, slots, at as nat),
                table,
                node,
            )
        } else {
            crate::membership::with_member(
                tables_after_slots(begun, slots, at as nat),
                table,
                node,
            )
        });
        lemma_unnamed_segments(
            tables,
            segments,
            table,
            node,
            (segment + 1) as nat,
            segments.len(),
        );
        assert(tables_after_segments(tables, segments, (segment + 1) as nat)
            == tables_after_slots(begun, slots, slots.len()));
    }
    if !slotted(segments, table, node) {
        lemma_unnamed_segments(tables, segments, table, node, 0, segments.len());
    }
}

/// Whether a tenant record speaks of a node of a tenant.
pub open spec fn tenant_names_node(record: SegmentTenant, name: Seq<char>, node: u32) -> bool {
    record.tenant->Some_0@ == name && record.node_idx == node
}

/// Whether some tenant record of the segments speaks of a node of a tenant.
pub open spec fn tenant_recorded(
    segments: Seq<ProjectionSegment>,
    name: Seq<char>,
    node: u32,
) -> bool {
    exists|segment: int, at: int|
        0 <= segment < segments.len() && 0 <= at < segments[segment].tenants@.len()
            && tenant_names_node(#[trigger] segments[segment].tenants@[at], name, node)
}

/// Whether a tenant record is the last to speak of a node of a tenant.
pub open spec fn last_tenant(
    segments: Seq<ProjectionSegment>,
    name: Seq<char>,
    node: u32,
    segment: int,
    at: int,
) -> bool {
    &&& 0 <= segment < segments.len()
    &&& 0 <= at < segments[segment].tenants@.len()
    &&& tenant_names_node(segments[segment].tenants@[at], name, node)
    &&& forall|other: int, place: int|
        0 <= other < segments.len() && 0 <= place < segments[other].tenants@.len()
            && comes_later(segment, at, other, place) ==> !tenant_names_node(
            #[trigger] segments[other].tenants@[place],
            name,
            node,
        )
}

proof fn lemma_unnamed_tenants(
    map: Map<Seq<char>, Set<u32>>,
    tenants: Seq<SegmentTenant>,
    name: Seq<char>,
    node: u32,
    low: nat,
    high: nat,
)
    requires
        low <= high <= tenants.len(),
        forall|i: int| low <= i < high ==> !tenant_names_node(#[trigger] tenants[i], name, node),
    ensures
        members(tenants_after(map, tenants, high), name).contains(node) == members(
            tenants_after(map, tenants, low),
            name,
        ).contains(node),
    decreases high,
{
    if low < high {
        lemma_unnamed_tenants(map, tenants, name, node, low, (high - 1) as nat);
        assert(!tenant_names_node(tenants[high - 1], name, node));
    }
}

proof fn lemma_unnamed_tenant_segments(
    map: Map<Seq<char>, Set<u32>>,
    segments: Seq<ProjectionSegment>,
    name: Seq<char>,
    node: u32,
    low: nat,
    high: nat,
)
    requires
        low <= high <= segments.len(),
        forall|s: int, i: int|
            low <= s < high && 0 <= i < segments[s].tenants@.len() ==> !tenant_names_node(
                #[trigger] segments[s].tenants@[i],
                name,
                node,
            ),
    ensures
        members(tenants_after_segments(map, segments, high), name).contains(node) == members(
            tenants_after_segments(map, segments, low),
            name,
        ).contains(node),
    decreases high,
{
    if low < high {
        lemma_unnamed_tenant_segments(map, segments, name, node, low, (high - 1) as nat);
        let tenants = segments[high - 1].tenants@;
        lemma_unnamed_tenants(
            tenants_after_segments(map, segments, (high - 1) as nat),
            tenants,
            name,
            node,
            0,
            tenants.len(),
        );
    }
}

/// The last tenant record that speaks of a node of a tenant decides whether the
/// tenant has the node: it has it unless the record is a tombstone. A tenant has
/// any other node as before.
pub proof fn law_last_record_decides_tenant(
    before: Engine,
    after: Engine,
    manifest: ProjectionManifest,
    stored: EdgeStore,
    segments: Seq<ProjectionSegment>,
    name: Seq<char>,
    node: u32,
    segment: int,
    at: int,
)
    requires
        segments_installed(before, after, manifest, stored, segments),
    ensures
        last_tenant(segments, name, node, segment, at) ==> (members(
            after.tenant_membership@,
            name,
        ).contains(node) <==> !segments[segment].tenants@[at].tombstone),
        !tenant_recorded(segments, name, node) ==> members(
            after.tenant_membership@,
            name,
        ).contains(node) == members(before.tenant_membership@, name).contains(node),
{
    let map = before.tenant_membership@;
    if last_tenant(segments, name, node, segment, at) {
        let tenants = segments[segment].tenants@;
        let begun = tenants_after_segments(map, segments, segment as nat);
        assert forall|i: int| at < i < tenants.len() implies !tenant_names_node(
            #[trigger] tenants[i],
            name,
            node,
        ) by {
            assert(comes_later(segment, at, segment, i));
            assert(segments[segment].tenants@[i] == tenants[i]);
        }
        lemma_unnamed_tenants(begun, tenants, name, node, (at + 1) as nat, tenants.len());
        let earlier = tenants_after(begun, tenants, at as nat);
        assert(tenants_after(begun, tenants, (at + 1) as nat) == earlier.insert(
            name,
            if tenants[at].tombstone {
                members(earlier, name).remove(node)
            } else {
                members(earlier, name).insert(node)
            },
        ));
        lemma_unnamed_tenant_segments(
            map,
            segments,
            name,
            node,
            (segment + 1) as nat,
            segments.len(),
        );
        assert(tenants_after_segments(map, segments, (segment + 1) as nat) == tenants_after(
            begun,
            tenants,
            tenants.len(),
        ));
    }
    if !tenant_recorded(segments, name, node) {
        lemma_unnamed_tenant_segments(map, segments, name, node, 0, segments.len());
    }
}

proof fn lemma_tenanted(
    tables: Set<u32>,
    tenants: Seq<SegmentTenant>,
    nodes: Seq<NodeView>,
    count: nat,
    table: u32,
)
    requires
        count <= tenants.len(),
    ensures
        tenanted_after(tables, tenants, nodes, count).contains(table) <==> tables.contains(table)
            || exists|i: int|
            0 <= i < count && nodes[(#[trigger] tenants[i]).node_idx as int].table_oid == table,
    decreases count,
{
    if count > 0 {
        lemma_tenanted(tables, tenants, nodes, (count - 1) as nat, table);
        let last = tenants[count - 1];
        if nodes[last.node_idx as int].table_oid == table {
            assert(nodes[tenants[count - 1].node_idx as int].table_oid == table);
        }
    }
}

proof fn lemma_tenanted_segments(
    tables: Set<u32>,
    segments: Seq<ProjectionSegment>,
    nodes: Seq<NodeView>,
    count: nat,
    table: u32,
)
    requires
        count <= segments.len(),
    ensures
        tenanted_after_segments(tables, segments, nodes, count).contains(table)
            <==> tables.contains(table) || exists|s: int, i: int|
            0 <= s < count && 0 <= i < segments[s].tenants@.len() && nodes[(
            #[trigger] segments[s].tenants@[i]).node_idx as int].table_oid == table,
    decreases count,
{
    if count > 0 {
        lemma_tenanted_segments(tables, segments, nodes, (count - 1) as nat, table);
        let before = tenanted_after_segments(tables, segments, nodes, (count - 1) as nat);
        let tenants = segments[count - 1].tenants@;
        lemma_tenanted(before, tenants, nodes, tenants.len(), table);
        if exists|i: int|
            0 <= i < tenants.len() && nodes[(#[trigger] tenants[i]).node_idx as int].table_oid
                == table {
            let i = choose|i: int|
                0 <= i < tenants.len() && nodes[(#[trigger] tenants[i]).node_idx as int].table_oid
                    == table;
            assert(nodes[segments[count - 1].tenants@[i].node_idx as int].table_oid == table);
        }
        if exists|s: int, i: int|
            0 <= s < count && 0 <= i < segments[s].tenants@.len() && nodes[(
            #[trigger] segments[s].tenants@[i]).node_idx as int].table_oid == table {
            let (s, i) = choose|s: int, i: int|
                0 <= s < count && 0 <= i < segments[s].tenants@.len() && nodes[(
                #[trigger] segments[s].tenants@[i]).node_idx as int].table_oid == table;
            if s == count - 1 {
                assert(nodes[tenants[i].node_idx as int].table_oid == table);
            }
        }
    }
}

/// The tables with tenants are those that had tenants before, and those of the
/// nodes that tenant records speak of.
pub proof fn law_tenant_records_mark_tables(
    before: Engine,
    after: Engine,
    manifest: ProjectionManifest,
    stored: EdgeStore,
    segments: Seq<ProjectionSegment>,
    table: u32,
)
    requires
        segments_installed(before, after, manifest, stored, segments),
    ensures
        bitmap_contents(after.tenanted_table_oids).contains(table) <==> bitmap_contents(
            before.tenanted_table_oids,
        ).contains(table) || exists|segment: int, at: int|
            0 <= segment < segments.len() && 0 <= at < segments[segment].tenants@.len()
                && after.node_store.nodes()[(
            #[trigger] segments[segment].tenants@[at]).node_idx as int].table_oid == table,
{
    lemma_tenanted_segments(
        bitmap_contents(before.tenanted_table_oids),
        segments,
        after.node_store.nodes(),
        segments.len(),
        table,
    );
}

/// The items of the first lists, one list after the other.
spec fn joined<T>(lists: Seq<Seq<T>>, count: nat) -> Seq<T>
    decreases count,
{
    if count == 0 {
        Seq::empty()
    } else {
        joined(lists, (count - 1) as nat) + lists[count - 1]
    }
}

proof fn lemma_joined_grows<T>(lists: Seq<Seq<T>>, low: nat, high: nat)
    requires
        low < high <= lists.len(),
    ensures
        joined(lists, low).len() + lists[low as int].len() <= joined(lists, high).len(),
    decreases high,
{
    if low + 1 < high {
        lemma_joined_grows(lists, low, (high - 1) as nat);
    }
}

proof fn lemma_joined_place<T>(lists: Seq<Seq<T>>, count: nat, list: nat, at: int)
    requires
        list < count <= lists.len(),
        0 <= at < lists[list as int].len(),
    ensures
        joined(lists, list).len() + at < joined(lists, count).len(),
        joined(lists, count)[joined(lists, list).len() + at] == lists[list as int][at],
    decreases count,
{
    lemma_joined_grows(lists, list, count);
    if list + 1 < count {
        lemma_joined_place(lists, (count - 1) as nat, list, at);
    }
}

proof fn lemma_joined_comes_from<T>(lists: Seq<Seq<T>>, count: nat, place: int) -> (from: (nat, int))
    requires
        count <= lists.len(),
        0 <= place < joined(lists, count).len(),
    ensures
        from.0 < count,
        0 <= from.1 < lists[from.0 as int].len(),
        place == joined(lists, from.0).len() + from.1,
        joined(lists, count)[place] == lists[from.0 as int][from.1],
    decreases count,
{
    let shorter = joined(lists, (count - 1) as nat);
    if place < shorter.len() {
        lemma_joined_comes_from(lists, (count - 1) as nat, place)
    } else {
        ((count - 1) as nat, place - shorter.len())
    }
}

/// A later place in the joined lists is in a later list, or later in the same.
proof fn lemma_joined_order<T>(lists: Seq<Seq<T>>, list: nat, at: int, other: nat, place: int)
    requires
        list < lists.len(),
        other < lists.len(),
        0 <= at < lists[list as int].len(),
        0 <= place < lists[other as int].len(),
        joined(lists, list).len() + at < joined(lists, other).len() + place,
    ensures
        comes_later(list as int, at, other as int, place),
{
    if other < list {
        lemma_joined_grows(lists, other, list);
    }
}

/// The slots of each segment.
spec fn slot_lists(segments: Seq<ProjectionSegment>) -> Seq<Seq<SegmentResolution>> {
    Seq::new(segments.len(), |i: int| segments[i].resolutions@)
}

proof fn lemma_slots_append(
    state: Installed,
    first: Seq<SegmentResolution>,
    second: Seq<SegmentResolution>,
    count: nat,
)
    requires
        count <= second.len(),
        after_slots(state, first, first.len()) is Some,
    ensures
        after_slots(state, first + second, first.len() + count) == after_slots(
            after_slots(state, first, first.len())->Some_0,
            second,
            count,
        ),
    decreases count,
{
    if count == 0 {
        lemma_slots_agree(state, first + second, first, first.len());
    } else {
        lemma_slots_append(state, first, second, (count - 1) as nat);
        assert((first + second)[first.len() + count - 1] == second[count - 1]);
        assert((first.len() + count - 1) as nat == first.len() + (count - 1) as nat);
    }
}

proof fn lemma_slots_agree(
    state: Installed,
    left: Seq<SegmentResolution>,
    right: Seq<SegmentResolution>,
    count: nat,
)
    requires
        count <= left.len(),
        count <= right.len(),
        forall|i: int| 0 <= i < count ==> #[trigger] left[i] == right[i],
    ensures
        after_slots(state, left, count) == after_slots(state, right, count),
    decreases count,
{
    if count > 0 {
        lemma_slots_agree(state, left, right, (count - 1) as nat);
        assert(left[count - 1] == right[count - 1]);
    }
}

proof fn lemma_segments_are_slots(state: Installed, segments: Seq<ProjectionSegment>, count: nat)
    requires
        count <= segments.len(),
        after_segments(state, segments, count) is Some,
    ensures
        after_slots(
            state,
            joined(slot_lists(segments), count),
            joined(slot_lists(segments), count).len(),
        ) == after_segments(state, segments, count),
    decreases count,
{
    if count > 0 {
        lemma_segments_are_slots(state, segments, (count - 1) as nat);
        let shorter = joined(slot_lists(segments), (count - 1) as nat);
        let slots = segments[count - 1].resolutions@;
        assert(slot_lists(segments)[count - 1] == slots);
        lemma_slots_append(state, shorter, slots, slots.len());
    }
}

/// Whether a node is as its base and slots tell.
spec fn node_told(
    base: Seq<NodeView>,
    nodes: Seq<NodeView>,
    slots: Seq<SegmentResolution>,
    count: nat,
    node: int,
) -> bool {
    &&& node < base.len() ==> nodes[node].table_oid == base[node].table_oid && nodes[node].key
        == base[node].key
    &&& node >= base.len() ==> exists|i: int|
        0 <= i < count && (#[trigger] slots[i]).node_idx == node
    &&& nodes[node].active <==> (node < base.len() ==> base[node].active) && forall|i: int|
        0 <= i < count && (#[trigger] slots[i]).node_idx == node ==> !slots[i].tombstone
}

/// Whether a slot speaks of a node as it is.
pub open spec fn slot_holds(nodes: Seq<NodeView>, slot: SegmentResolution) -> bool {
    let node = nodes[slot.node_idx as int];
    &&& slot.node_idx < nodes.len()
    &&& node.table_oid == slot.table_oid
    &&& match slot.primary_key {
        Some(key) => node.key == key@,
        None => key_hash(encode_utf8(node.key)) == slot.pk_hash,
    }
    &&& slot.tombstone ==> !node.active
}

proof fn lemma_nodes_told(
    base: Seq<NodeView>,
    state: Installed,
    slots: Seq<SegmentResolution>,
    count: nat,
)
    requires
        state.nodes == base,
        count <= slots.len(),
        after_slots(state, slots, count) is Some,
    ensures
        ({
            let nodes = after_slots(state, slots, count)->Some_0.nodes;
            &&& base.len() <= nodes.len()
            &&& forall|node: int|
                0 <= node < nodes.len() ==> #[trigger] node_told(base, nodes, slots, count, node)
            &&& forall|i: int| 0 <= i < count ==> slot_holds(nodes, #[trigger] slots[i])
        }),
    decreases count,
{
    if count > 0 {
        let less = (count - 1) as nat;
        lemma_nodes_told(base, state, slots, less);
        let middle = after_slots(state, slots, less)->Some_0;
        let earlier = middle.nodes;
        let nodes = after_slots(state, slots, count)->Some_0.nodes;
        let slot = slots[count - 1];
        let at = slot.node_idx as int;
        assert(after_slot(middle, slot) is Some);
        assert forall|node: int| 0 <= node < nodes.len() implies #[trigger] node_told(
            base,
            nodes,
            slots,
            count,
            node,
        ) by {
            if node < earlier.len() {
                assert(node_told(base, earlier, slots, less, node));
                if node >= base.len() {
                    let i = choose|i: int|
                        0 <= i < less && (#[trigger] slots[i]).node_idx == node;
                    assert(slots[i].node_idx == node && i < count);
                }
                if earlier[node].active && !nodes[node].active {
                    assert(slots[count - 1].node_idx == node && slot.tombstone);
                }
                if !earlier[node].active && (node < base.len() ==> base[node].active) {
                    let i = choose|i: int|
                        0 <= i < less && (#[trigger] slots[i]).node_idx == node
                            && slots[i].tombstone;
                    assert(slots[i].node_idx == node && i < count);
                }
                if nodes[node].active {
                    assert forall|i: int|
                        0 <= i < count && (#[trigger] slots[i]).node_idx
                            == node implies !slots[i].tombstone by {}
                }
            } else {
                assert(node == at);
                assert(slots[count - 1].node_idx == node);
                assert forall|i: int|
                    0 <= i < less && (#[trigger] slots[i]).node_idx == node implies false by {
                    assert(slot_holds(earlier, slots[i]));
                }
                if nodes[node].active {
                    assert forall|i: int|
                        0 <= i < count && (#[trigger] slots[i]).node_idx
                            == node implies !slots[i].tombstone by {}
                }
            }
        }
        assert forall|i: int| 0 <= i < count implies slot_holds(nodes, #[trigger] slots[i]) by {
            if i < less {
                assert(slot_holds(earlier, slots[i]));
            }
        }
    }
}

/// Whether some slot of the segments makes a node inactive.
pub open spec fn buried(segments: Seq<ProjectionSegment>, node: u32) -> bool {
    exists|segment: int, at: int|
        0 <= segment < segments.len() && 0 <= at < segments[segment].resolutions@.len() && (
        #[trigger] segments[segment].resolutions@[at]).node_idx == node
            && segments[segment].resolutions@[at].tombstone
}

/// Whether some slot of the segments speaks of a node.
pub open spec fn brought(segments: Seq<ProjectionSegment>, node: u32) -> bool {
    exists|segment: int, at: int|
        0 <= segment < segments.len() && 0 <= at < segments[segment].resolutions@.len() && (
        #[trigger] segments[segment].resolutions@[at]).node_idx == node
}

/// What slots make of nodes. A node of the base keeps its table and key, and is
/// live if it was and no slot is its tombstone. Every further node is one that a
/// slot brought, and is live if no slot is its tombstone. Every slot names a node
/// by the table and key that the node has.
pub proof fn law_slots_decide_nodes(
    before: Engine,
    after: Engine,
    manifest: ProjectionManifest,
    stored: EdgeStore,
    segments: Seq<ProjectionSegment>,
    node: u32,
    segment: int,
    at: int,
)
    requires
        segments_installed(before, after, manifest, stored, segments),
    ensures
        ({
            let (base, nodes) = (before.node_store.nodes(), after.node_store.nodes());
            &&& base.len() <= nodes.len()
            &&& node < base.len() ==> {
                &&& nodes[node as int].table_oid == base[node as int].table_oid
                &&& nodes[node as int].key == base[node as int].key
                &&& nodes[node as int].active <==> base[node as int].active && !buried(
                    segments,
                    node,
                )
            }
            &&& base.len() <= node < nodes.len() ==> {
                &&& brought(segments, node)
                &&& nodes[node as int].active <==> !buried(segments, node)
            }
            &&& 0 <= segment < segments.len() && 0 <= at < segments[segment].resolutions@.len()
                ==> slot_holds(nodes, segments[segment].resolutions@[at])
        }),
{
    let (base, nodes) = (before.node_store.nodes(), after.node_store.nodes());
    let lists = slot_lists(segments);
    let count = segments.len();
    let slots = joined(lists, count);
    let state = before_segments(before);
    lemma_segments_are_slots(state, segments, count);
    lemma_nodes_told(base, state, slots, slots.len());
    assert(buried(segments, node) <==> exists|i: int|
        0 <= i < slots.len() && (#[trigger] slots[i]).node_idx == node && slots[i].tombstone) by {
        if buried(segments, node) {
            let (s, i) = choose|s: int, i: int|
                0 <= s < segments.len() && 0 <= i < segments[s].resolutions@.len() && (
                #[trigger] segments[s].resolutions@[i]).node_idx == node
                    && segments[s].resolutions@[i].tombstone;
            assert(lists[s] == segments[s].resolutions@);
            lemma_joined_place(lists, count, s as nat, i);
        }
        if exists|i: int|
            0 <= i < slots.len() && (#[trigger] slots[i]).node_idx == node && slots[i].tombstone {
            let i = choose|i: int|
                0 <= i < slots.len() && (#[trigger] slots[i]).node_idx == node
                    && slots[i].tombstone;
            let from = lemma_joined_comes_from(lists, count, i);
            assert(segments[from.0 as int].resolutions@[from.1].tombstone);
        }
    }
    if node < nodes.len() {
        assert(node_told(base, nodes, slots, slots.len(), node as int));
        if node >= base.len() {
            let i = choose|i: int| 0 <= i < slots.len() && (#[trigger] slots[i]).node_idx == node;
            let from = lemma_joined_comes_from(lists, count, i);
            assert(segments[from.0 as int].resolutions@[from.1].node_idx == node);
        }
    }
    if 0 <= segment < segments.len() && 0 <= at < segments[segment].resolutions@.len() {
        assert(lists[segment] == segments[segment].resolutions@);
        lemma_joined_place(lists, count, segment as nat, at);
        assert(slot_holds(nodes, slots[joined(lists, segment as nat).len() + at]));
    }
}

/// Which slots can be applied. One that names a node that is there must give the
/// table and key that the node has, or the hash of the key where it gives no key,
/// and must be a tombstone unless the node is live. Any other must give a key and
/// be the next, while there is room for one.
pub proof fn law_slot_applies(state: Installed, slot: SegmentResolution)
    ensures
        ({
            let nodes = state.nodes;
            let node = nodes[slot.node_idx as int];
            after_slot(state, slot) is Some <==> if slot.node_idx < nodes.len() {
                &&& node.table_oid == slot.table_oid
                &&& match slot.primary_key {
                    Some(key) => key@ == node.key,
                    None => slot.pk_hash == key_hash(encode_utf8(node.key)),
                }
                &&& slot.tombstone || node.active
            } else {
                &&& slot.primary_key is Some
                &&& slot.node_idx == nodes.len()
                &&& nodes.len() < u32::MAX
                &&& nodes.len() < bit_capacity_limit()
            }
        }),
{
}

/// Whether a column has room for a value of a node: an artifact's column has
/// room for all, and one in memory as far as its form goes.
pub open spec fn has_room(
    index: FilterIndex,
    column: int,
    node: u32,
    value: PersistedFilterValue,
) -> bool {
    if index.mapped() {
        0 <= column < index.registered().len()
    } else {
        &&& 0 <= column < index.stored_columns()
        &&& match index.storage_of(column).form() {
            FilterStorageKind::Dense => node < index.storage_of(column).slots(),
            FilterStorageKind::SparseBool => value is Boolean,
            FilterStorageKind::SparseLookup => value is Text || value is Uuid,
            FilterStorageKind::SparseOrdered => true,
        }
    }
}

/// Whether a node has, in a column, the value that a record gives it.
pub open spec fn filter_told(
    index: FilterIndex,
    column: int,
    node: u32,
    value: PersistedFilterValue,
    tombstone: bool,
) -> bool {
    let held = index.value(column, node);
    if tombstone {
        held is None
    } else {
        match value {
            PersistedFilterValue::Null => held is None,
            PersistedFilterValue::Numeric(n) => held == Some(EncodedFilterValue::Numeric(n)),
            PersistedFilterValue::Boolean(b) => held == Some(EncodedFilterValue::Boolean(b)),
            PersistedFilterValue::Date(n) => held == Some(EncodedFilterValue::Date(n)),
            PersistedFilterValue::Timestamptz(n) => held == Some(
                EncodedFilterValue::Timestamptz(n),
            ),
            PersistedFilterValue::Uuid(u) => held == Some(EncodedFilterValue::Uuid(u)),
            PersistedFilterValue::Text(text) => held matches Some(EncodedFilterValue::Text(token))
                && token < index.texts(column).len() && index.texts(column)[token as int] == text@,
        }
    }
}

/// Whether a filter record speaks of a node's value in a column.
pub open spec fn filter_names(record: SegmentFilter, column: int, node: u32) -> bool {
    record.column_id == column && record.node_idx == node
}

/// Whether some filter record of the segments speaks of a node's value.
pub open spec fn filter_recorded(
    segments: Seq<ProjectionSegment>,
    column: int,
    node: u32,
) -> bool {
    exists|segment: int, at: int|
        0 <= segment < segments.len() && 0 <= at < segments[segment].filters@.len()
            && filter_names(#[trigger] segments[segment].filters@[at], column, node)
}

/// Whether a filter record is the last to speak of a node's value.
pub open spec fn last_filter(
    segments: Seq<ProjectionSegment>,
    column: int,
    node: u32,
    segment: int,
    at: int,
) -> bool {
    &&& 0 <= segment < segments.len()
    &&& 0 <= at < segments[segment].filters@.len()
    &&& filter_names(segments[segment].filters@[at], column, node)
    &&& forall|other: int, place: int|
        0 <= other < segments.len() && 0 <= place < segments[other].filters@.len()
            && comes_later(segment, at, other, place) ==> !filter_names(
            #[trigger] segments[other].filters@[place],
            column,
            node,
        )
}

/// Whether one list of texts begins with another.
spec fn texts_grow(before: Seq<Seq<char>>, after: Seq<Seq<char>>) -> bool {
    &&& before.len() <= after.len()
    &&& forall|i: int| 0 <= i < before.len() ==> #[trigger] after[i] == before[i]
}

/// The filter records of each segment.
spec fn filter_lists(segments: Seq<ProjectionSegment>) -> Seq<Seq<SegmentFilter>> {
    Seq::new(segments.len(), |i: int| segments[i].filters@)
}

proof fn lemma_filters_joined(segments: Seq<ProjectionSegment>, count: nat)
    requires
        count <= segments.len(),
    ensures
        all_filters(segments, count) == joined(filter_lists(segments), count),
    decreases count,
{
    if count > 0 {
        lemma_filters_joined(segments, (count - 1) as nat);
        assert(filter_lists(segments)[count - 1] == segments[count - 1].filters@);
    }
}

/// What a chain of applied values keeps up to a place.
proof fn lemma_chain_keeps(
    chain: Seq<FilterIndex>,
    before: FilterIndex,
    after: FilterIndex,
    filters: Seq<SegmentFilter>,
    column: int,
    node: u32,
    low: int,
    high: int,
)
    requires
        filter_chain(chain, before, after, filters),
        0 <= low <= high <= filters.len(),
    ensures
        texts_grow(chain[low].texts(column), chain[high].texts(column)),
        chain[high].mapped() == chain[low].mapped(),
        chain[high].registered() == chain[low].registered(),
        chain[high].stored_columns() == chain[low].stored_columns(),
        forall|c: int|
            0 <= c < chain[low].stored_columns() ==> (#[trigger] chain[high].storage_of(c)).form()
                == chain[low].storage_of(c).form() && chain[high].storage_of(c).slots()
                == chain[low].storage_of(c).slots(),
        (forall|i: int| low <= i < high ==> !filter_names(#[trigger] filters[i], column, node))
            ==> chain[high].value(column, node) == chain[low].value(column, node),
    decreases high - low,
{
    if low < high {
        lemma_chain_keeps(chain, before, after, filters, column, node, low, high - 1);
        let record = filters[high - 1];
        assert(applies(
            chain[high - 1],
            chain[(high - 1) + 1],
            record.column_id as int,
            record.node_idx,
            record.value,
            record.tombstone,
        ));
        assert forall|c: int| 0 <= c < chain[low].stored_columns() implies (
        #[trigger] chain[high].storage_of(c)).form() == chain[low].storage_of(c).form()
            && chain[high].storage_of(c).slots() == chain[low].storage_of(c).slots() by {
            assert(chain[high - 1].storage_of(c).form() == chain[low].storage_of(c).form());
        }
    }
}

/// The last filter record that speaks of a node's value in a column decides it,
/// where the column has room: the node has the value that the record gives, a
/// text by its token, and none after a tombstone or a `NULL`. Every other value
/// stays, and so does every token.
pub proof fn law_last_record_decides_filter(
    before: Engine,
    after: Engine,
    manifest: ProjectionManifest,
    stored: EdgeStore,
    segments: Seq<ProjectionSegment>,
    column: int,
    node: u32,
    segment: int,
    at: int,
    token: int,
)
    requires
        segments_installed(before, after, manifest, stored, segments),
    ensures
        ({
            let record = segments[segment].filters@[at];
            let (old_index, index) = (before.filter_index, after.filter_index);
            &&& last_filter(segments, column, node, segment, at) && has_room(
                old_index,
                column,
                node,
                record.value,
            ) ==> filter_told(index, column, node, record.value, record.tombstone)
            &&& !filter_recorded(segments, column, node) ==> index.value(column, node)
                == old_index.value(column, node)
            &&& 0 <= token < old_index.texts(column).len() ==> token < index.texts(column).len()
                && index.texts(column)[token] == old_index.texts(column)[token]
        }),
{
    let count = segments.len();
    let lists = filter_lists(segments);
    lemma_filters_joined(segments, count);
    let filters = joined(lists, count);
    let copy = choose|copy: FilterIndex|
        crate::engine_projection::same_filters(copy, before.filter_index) && #[trigger]
        crate::projection_segments::filters_applied(copy, after.filter_index, filters);
    let chain = choose|chain: Seq<FilterIndex>| #[trigger]
        filter_chain(chain, copy, after.filter_index, filters);
    let end = filters.len() as int;
    assert(copy.texts(column) == before.filter_index.texts(column));
    lemma_chain_keeps(chain, copy, after.filter_index, filters, column, node, 0, end);
    if !filter_recorded(segments, column, node) {
        assert forall|i: int| 0 <= i < end implies !filter_names(
            #[trigger] filters[i],
            column,
            node,
        ) by {
            let from = lemma_joined_comes_from(lists, count, i);
            assert(!filter_names(segments[from.0 as int].filters@[from.1], column, node));
        }
        assert(copy.value(column, node) == before.filter_index.value(column, node));
    }
    let record = segments[segment].filters@[at];
    if last_filter(segments, column, node, segment, at) && has_room(
        before.filter_index,
        column,
        node,
        record.value,
    ) {
        assert(lists[segment] == segments[segment].filters@);
        lemma_joined_place(lists, count, segment as nat, at);
        let place = joined(lists, segment as nat).len() + at;
        assert(filters[place] == record);
        lemma_chain_keeps(chain, copy, after.filter_index, filters, column, node, 0, place);
        assert(applies(
            chain[place],
            chain[place + 1],
            filters[place].column_id as int,
            filters[place].node_idx,
            filters[place].value,
            filters[place].tombstone,
        ));
        if !copy.mapped() {
            assert(chain[place].storage_of(column).form() == copy.storage_of(column).form());
            assert(copy.storage_of(column).form() == before.filter_index.storage_of(
                column,
            ).form());
        }
        assert(filter_told(chain[place + 1], column, node, record.value, record.tombstone));
        assert forall|i: int| place + 1 <= i < end implies !filter_names(
            #[trigger] filters[i],
            column,
            node,
        ) by {
            let from = lemma_joined_comes_from(lists, count, i);
            lemma_joined_order(lists, segment as nat, at, from.0, from.1);
            assert(!filter_names(segments[from.0 as int].filters@[from.1], column, node));
        }
        lemma_chain_keeps(
            chain,
            copy,
            after.filter_index,
            filters,
            column,
            node,
            place + 1,
            end,
        );
    }
}

/// Whether an edge of a segment joins two of so many nodes, and speaks of a
/// relationship that is stored, if it speaks of one.
pub open spec fn edge_is_known(engine: Engine, edge: OverlayEdge, nodes: nat) -> bool {
    let stored = engine.relationship_identities.stored@;
    &&& edge.source < nodes
    &&& edge.target < nodes
    &&& edge.relationship_id matches Some(id) ==> id < stored.len() && stored[id as int] is Some
}

/// Segments are installed only if all that they say is of things that are there:
/// edges join nodes and speak of stored relationships, tenant records name a
/// tenant and a node, and the last segment's node states are those that the nodes
/// have. What segments do not speak of stays: the engine's own stores, its
/// registry, its buffer and its relationships.
pub proof fn law_installed_segments_speak_of_what_is_there(
    before: Engine,
    after: Engine,
    manifest: ProjectionManifest,
    stored: EdgeStore,
    segments: Seq<ProjectionSegment>,
    segment: int,
    at: int,
)
    requires
        segments_installed(before, after, manifest, stored, segments),
        0 <= segment < segments.len(),
    ensures
        ({
            let own = segments[segment];
            let nodes = after.node_store.nodes().len();
            &&& 0 <= at < own.edge_inserts@.len() ==> edge_is_known(
                before,
                own.edge_inserts@[at],
                nodes,
            )
            &&& 0 <= at < own.edge_deletes@.len() ==> edge_is_known(
                before,
                own.edge_deletes@[at],
                nodes,
            )
            &&& 0 <= at < own.edge_weights@.len() ==> edge_is_known(
                before,
                own.edge_weights@[at].edge,
                nodes,
            )
            &&& 0 <= at < own.tenants@.len() ==> own.tenants@[at].tenant is Some
                && own.tenants@[at].node_idx < nodes
            &&& segment == segments.len() - 1 && 0 <= at < own.node_states@.len() ==> {
                let state = own.node_states@[at];
                state.node_idx < nodes && after.node_store.nodes()[state.node_idx as int].active
                    == state.active
            }
            &&& after.projection_manifest == Some(manifest)
            &&& after.edge_store == before.edge_store
            &&& after.reverse_edge_store == before.reverse_edge_store
            &&& after.edge_type_registry == before.edge_type_registry
            &&& after.edge_buffer == before.edge_buffer
            &&& after.relationship_identities == before.relationship_identities
            &&& after.built == before.built
        }),
{
    let nodes = after.node_store.nodes().len();
    assert(crate::layered::segment_edges_bounded(segments[segment], nodes));
    assert(crate::projection_segments::relationships_known(
        segments[segment],
        before.relationship_identities,
    ));
    assert(crate::projection_segments::tenants_valid(segments[segment], nodes));
}

/// An engine takes segments over as a whole or not at all.
pub proof fn law_refused_segments_change_nothing(
    engine: &mut Engine,
    manifest: ProjectionManifest,
    stored: EdgeStore,
    segments: Vec<ProjectionSegment>,
    result: GraphResult<()>,
)
    requires
        call_ensures(
            Engine::install_projection_manifest,
            (engine, manifest, &stored, &segments),
            result,
        ),
    ensures
        result is Err ==> *final(engine) == *old(engine),
        result is Ok ==> segments_installed(
            *old(engine),
            *final(engine),
            manifest,
            stored,
            segments@,
        ),
{
}

} // verus!
