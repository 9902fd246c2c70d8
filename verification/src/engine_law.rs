//! What changes to an engine do, as those who look on see it: to nodes, to
//! tables and tenants, to the registry and to the buffer of changes.
use roaring::RoaringBitmap;
use vstd::prelude::*;
use vstd::utf8::encode_utf8;

use crate::bitmap::bitmap_contents;
use crate::engine::{Engine, ReadOnlyReason, SchemaState, SyncStatus};
use crate::engine_nodes::{
    first_accepted, has_identity, is_node, law_inserted_node_is_known, law_known_node_resolves,
    live_tables, lookup_order,
};
use crate::errors::GraphResult;
use crate::membership::{members, TableMembership, TenantMembership};
use crate::node_store::{live_nodes, NodeStore, NodeView};
use crate::overlay::EdgeMutation;
use crate::scan_codec::key_hash;
use crate::scan_edges::label_views;

verus! {

/// A node that is inserted comes last, live, with its table and key; no other
/// node changes.
pub proof fn law_inserted_node_is_last(engine: &mut Engine, table: u32, key: &str, node: u32)
    requires
        old(engine).node_store.nodes().len() < u32::MAX,
        call_ensures(Engine::insert_sync_node, (engine, table, key), node),
    ensures
        ({
            let (before, after) = (old(engine).node_store.nodes(), final(engine).node_store.nodes());
            &&& node == before.len()
            &&& after.len() == before.len() + 1
            &&& after[node as int].active
            &&& after[node as int].table_oid == table
            &&& after[node as int].key == key@
            &&& forall|i: int| 0 <= i < before.len() ==> #[trigger] after[i] == before[i]
        }),
{
}

/// Only a live node of the given table is made inactive, and the answer says
/// whether it was; it keeps its table and key, and no other node changes.
pub proof fn law_tombstone_hides_one_node(engine: &mut Engine, table: u32, node: u32, done: bool)
    requires
        call_ensures(Engine::tombstone_sync_node, (engine, table, node), done),
    ensures
        ({
            let (before, after) = (old(engine).node_store.nodes(), final(engine).node_store.nodes());
            let at = node as int;
            &&& done <==> node < before.len() && before[at].active && before[at].table_oid == table
            &&& after.len() == before.len()
            &&& done ==> !after[at].active && after[at].table_oid == table && after[at].key
                == before[at].key
            &&& forall|i: int|
                0 <= i < before.len() && (i != at || !done) ==> #[trigger] after[i] == before[i]
        }),
{
}

/// A node store tells of each node what it was added with, and that it is live
/// until it is deactivated.
pub proof fn law_store_tells_nodes(
    store: &mut NodeStore,
    table: u32,
    key: String,
    added: u32,
    active: bool,
    oid: Option<u32>,
    text: Option<&str>,
)
    requires
        old(store).nodes().len() < u32::MAX,
        call_ensures(NodeStore::add_node, (store, table, key), added),
        call_ensures(NodeStore::is_active, (final(store), added), active),
        call_ensures(NodeStore::table_oid, (final(store), added), oid),
        call_ensures(NodeStore::primary_key, (final(store), added), text),
    ensures
        active,
        oid == Some(table),
        text matches Some(text) && text@ == key@,
        added == old(store).nodes().len(),
{
}

/// A deactivated node of a store in memory is not live; every other node is as
/// before.
pub proof fn law_deactivated_node_is_not_live(
    store: &mut NodeStore,
    node: u32,
    other: u32,
    active: bool,
    before: bool,
    after: bool,
)
    requires
        !old(store).mapped(),
        call_ensures(NodeStore::deactivate, (store, node), ()),
        call_ensures(NodeStore::is_active, (final(store), node), active),
        call_ensures(NodeStore::is_active, (old(store), other), before),
        call_ensures(NodeStore::is_active, (final(store), other), after),
    ensures
        !active,
        other != node ==> after == before,
        final(store).nodes().len() == old(store).nodes().len(),
{
}

proof fn lemma_live_count(nodes: Seq<NodeView>)
    ensures
        ({
            let live = Set::new(|i: int| 0 <= i < nodes.len() && nodes[i].active);
            live.finite() && live.len() == live_nodes(nodes)
        }),
    decreases nodes.len(),
{
    let live = Set::new(|i: int| 0 <= i < nodes.len() && nodes[i].active);
    if nodes.len() == 0 {
        assert(live =~= Set::<int>::empty());
    } else {
        let shorter = nodes.drop_last();
        lemma_live_count(shorter);
        let fewer = Set::new(|i: int| 0 <= i < shorter.len() && shorter[i].active);
        if nodes.last().active {
            assert(live =~= fewer.insert(nodes.len() - 1));
        } else {
            assert(live =~= fewer);
        }
    }
}

/// The number of live nodes is that of the nodes that are live.
pub proof fn law_live_nodes_are_counted(store: NodeStore, count: u32)
    requires
        store.nodes().len() <= u32::MAX,
        call_ensures(NodeStore::active_count, (&store,), count),
    ensures
        ({
            let live = Set::new(|i: int| 0 <= i < store.nodes().len() && store.nodes()[i].active);
            live.finite() && count == live.len()
        }),
{
    lemma_live_count(store.nodes());
    lemma_live_bound(store.nodes());
}

proof fn lemma_live_bound(nodes: Seq<NodeView>)
    ensures
        live_nodes(nodes) <= nodes.len(),
    decreases nodes.len(),
{
    if nodes.len() > 0 {
        lemma_live_bound(nodes.drop_last());
    }
}

/// What is inserted into a table belongs to it, what is removed does not, and
/// nothing else changes.
pub proof fn law_tables_hold_what_was_inserted(
    inserted: &mut TableMembership,
    removed: &mut TableMembership,
    table: u32,
    node: u32,
    other_table: u32,
    other: u32,
    after_insert: bool,
    after_remove: bool,
)
    requires
        call_ensures(TableMembership::insert, (inserted, table, node), ()),
        call_ensures(TableMembership::remove, (removed, table, node), ()),
        call_ensures(
            TableMembership::contains,
            (final(inserted), other_table, other),
            after_insert,
        ),
        call_ensures(
            TableMembership::contains,
            (final(removed), other_table, other),
            after_remove,
        ),
    ensures
        after_insert <==> (other_table == table && other == node) || members(
            old(inserted)@,
            other_table,
        ).contains(other),
        after_remove <==> !(other_table == table && other == node) && members(
            old(removed)@,
            other_table,
        ).contains(other),
{
}

/// What is inserted into a tenant belongs to it, what is removed or cleared does
/// not, and nothing else changes.
pub proof fn law_tenants_hold_what_was_inserted(
    inserted: &mut TenantMembership,
    removed: &mut TenantMembership,
    cleared: &mut TenantMembership,
    tenant: &str,
    node: u32,
    other_tenant: &str,
    other: u32,
    after_insert: bool,
    after_remove: bool,
    after_clear: bool,
)
    requires
        call_ensures(TenantMembership::insert, (inserted, tenant, node), ()),
        call_ensures(TenantMembership::remove, (removed, tenant, node), ()),
        call_ensures(TenantMembership::clear, (cleared, tenant, node), ()),
        call_ensures(
            TenantMembership::contains,
            (final(inserted), other_tenant, other),
            after_insert,
        ),
        call_ensures(
            TenantMembership::contains,
            (final(removed), other_tenant, other),
            after_remove,
        ),
        call_ensures(
            TenantMembership::contains,
            (final(cleared), other_tenant, other),
            after_clear,
        ),
    ensures
        after_insert <==> (other_tenant@ == tenant@ && other == node) || members(
            old(inserted)@,
            other_tenant@,
        ).contains(other),
        after_remove <==> !(other_tenant@ == tenant@ && other == node) && members(
            old(removed)@,
            other_tenant@,
        ).contains(other),
        after_clear <==> !(other_tenant@ == tenant@ && other == node) && members(
            old(cleared)@,
            other_tenant@,
        ).contains(other),
{
}

/// Membership that the engine notes is what its tables and tenants tell, and
/// nothing else changes.
pub proof fn law_engine_notes_membership(
    tables: &mut Engine,
    tenants: &mut Engine,
    table: u32,
    tenant: &str,
    node: u32,
    other: u32,
    elsewhere: u32,
)
    requires
        call_ensures(Engine::insert_table_membership, (tables, table, node), ()),
        call_ensures(Engine::insert_tenant_membership, (tenants, tenant, node), ()),
    ensures
        members(final(tables).table_membership@, table).contains(node),
        members(final(tenants).tenant_membership@, tenant@).contains(node),
        other != node ==> members(final(tables).table_membership@, table).contains(other)
            == members(old(tables).table_membership@, table).contains(other),
        other != node ==> members(final(tenants).tenant_membership@, tenant@).contains(other)
            == members(old(tenants).tenant_membership@, tenant@).contains(other),
        elsewhere != table ==> members(final(tables).table_membership@, elsewhere) == members(
            old(tables).table_membership@,
            elsewhere,
        ),
        final(tables).node_store == old(tables).node_store,
        final(tenants).node_store == old(tenants).node_store,
{
}

/// Membership that the engine takes back is gone, and nothing else changes.
pub proof fn law_engine_takes_back_membership(
    tables: &mut Engine,
    tenants: &mut Engine,
    table: u32,
    tenant: &str,
    node: u32,
    other: u32,
    elsewhere: u32,
)
    requires
        call_ensures(Engine::remove_table_membership, (tables, table, node), ()),
        call_ensures(Engine::remove_tenant_membership, (tenants, tenant, node), ()),
    ensures
        !members(final(tables).table_membership@, table).contains(node),
        !members(final(tenants).tenant_membership@, tenant@).contains(node),
        other != node ==> members(final(tables).table_membership@, table).contains(other)
            == members(old(tables).table_membership@, table).contains(other),
        other != node ==> members(final(tenants).tenant_membership@, tenant@).contains(other)
            == members(old(tenants).tenant_membership@, tenant@).contains(other),
        elsewhere != table ==> members(final(tables).table_membership@, elsewhere) == members(
            old(tables).table_membership@,
            elsewhere,
        ),
{
}

proof fn lemma_live_tables(nodes: Seq<NodeView>, count: nat, table: u32, node: u32)
    requires
        count <= nodes.len(),
        nodes.len() <= u32::MAX,
    ensures
        members(live_tables(nodes, count), table).contains(node) <==> {
            &&& node < count
            &&& nodes[node as int].active
            &&& nodes[node as int].table_oid == table
        },
    decreases count,
{
    if count > 0 {
        lemma_live_tables(nodes, (count - 1) as nat, table, node);
    }
}

/// Tables that are collected anew hold exactly their live nodes.
pub proof fn law_rebuilt_tables_hold_live_nodes(engine: &mut Engine, table: u32, node: u32)
    requires
        old(engine).node_store.nodes().len() <= u32::MAX,
        call_ensures(Engine::rebuild_table_membership, (engine,), ()),
    ensures
        ({
            let nodes = old(engine).node_store.nodes();
            members(final(engine).table_membership@, table).contains(node) <==> {
                &&& node < nodes.len()
                &&& nodes[node as int].active
                &&& nodes[node as int].table_oid == table
            }
        }),
        final(engine).node_store == old(engine).node_store,
{
    let nodes = old(engine).node_store.nodes();
    lemma_live_tables(nodes, nodes.len(), table, node);
}

proof fn lemma_first_accepted(list: Seq<u32>, rule: spec_fn(u32) -> bool)
    ensures
        match first_accepted(list, rule) {
            Some(found) => rule(found) && exists|at: int|
                0 <= at < list.len() && list[at] == found && forall|i: int|
                    0 <= i < at ==> !rule(#[trigger] list[i]),
            None => forall|i: int| 0 <= i < list.len() ==> !rule(#[trigger] list[i]),
        },
    decreases list.len(),
{
    if list.len() > 0 && !rule(list[0]) {
        let rest = list.drop_first();
        lemma_first_accepted(rest, rule);
        match first_accepted(rest, rule) {
            Some(found) => {
                let at = choose|at: int|
                    0 <= at < rest.len() && rest[at] == found && forall|i: int|
                        0 <= i < at ==> !rule(#[trigger] rest[i]);
                assert(list[at + 1] == found);
                assert forall|i: int| 0 <= i < at + 1 implies !rule(#[trigger] list[i]) by {
                    if i > 0 {
                        assert(list[i] == rest[i - 1]);
                    }
                }
            },
            None => {
                assert forall|i: int| 0 <= i < list.len() implies !rule(#[trigger] list[i]) by {
                    if i > 0 {
                        assert(list[i] == rest[i - 1]);
                    }
                }
            },
        }
    } else if list.len() > 0 {
        assert(list[0] == first_accepted(list, rule)->Some_0);
    }
}

/// Resolving gives the first candidate that has the table and key, is live and
/// was not deleted by the running transaction; none if no candidate is such.
pub proof fn law_resolving_takes_the_first_candidate(
    engine: Engine,
    table: u32,
    key: &str,
    deleted: RoaringBitmap,
    found: Option<u32>,
)
    requires
        call_ensures(Engine::resolve, (&engine, table, key, &deleted), found),
    ensures
        ({
            let nodes = engine.node_store.nodes();
            let list = lookup_order(engine, table, key@);
            let wanted = |node: u32|
                {
                    &&& node < nodes.len()
                    &&& nodes[node as int].table_oid == table
                    &&& nodes[node as int].key == key@
                    &&& nodes[node as int].active
                    &&& !bitmap_contents(deleted).contains(node)
                };
            match found {
                Some(node) => wanted(node) && exists|at: int|
                    0 <= at < list.len() && list[at] == node && forall|i: int|
                        0 <= i < at ==> !wanted(#[trigger] list[i]),
                None => forall|i: int| 0 <= i < list.len() ==> !wanted(#[trigger] list[i]),
            }
        }),
{
    let nodes = engine.node_store.nodes();
    let list = lookup_order(engine, table, key@);
    let rule = |node: u32| is_node(nodes, node, table, key@, bitmap_contents(deleted));
    lemma_first_accepted(list, rule);
    if let Some(node) = found {
        let at = choose|at: int|
            0 <= at < list.len() && list[at] == node && forall|i: int|
                0 <= i < at ==> !rule(#[trigger] list[i]);
        assert forall|i: int| 0 <= i < at implies !is_node(
            nodes,
            #[trigger] list[i],
            table,
            key@,
            bitmap_contents(deleted),
        ) by {
            assert(!rule(list[i]));
        }
    } else {
        assert forall|i: int| 0 <= i < list.len() implies !is_node(
            nodes,
            #[trigger] list[i],
            table,
            key@,
            bitmap_contents(deleted),
        ) by {
            assert(!rule(list[i]));
        }
    }
}

/// The buffer of changes takes a change as long as its limit allows one more,
/// and keeps the earlier ones before it; a change that does not fit leaves the
/// buffer as it is, and the engine read-only.
pub proof fn law_buffer_takes_changes_in_turn(
    engine: &mut Engine,
    mutation: EdgeMutation,
    limit: usize,
    result: GraphResult<()>,
)
    requires
        limit < usize::MAX,
        call_ensures(Engine::push_edge_mutation, (engine, mutation, limit), result),
    ensures
        ({
            let (before, after) = (old(engine).edge_buffer@, final(engine).edge_buffer@);
            &&& result is Ok <==> before.len() < limit
            &&& result is Ok ==> {
                &&& after.len() == before.len() + 1
                &&& after[before.len() as int] == mutation
                &&& forall|i: int| 0 <= i < before.len() ==> #[trigger] after[i] == before[i]
                &&& final(engine).needs_vacuum
                &&& final(engine).is_read_only == old(engine).is_read_only
            }
            &&& result is Err ==> {
                &&& after == before
                &&& final(engine).is_read_only
                &&& final(engine).read_only_reason == Some(ReadOnlyReason::EdgeBufferFull)
                &&& final(engine).sync_status == SyncStatus::ReadOnly
            }
        }),
{
}

/// An engine that rejects changes stays so: neither the begin nor the end of a
/// sync changes its status. One that does not tells that it is syncing, or idle.
pub proof fn law_read_only_stays(begun: &mut Engine, ended: &mut Engine)
    requires
        call_ensures(Engine::mark_syncing, (begun,), ()),
        call_ensures(Engine::mark_idle_if_writable, (ended,), ()),
    ensures
        final(begun).is_read_only == old(begun).is_read_only,
        final(ended).is_read_only == old(ended).is_read_only,
        old(begun).is_read_only ==> final(begun).sync_status == old(begun).sync_status,
        old(ended).is_read_only ==> final(ended).sync_status == old(ended).sync_status,
        !old(begun).is_read_only ==> final(begun).sync_status == SyncStatus::Syncing,
        !old(ended).is_read_only ==> final(ended).sync_status == SyncStatus::Idle,
{
}

/// A registered label has a number, the same from then on, and as long as bytes
/// can number the labels that number is its place; labels that were registered
/// before keep their places, and no label is registered twice.
pub proof fn law_registered_label_keeps_its_number(
    engine: &mut Engine,
    label: &str,
    result: GraphResult<u8>,
    later: Option<u8>,
)
    requires
        call_ensures(Engine::register_edge_type, (engine, label), result),
        call_ensures(Engine::edge_type_id, (final(engine), label), later),
    ensures
        ({
            let before = label_views(old(engine).edge_type_registry@);
            let after = label_views(final(engine).edge_type_registry@);
            &&& result is Ok <==> before.contains(label@) || before.len() < 255
            &&& result matches Ok(id) ==> {
                &&& later == Some(id)
                &&& after.len() <= 256 ==> id < after.len() && after[id as int] == label@
                &&& before.len() <= after.len()
                &&& forall|i: int| 0 <= i < before.len() ==> #[trigger] after[i] == before[i]
                &&& before.contains(label@) ==> after.len() == before.len()
                &&& !before.contains(label@) ==> after.len() == before.len() + 1
            }
            &&& result is Err ==> after == before && later is None
        }),
{
    let before = label_views(old(engine).edge_type_registry@);
    let after = label_views(final(engine).edge_type_registry@);
    if result is Ok {
        assert(after.contains(label@)) by {
            if !before.contains(label@) {
                assert(after[before.len() as int] == label@);
            }
        }
        after.index_of_first_ensures(label@);
    }
}

/// What an observation of the catalog finds. Only the schema's state, its reason
/// and what was observed change. A built graph's schema is invalid, and must be
/// rebuilt, if the catalog could not be checked, gives a reason, or has another
/// fingerprint than the one that was built from. Else disabled triggers make a
/// current schema stale, and nothing changes otherwise.
pub proof fn law_observation_judges_the_schema(
    engine: &mut Engine,
    disabled: i32,
    pending: i64,
    catalog: &Result<(u64, Option<String>), String>,
)
    requires
        call_ensures(Engine::refresh_observed_state, (engine, disabled, pending, catalog), ()),
    ensures
        ({
            let bad = old(engine).built && match *catalog {
                Err(_) => true,
                Ok((print, reason)) => reason is Some || match old(engine).catalog_fingerprint {
                    Some(known) => known != print,
                    None => false,
                },
            };
            &&& final(engine).disabled_trigger_count == disabled
            &&& final(engine).pending_sync_rows == pending
            &&& final(engine).built == old(engine).built
            &&& final(engine).node_store == old(engine).node_store
            &&& final(engine).catalog_fingerprint == old(engine).catalog_fingerprint
            &&& bad ==> final(engine).schema_state == SchemaState::Invalid && final(engine).needs_rebuild && final(engine).invalid_reason is Some
            &&& !bad ==> final(engine).needs_rebuild == old(engine).needs_rebuild
            &&& !bad && disabled > 0 && old(engine).schema_state == SchemaState::Current
                ==> final(engine).schema_state == SchemaState::Stale
            &&& !bad && (disabled <= 0 || old(engine).schema_state != SchemaState::Current)
                ==> final(engine).schema_state == old(engine).schema_state && final(engine).invalid_reason == old(engine).invalid_reason
        }),
{
}

/// A node that is entered under its table and key can be resolved by them from
/// then on, as long as it is live and not deleted; the nodes do not change.
pub proof fn law_entered_node_resolves(
    engine: &mut Engine,
    table: u32,
    key: &str,
    node: u32,
    deleted: RoaringBitmap,
    found: Option<u32>,
)
    requires
        ({
            let nodes = old(engine).node_store.nodes();
            &&& node < nodes.len()
            &&& nodes[node as int].active
            &&& nodes[node as int].table_oid == table
            &&& nodes[node as int].key == key@
            &&& !bitmap_contents(deleted).contains(node)
        }),
        call_ensures(Engine::resolution_insert, (engine, table, key, node), ()),
        call_ensures(Engine::resolve, (final(engine), table, key, &deleted), found),
    ensures
        final(engine).node_store == old(engine).node_store,
        ({
            let nodes = final(engine).node_store.nodes();
            found matches Some(other) && other < nodes.len() && nodes[other as int].active
                && nodes[other as int].table_oid == table && nodes[other as int].key == key@
        }),
{
    law_inserted_node_is_known(*old(engine), *final(engine), table, key@, node);
    law_known_node_resolves(*final(engine), table, key@, bitmap_contents(deleted), node);
}

/// Resolving an identity gives the first candidate that has the table and key,
/// live or not; none if no candidate has them.
pub proof fn law_resolving_an_identity_takes_the_first_candidate(
    engine: Engine,
    table: u32,
    key: &str,
    found: Option<u32>,
)
    requires
        call_ensures(Engine::resolve_identity, (&engine, table, key), found),
    ensures
        ({
            let nodes = engine.node_store.nodes();
            let list = lookup_order(engine, table, key@);
            let wanted = |node: u32|
                {
                    &&& node < nodes.len()
                    &&& nodes[node as int].table_oid == table
                    &&& nodes[node as int].key == key@
                };
            match found {
                Some(node) => wanted(node) && exists|at: int|
                    0 <= at < list.len() && list[at] == node && forall|i: int|
                        0 <= i < at ==> !wanted(#[trigger] list[i]),
                None => forall|i: int| 0 <= i < list.len() ==> !wanted(#[trigger] list[i]),
            }
        }),
{
    let nodes = engine.node_store.nodes();
    let list = lookup_order(engine, table, key@);
    let rule = |node: u32| has_identity(nodes, node, table, key@);
    lemma_first_accepted(list, rule);
    if let Some(node) = found {
        let at = choose|at: int|
            0 <= at < list.len() && list[at] == node && forall|i: int|
                0 <= i < at ==> !rule(#[trigger] list[i]);
        assert forall|i: int| 0 <= i < at implies !has_identity(
            nodes,
            #[trigger] list[i],
            table,
            key@,
        ) by {
            assert(!rule(list[i]));
        }
    } else {
        assert forall|i: int| 0 <= i < list.len() implies !has_identity(
            nodes,
            #[trigger] list[i],
            table,
            key@,
        ) by {
            assert(!rule(list[i]));
        }
    }
}

/// What was entered later is tried earlier: of the entries that were added to a
/// finished index, the last one with a table and key is the first candidate.
pub proof fn law_later_entries_are_tried_first(
    engine: Engine,
    table: u32,
    key: Seq<char>,
)
    requires
        engine.resolution_delta.entries@.len() > 0,
        engine.resolution_delta.entries@.last().table_oid == table,
        engine.resolution_delta.entries@.last().pk_hash == key_hash(encode_utf8(key)),
    ensures
        lookup_order(engine, table, key).len() > 0,
        lookup_order(engine, table, key)[0] == engine.resolution_delta.entries@.last().node_idx,
{
    let entries = engine.resolution_delta.entries@;
    let hash = key_hash(encode_utf8(key));
    let own = crate::resolution::matching(entries, table, hash);
    assert(own.last() == entries.last().node_idx);
    assert(own.reverse()[0] == own.last());
}

} // verus!
