//! What a status tells of an engine and of a transaction's changes.
use vstd::prelude::*;

use crate::bitmap::bitmap_contents;
use crate::engine::Engine;
use crate::engine_status::{deletions, profile_of, EngineStatus, MemoryProfile, StatusSettings};
use crate::overlay::{EdgeMutation, TxDelta};

verus! {

/// The places of the buffered mutations that delete an edge.
pub open spec fn deleting(mutations: Seq<EdgeMutation>) -> Set<int> {
    Set::new(|i: int| 0 <= i < mutations.len() && mutations[i].kind is Delete)
}

proof fn lemma_deletions(mutations: Seq<EdgeMutation>, count: nat)
    requires
        count <= mutations.len(),
    ensures
        ({
            let some = Set::new(|i: int| 0 <= i < count && mutations[i].kind is Delete);
            some.finite() && some.len() == deletions(mutations, count)
        }),
        deletions(mutations, count) <= count,
    decreases count,
{
    let some = Set::new(|i: int| 0 <= i < count && mutations[i].kind is Delete);
    if count == 0 {
        assert(some =~= Set::<int>::empty());
    } else {
        lemma_deletions(mutations, (count - 1) as nat);
        let fewer = Set::new(|i: int| 0 <= i < count - 1 && mutations[i].kind is Delete);
        if mutations[count - 1].kind is Delete {
            assert(some =~= fewer.insert(count - 1));
        } else {
            assert(mutations[count - 1].kind is Insert);
            assert(some =~= fewer);
        }
    }
}

/// A status tells the engine's own state: its nodes and edges, its registered
/// labels but the first, its buffer, its marks and its durable projection.
pub proof fn law_status_tells_the_engine(
    engine: Engine,
    delta: TxDelta,
    settings: StatusSettings,
    used: usize,
    buffer: usize,
    status: EngineStatus,
    label: int,
)
    requires
        call_ensures(
            Engine::status_with_memory,
            (&engine, &delta, settings, used, buffer),
            status,
        ),
        engine.edge_type_registry@.len() >= 1,
    ensures
        engine.node_store.nodes().len() <= i32::MAX ==> status.node_count
            == engine.node_store.nodes().len(),
        engine.edge_store.count() <= i32::MAX ==> status.edge_count == engine.edge_store.count(),
        engine.edge_buffer@.len() <= i32::MAX ==> status.edge_buffer_used
            == engine.edge_buffer@.len(),
        status.edge_types@.len() == engine.edge_type_registry@.len() - 1,
        0 <= label < status.edge_types@.len() ==> status.edge_types@[label]@
            == engine.edge_type_registry@[label + 1]@,
        status.memory_used_bytes == used,
        status.memory_limit_mb == settings.memory_limit_mb,
        status.sync_mode@ == settings.sync_mode@,
        status.sync_status == engine.sync_status,
        status.last_build == engine.last_build,
        status.last_vacuum == engine.last_vacuum,
        status.has_unidirectional_edges == engine.has_unidirectional_edges,
        status.applied_sync_id == engine.applied_sync_id,
        status.pending_sync_rows == engine.pending_sync_rows,
        status.sync_lag == engine.pending_sync_rows,
        status.needs_vacuum == engine.needs_vacuum,
        status.needs_rebuild == engine.needs_rebuild,
        status.schema_state == engine.schema_state,
        status.invalid_reason is Some <==> engine.invalid_reason is Some,
        engine.invalid_reason matches Some(reason) ==> status.invalid_reason->Some_0@ == reason@,
        status.disabled_trigger_count == engine.disabled_trigger_count,
        status.read_only == engine.is_read_only,
        status.read_only_reason == engine.read_only_reason,
        status.projection_mode == engine.projection_mode,
        status.build_resource_peak_phase == engine.build_resource_peak_phase,
        engine.build_resource_budget_bytes <= i64::MAX ==> status.build_resource_budget_bytes
            == engine.build_resource_budget_bytes,
        engine.build_resource_peak_bytes <= i64::MAX ==> status.build_resource_peak_bytes
            == engine.build_resource_peak_bytes,
        engine.build_resource_pressure_events <= i64::MAX ==> status.build_resource_pressure_events
            == engine.build_resource_pressure_events,
        engine.projection_manifest is None ==> status.base_manifest_generation is None
            && status.base_manifest_sync_watermark is None,
        engine.projection_manifest matches Some(manifest) ==> {
            &&& status.base_manifest_sync_watermark == Some(manifest.sync_watermark)
            &&& manifest.generation_id <= i64::MAX ==> status.base_manifest_generation == Some(
                manifest.generation_id as i64,
            )
        },
{
    let labels = crate::scan_edges::label_views(status.edge_types@);
    let registry = crate::scan_edges::label_views(engine.edge_type_registry@);
    assert(labels.len() == registry.len() - 1);
    if 0 <= label < labels.len() {
        assert(labels[label] == registry.skip(1)[label]);
    }
}

/// A status tells a transaction's changes: how many nodes and edges it adds and
/// deletes, whether there are any, and, with the deletions that are buffered, how
/// many tombstones there are. Compaction is recommended when it was asked for,
/// when the buffer or its deletions reach the threshold, or when the buffer's
/// bytes reach theirs.
pub proof fn law_status_tells_the_changes(
    engine: Engine,
    delta: TxDelta,
    settings: StatusSettings,
    used: usize,
    buffer: usize,
    status: EngineStatus,
)
    requires
        call_ensures(
            Engine::status_with_memory,
            (&engine, &delta, settings, used, buffer),
            status,
        ),
        bitmap_contents(delta.deleted_nodes).finite(),
    ensures
        ({
            let gone = bitmap_contents(delta.deleted_nodes).len();
            let buffered = deleting(engine.edge_buffer@).len();
            let (added, deleted) = (delta.inserted@.len(), delta.deleted@.len());
            let all = buffered + gone + deleted;
            &&& added <= i32::MAX ==> status.tx_delta_added_edges == added
            &&& deleted <= i32::MAX ==> status.tx_delta_deleted_edges == deleted
            &&& gone <= i32::MAX ==> status.tx_delta_deleted_nodes == gone
            &&& delta.added_node_count <= i32::MAX ==> status.tx_delta_added_nodes
                == delta.added_node_count
            &&& delta.memory_bytes <= i64::MAX ==> status.tx_delta_memory_bytes
                == delta.memory_bytes
            &&& status.tx_delta_dirty <==> added + deleted + gone + delta.added_node_count > 0
            &&& all <= i32::MAX ==> status.overlay_tombstone_count == all
            &&& delta.memory_bytes + buffer <= i64::MAX && delta.memory_bytes + buffer
                <= usize::MAX ==> status.overlay_memory_bytes == delta.memory_bytes + buffer
            &&& status.compaction_recommended <==> {
                ||| engine.needs_vacuum
                ||| engine.edge_buffer@.len() >= settings.compaction_threshold
                ||| buffer >= settings.max_overlay_memory_bytes
            }
        }),
{
    lemma_deletions(engine.edge_buffer@, engine.edge_buffer@.len());
    assert(deleting(engine.edge_buffer@) =~= Set::new(
        |i: int| 0 <= i < engine.edge_buffer@.len() && engine.edge_buffer@[i].kind is Delete,
    ));
}

/// An instance takes as many times the bytes of one backend as it has backends,
/// and it has at least one.
pub proof fn law_instance_takes_its_backends(
    bytes: usize,
    backends: i32,
    limit: i32,
    profile: MemoryProfile,
)
    requires
        call_ensures(profile_of, (bytes, backends, limit), profile),
    ensures
        profile.assumed_concurrent_backends >= 1,
        backends >= 1 ==> profile.assumed_concurrent_backends == backends,
        backends < 1 ==> profile.assumed_concurrent_backends == 1,
        profile.active_backend_private_bytes == bytes,
        profile.active_backend_total_bytes == bytes,
        bytes * profile.assumed_concurrent_backends <= usize::MAX
            ==> profile.estimated_instance_private_bytes == bytes
            * profile.assumed_concurrent_backends,
        bytes * profile.assumed_concurrent_backends > usize::MAX
            ==> profile.estimated_instance_private_bytes == usize::MAX,
        profile.estimated_instance_total_bytes == profile.estimated_instance_private_bytes,
        profile.memory_limit_mb == limit,
        profile.active_backend_shared_bytes == 0 && profile.estimated_instance_shared_bytes == 0,
{
}

} // verus!
