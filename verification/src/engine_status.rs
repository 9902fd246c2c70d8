//! What the engine tells about itself: its state, and the memory it takes.
use vstd::prelude::*;

use crate::bitmap::bitmap_contents;
use crate::edge_store::rows_needs;
use crate::engine::{Engine, ReadOnlyReason, ResolutionStore, SchemaState, SyncStatus};
use crate::filter_index::{index_needs, FilterIndex};
use crate::layered::LayeredSnapshot;
use crate::limits::{
    bounded_product, bounded_sum, lemma_product_grows, product, sum, vector_capacity,
};
use crate::overlay::{EdgeMutation, MutationKind, TxDelta};
use crate::persisted_build::ProjectionMode;
use crate::resolution::{ResolutionEntry, ResolutionIndexBuilder};
use crate::resource::ResourcePhase;
use crate::rooms::{
    adds, have_room, lemma_adds, lemma_adds_nothing, lemma_adds_room, lemma_total_grows, push_list,
    push_text_list, room_views, text_list_needs, total_bytes, total_of, Need, Room,
};
use crate::scan_edges::label_views;
use crate::types::optional_text;

verus! {

/// The lesser of a number and the greatest `i32`.
pub open spec fn at_most_i32(value: int) -> int {
    if value <= i32::MAX {
        value
    } else {
        i32::MAX as int
    }
}

/// The lesser of a number and the greatest `i64`.
pub open spec fn at_most_i64(value: int) -> int {
    if value <= i64::MAX {
        value
    } else {
        i64::MAX as int
    }
}

fn clamp_i32(value: usize) -> (clamped: i32)
    ensures
        clamped == at_most_i32(value as int),
{
    if value <= i32::MAX as usize {
        value as i32
    } else {
        i32::MAX
    }
}

fn clamp_i64(value: u64) -> (clamped: i64)
    ensures
        clamped == at_most_i64(value as int),
{
    if value <= i64::MAX as u64 {
        value as i64
    } else {
        i64::MAX
    }
}

/// How many of the first mutations delete an edge.
pub open spec fn deletions(mutations: Seq<EdgeMutation>, count: nat) -> nat
    decreases count,
{
    if count == 0 {
        0
    } else {
        deletions(mutations, (count - 1) as nat) + if mutations[count - 1].kind
            == MutationKind::Delete {
            1nat
        } else {
            0nat
        }
    }
}

/// Settings that a status depends on.
#[derive(Debug)]
pub struct StatusSettings {
    pub memory_limit_mb: i32,
    /// How changes of the tables reach the graph.
    pub sync_mode: String,
    /// Pending changes from which on compaction is recommended.
    pub compaction_threshold: usize,
    /// Overlay bytes from which on compaction is recommended.
    pub max_overlay_memory_bytes: usize,
}

/// The state of an engine, for its users.
#[derive(Debug)]
pub struct EngineStatus {
    pub node_count: i32,
    pub edge_count: i32,
    pub memory_used_bytes: usize,
    pub memory_limit_mb: i32,
    pub sync_mode: String,
    pub sync_status: SyncStatus,
    pub last_build: Option<i64>,
    pub last_vacuum: Option<i64>,
    pub edge_types: Vec<String>,
    pub edge_buffer_used: i32,
    pub has_unidirectional_edges: bool,
    pub applied_sync_id: i64,
    pub pending_sync_rows: i64,
    pub sync_lag: i64,
    pub needs_vacuum: bool,
    pub needs_rebuild: bool,
    pub schema_state: SchemaState,
    pub invalid_reason: Option<String>,
    pub disabled_trigger_count: i32,
    pub read_only: bool,
    pub read_only_reason: Option<ReadOnlyReason>,
    pub projection_mode: ProjectionMode,
    pub build_resource_budget_bytes: i64,
    pub build_resource_peak_bytes: i64,
    pub build_resource_peak_phase: Option<ResourcePhase>,
    pub build_resource_pressure_events: i64,
    pub base_manifest_generation: Option<i64>,
    pub base_manifest_sync_watermark: Option<i64>,
    pub overlay_tombstone_count: i32,
    pub overlay_memory_bytes: i64,
    pub compaction_recommended: bool,
    pub tx_delta_dirty: bool,
    pub tx_delta_added_nodes: i32,
    pub tx_delta_deleted_nodes: i32,
    pub tx_delta_added_edges: i32,
    pub tx_delta_deleted_edges: i32,
    pub tx_delta_memory_bytes: i64,
}

/// Whether a transaction has changes.
pub open spec fn delta_dirty(delta: TxDelta) -> bool {
    delta.inserted@.len() > 0 || delta.deleted@.len() > 0 || bitmap_contents(
        delta.deleted_nodes,
    ).len() > 0 || delta.added_node_count > 0
}

/// Whether a status is that of an engine whose edge buffer has allocated some
/// bytes.
pub open spec fn is_status(
    engine: Engine,
    delta: TxDelta,
    settings: StatusSettings,
    memory_used_bytes: usize,
    buffer_bytes: usize,
    status: EngineStatus,
) -> bool {
    let buffered = deletions(engine.edge_buffer@, engine.edge_buffer@.len());
    let deleted_nodes = bitmap_contents(delta.deleted_nodes).len();
    let tombstones = bounded_sum(
        buffered,
        bounded_sum(deleted_nodes, delta.deleted@.len()),
    );
    &&& status.node_count == engine.node_store.nodes().len() as u32 as i32
    &&& status.edge_count == engine.edge_store.count() as u32 as i32
    &&& status.memory_used_bytes == memory_used_bytes
    &&& status.memory_limit_mb == settings.memory_limit_mb
    &&& status.sync_mode == settings.sync_mode
    &&& status.sync_status == engine.sync_status
    &&& status.last_build == engine.last_build
    &&& status.last_vacuum == engine.last_vacuum
    &&& label_views(status.edge_types@) == label_views(engine.edge_type_registry@).skip(1)
    &&& status.edge_buffer_used == engine.edge_buffer@.len() as usize as i32
    &&& status.has_unidirectional_edges == engine.has_unidirectional_edges
    &&& status.applied_sync_id == engine.applied_sync_id
    &&& status.pending_sync_rows == engine.pending_sync_rows
    &&& status.sync_lag == engine.pending_sync_rows
    &&& status.needs_vacuum == engine.needs_vacuum
    &&& status.needs_rebuild == engine.needs_rebuild
    &&& status.schema_state == engine.schema_state
    &&& optional_text(status.invalid_reason) == optional_text(engine.invalid_reason)
    &&& status.disabled_trigger_count == engine.disabled_trigger_count
    &&& status.read_only == engine.is_read_only
    &&& status.read_only_reason == engine.read_only_reason
    &&& status.projection_mode == engine.projection_mode
    &&& status.build_resource_budget_bytes == at_most_i64(engine.build_resource_budget_bytes as int)
    &&& status.build_resource_peak_bytes == at_most_i64(engine.build_resource_peak_bytes as int)
    &&& status.build_resource_peak_phase == engine.build_resource_peak_phase
    &&& status.build_resource_pressure_events == at_most_i64(
        engine.build_resource_pressure_events as int,
    )
    &&& status.base_manifest_sync_watermark == match engine.projection_manifest {
        Some(manifest) => Some(manifest.sync_watermark),
        None => None,
    }
    &&& status.base_manifest_generation == match engine.projection_manifest {
        Some(manifest) => if manifest.generation_id <= i64::MAX {
            Some(manifest.generation_id as i64)
        } else {
            None
        },
        None => None,
    }
    &&& status.overlay_tombstone_count == at_most_i32(tombstones as int)
    &&& status.overlay_memory_bytes == at_most_i64(
        bounded_sum(delta.memory_bytes as nat, buffer_bytes as nat) as int,
    )
    &&& status.compaction_recommended == (engine.needs_vacuum || engine.edge_buffer@.len()
        >= settings.compaction_threshold || buffered >= settings.compaction_threshold
        || buffer_bytes >= settings.max_overlay_memory_bytes)
    &&& status.tx_delta_dirty == delta_dirty(delta)
    &&& status.tx_delta_added_nodes == at_most_i32(delta.added_node_count as int)
    &&& status.tx_delta_deleted_nodes == at_most_i32(deleted_nodes as int)
    &&& status.tx_delta_added_edges == at_most_i32(delta.inserted@.len() as int)
    &&& status.tx_delta_deleted_edges == at_most_i32(delta.deleted@.len() as int)
    &&& status.tx_delta_memory_bytes == at_most_i64(delta.memory_bytes as int)
}

impl Engine {
    /// How many buffered mutations delete an edge.
    fn buffered_deletions(&self) -> (count: usize)
        ensures
            count == deletions(self.edge_buffer@, self.edge_buffer@.len()),
            count <= self.edge_buffer@.len(),
    {
        let mut count: usize = 0;
        let mut at: usize = 0;
        while at < self.edge_buffer.len()
            invariant
                at <= self.edge_buffer@.len(),
                count <= at,
                count == deletions(self.edge_buffer@, at as nat),
            decreases self.edge_buffer@.len() - at,
        {
            if self.edge_buffer[at].kind == MutationKind::Delete {
                count = count + 1;
            }
            at = at + 1;
        }
        count
    }

    /// The registered labels after the empty one.
    fn named_edge_types(&self) -> (labels: Vec<String>)
        requires
            self.edge_type_registry@.len() >= 1,
        ensures
            label_views(labels@) == label_views(self.edge_type_registry@).skip(1),
    {
        let mut labels: Vec<String> = Vec::new();
        let mut at: usize = 1;
        while at < self.edge_type_registry.len()
            invariant
                1 <= at <= self.edge_type_registry@.len(),
                labels@.len() == at - 1,
                forall|i: int|
                    0 <= i < labels@.len() ==> (#[trigger] labels@[i])@
                        == self.edge_type_registry@[i + 1]@,
            decreases self.edge_type_registry@.len() - at,
        {
            labels.push(self.edge_type_registry[at].clone());
            at = at + 1;
        }
        assert(label_views(labels@) =~= label_views(self.edge_type_registry@).skip(1));
        labels
    }

    /// The state of the engine, where its memory and what its edge buffer has
    /// allocated are known.
    pub fn status_with_memory(
        &self,
        delta: &TxDelta,
        settings: StatusSettings,
        memory_used_bytes: usize,
        buffer_bytes: usize,
    ) -> (status: EngineStatus)
        requires
            self.wf(),
        ensures
            is_status(*self, *delta, settings, memory_used_bytes, buffer_bytes, status),
    {
        let buffered: usize = self.buffered_deletions();
        let removed: u64 = delta.deleted_nodes.len();
        let removed_nodes: usize = if removed <= usize::MAX as u64 {
            removed as usize
        } else {
            usize::MAX
        };
        let tombstones: usize = sum(buffered, sum(removed_nodes, delta.deleted.len()));
        let overlay_bytes: usize = sum(delta.memory_bytes, buffer_bytes);
        let (generation, watermark): (Option<i64>, Option<i64>) =
            self.base_projection_manifest_status();
        EngineStatus {
            node_count: #[verifier::truncate]
            (self.node_store.node_count() as i32),
            edge_count: #[verifier::truncate]
            (self.edge_store.edge_count() as i32),
            memory_used_bytes,
            memory_limit_mb: settings.memory_limit_mb,
            sync_mode: settings.sync_mode,
            sync_status: self.sync_status,
            last_build: self.last_build,
            last_vacuum: self.last_vacuum,
            edge_types: self.named_edge_types(),
            edge_buffer_used: #[verifier::truncate]
            (self.edge_buffer.len() as i32),
            has_unidirectional_edges: self.has_unidirectional_edges,
            applied_sync_id: self.applied_sync_id,
            pending_sync_rows: self.pending_sync_rows,
            sync_lag: self.pending_sync_rows,
            needs_vacuum: self.needs_vacuum,
            needs_rebuild: self.needs_rebuild,
            schema_state: self.schema_state,
            invalid_reason: match &self.invalid_reason {
                Some(reason) => Some(reason.clone()),
                None => None,
            },
            disabled_trigger_count: self.disabled_trigger_count,
            read_only: self.is_read_only,
            read_only_reason: self.read_only_reason,
            projection_mode: self.projection_mode,
            build_resource_budget_bytes: clamp_i64(self.build_resource_budget_bytes),
            build_resource_peak_bytes: clamp_i64(self.build_resource_peak_bytes),
            build_resource_peak_phase: self.build_resource_peak_phase,
            build_resource_pressure_events: clamp_i64(self.build_resource_pressure_events),
            base_manifest_generation: generation,
            base_manifest_sync_watermark: watermark,
            overlay_tombstone_count: clamp_i32(tombstones),
            overlay_memory_bytes: clamp_i64(overlay_bytes as u64),
            compaction_recommended: self.needs_vacuum || self.edge_buffer.len()
                >= settings.compaction_threshold || buffered >= settings.compaction_threshold
                || buffer_bytes >= settings.max_overlay_memory_bytes,
            tx_delta_dirty: delta.inserted.len() > 0 || delta.deleted.len() > 0 || removed > 0
                || delta.added_node_count > 0,
            tx_delta_added_nodes: clamp_i32(delta.added_node_count),
            tx_delta_deleted_nodes: clamp_i32(removed_nodes),
            tx_delta_added_edges: clamp_i32(delta.inserted.len()),
            tx_delta_deleted_edges: clamp_i32(delta.deleted.len()),
            tx_delta_memory_bytes: clamp_i64(delta.memory_bytes as u64),
        }
    }
}

/// What stored resolution entries take.
pub open spec fn stored_needs(store: ResolutionStore) -> Seq<Need> {
    match store {
        ResolutionStore::Builder(builder) => seq![
            Need::Items {
                count: builder.entries@.len(),
                unit: vstd::layout::size_of::<ResolutionEntry>(),
            },
        ],
        ResolutionStore::Finalized(bytes) => seq![
            Need::Items { count: bytes@.len(), unit: vstd::layout::size_of::<u8>() },
        ],
        ResolutionStore::MmapBacked(_) => Seq::empty(),
    }
}

/// What the resolution entries take.
pub open spec fn resolution_needs(store: ResolutionStore, delta: ResolutionIndexBuilder) -> Seq<
    Need,
> {
    stored_needs(store) + seq![
        Need::Items {
            count: delta.entries@.len(),
            unit: vstd::layout::size_of::<ResolutionEntry>(),
        },
    ]
}

/// What the edges of a projection's snapshot take.
pub open spec fn snapshot_needs(snapshot: Option<LayeredSnapshot>) -> Seq<Need> {
    match snapshot {
        Some(snapshot) => rows_needs(snapshot.forward.rows()) + rows_needs(snapshot.reverse.rows()),
        None => Seq::empty(),
    }
}

/// What an engine has to hold, allocation by allocation: its stores, its
/// resolution entries, its registry and edge buffer, its memberships, and the
/// projection's snapshot.
pub open spec fn engine_needs(engine: Engine) -> Seq<Need> {
    engine.node_store.needs() + rows_needs(engine.edge_store.rows()) + rows_needs(
        engine.reverse_edge_store.rows(),
    ) + index_needs(engine.filter_index) + engine.relationship_identities.needs()
        + resolution_needs(engine.resolution_store, engine.resolution_delta) + text_list_needs(
        engine.edge_type_registry@,
    ) + seq![
        Need::Items {
            count: engine.edge_buffer@.len(),
            unit: vstd::layout::size_of::<EdgeMutation>(),
        },
    ] + engine.table_membership.needs() + engine.tenant_membership.needs() + seq![
        Need::Bytes {
            bytes: bounded_product(
                bitmap_contents(engine.tenanted_table_oids).len(),
                vstd::layout::size_of::<u32>(),
            ),
        },
    ] + snapshot_needs(engine.projection_snapshot)
}

/// Bytes that a graph takes by its counts: four and thirty-two bytes and a bit
/// for each node, an offset row and the edges both ways, a resolution entry for
/// each node, the filters and the edge buffer.
pub open spec fn logical_bytes(engine: Engine, filter_bytes: nat) -> nat {
    let nodes = engine.node_store.nodes().len();
    let each = if engine.edge_store.is_weighted() {
        9nat
    } else {
        5nat
    };
    nodes * 36 + (nodes + 7) / 8 + ((nodes + 1) * 4 + engine.edge_store.count() * each) + ((nodes
        + 1) * 4 + engine.reverse_edge_store.count() * each) + nodes * 16 + filter_bytes
        + engine.edge_buffer@.len() * vstd::layout::size_of::<EdgeMutation>()
}

/// Bytes that the artifact of an engine takes.
pub open spec fn mapped_bytes(engine: Engine) -> nat {
    match engine.mmap {
        Some(mapped) => mapped@.len(),
        None => bounded_sum(
            engine.node_store.mapped_bytes() as nat,
            match engine.resolution_store {
                ResolutionStore::MmapBacked(state) => state.len as nat,
                _ => 0,
            },
        ),
    }
}

/// Bytes of an engine: the greater of what it owns and maps, and of what its
/// counts make.
pub open spec fn memory_used(engine: Engine, owned: nat, filters: nat) -> nat {
    let held = bounded_sum(owned, mapped_bytes(engine));
    let logical = bounded_sum(logical_bytes(engine, filters), 0);
    if held > logical {
        held
    } else {
        logical
    }
}

/// Whether some bytes are those of allocations that have room for what a
/// filter index has to hold.
pub open spec fn is_filter_estimate(index: FilterIndex, bytes: usize) -> bool {
    exists|have: Seq<Need>| #[trigger]
        have_room(have, index_needs(index)) && bytes == total_of(have)
}

/// Memory of an engine, and of an instance that runs it in several backends.
#[derive(Debug, Clone, Copy, PartialEq, Eq, Structural)]
pub struct MemoryProfile {
    pub active_backend_private_bytes: usize,
    pub active_backend_shared_bytes: usize,
    pub active_backend_total_bytes: usize,
    pub estimated_instance_private_bytes: usize,
    pub estimated_instance_shared_bytes: usize,
    pub estimated_instance_total_bytes: usize,
    pub memory_limit_mb: i32,
    pub assumed_concurrent_backends: i32,
}

/// The memory of an instance whose backends take some bytes each. Nothing is
/// shared, and there is at least one backend.
pub fn profile_of(private_bytes: usize, concurrent_backends: i32, memory_limit_mb: i32) -> (profile:
    MemoryProfile)
    ensures
        ({
            let backends = if concurrent_backends < 1 {
                1nat
            } else {
                concurrent_backends as nat
            };
            let instance = bounded_product(private_bytes as nat, backends);
            &&& profile.active_backend_private_bytes == private_bytes
            &&& profile.active_backend_shared_bytes == 0
            &&& profile.active_backend_total_bytes == private_bytes
            &&& profile.estimated_instance_private_bytes == instance
            &&& profile.estimated_instance_shared_bytes == 0
            &&& profile.estimated_instance_total_bytes == instance
            &&& profile.memory_limit_mb == memory_limit_mb
            &&& profile.assumed_concurrent_backends == backends
        }),
{
    let backends: i32 = if concurrent_backends < 1 {
        1
    } else {
        concurrent_backends
    };
    let instance: usize = product(private_bytes, backends as usize);
    MemoryProfile {
        active_backend_private_bytes: private_bytes,
        active_backend_shared_bytes: 0,
        active_backend_total_bytes: private_bytes,
        estimated_instance_private_bytes: instance,
        estimated_instance_shared_bytes: 0,
        estimated_instance_total_bytes: instance,
        memory_limit_mb,
        assumed_concurrent_backends: backends,
    }
}

impl Engine {
    /// Adds the room of the resolution entries.
    fn push_resolution(&self, rooms: &mut Vec<Room>)
        ensures
            adds(
                old(rooms)@,
                final(rooms)@,
                resolution_needs(self.resolution_store, self.resolution_delta),
            ),
    {
        let ghost start = rooms@;
        match &self.resolution_store {
            ResolutionStore::Builder(builder) => {
                push_list(rooms, &builder.entries);
            },
            ResolutionStore::Finalized(bytes) => {
                push_list(rooms, bytes);
            },
            ResolutionStore::MmapBacked(_) => {
                proof {
                    lemma_adds_nothing(start);
                }
            },
        }
        let ghost middle = rooms@;
        push_list(rooms, &self.resolution_delta.entries);
        proof {
            lemma_adds(
                start,
                middle,
                rooms@,
                stored_needs(self.resolution_store),
                seq![
                    Need::Items {
                        count: self.resolution_delta.entries@.len(),
                        unit: vstd::layout::size_of::<ResolutionEntry>(),
                    },
                ],
            );
        }
    }

    /// Adds the room of the projection's snapshot.
    fn push_snapshot(&self, rooms: &mut Vec<Room>)
        ensures
            adds(old(rooms)@, final(rooms)@, snapshot_needs(self.projection_snapshot)),
    {
        let ghost start = rooms@;
        if let Some(snapshot) = &self.projection_snapshot {
            snapshot.forward.push_rooms(rooms);
            let ghost middle = rooms@;
            snapshot.reverse.push_rooms(rooms);
            proof {
                lemma_adds(
                    start,
                    middle,
                    rooms@,
                    rows_needs(snapshot.forward.rows()),
                    rows_needs(snapshot.reverse.rows()),
                );
            }
        } else {
            proof {
                lemma_adds_nothing(start);
            }
        }
    }

    /// What the engine has allocated.
    pub fn allocations(&self) -> (rooms: Vec<Room>)
        requires
            self.wf(),
        ensures
            have_room(room_views(rooms@), engine_needs(*self)),
    {
        let mut rooms: Vec<Room> = Vec::new();
        let ghost start = rooms@;
        self.node_store.push_rooms(&mut rooms);
        let ghost r1 = rooms@;
        let ghost n1 = self.node_store.needs();
        self.edge_store.push_rooms(&mut rooms);
        let ghost r2 = rooms@;
        let ghost n2 = n1 + rows_needs(self.edge_store.rows());
        proof {
            lemma_adds(start, r1, r2, n1, rows_needs(self.edge_store.rows()));
        }
        self.reverse_edge_store.push_rooms(&mut rooms);
        let ghost r3 = rooms@;
        let ghost n3 = n2 + rows_needs(self.reverse_edge_store.rows());
        proof {
            lemma_adds(start, r2, r3, n2, rows_needs(self.reverse_edge_store.rows()));
        }
        self.filter_index.push_rooms(&mut rooms);
        let ghost r4 = rooms@;
        let ghost n4 = n3 + index_needs(self.filter_index);
        proof {
            lemma_adds(start, r3, r4, n3, index_needs(self.filter_index));
        }
        self.relationship_identities.push_rooms(&mut rooms);
        let ghost r5 = rooms@;
        let ghost n5 = n4 + self.relationship_identities.needs();
        proof {
            lemma_adds(start, r4, r5, n4, self.relationship_identities.needs());
        }
        self.push_resolution(&mut rooms);
        let ghost r6 = rooms@;
        let ghost n6 = n5 + resolution_needs(self.resolution_store, self.resolution_delta);
        proof {
            lemma_adds(
                start,
                r5,
                r6,
                n5,
                resolution_needs(self.resolution_store, self.resolution_delta),
            );
        }
        push_text_list(&mut rooms, &self.edge_type_registry);
        let ghost r7 = rooms@;
        let ghost n7 = n6 + text_list_needs(self.edge_type_registry@);
        proof {
            lemma_adds(start, r6, r7, n6, text_list_needs(self.edge_type_registry@));
        }
        push_list(&mut rooms, &self.edge_buffer);
        let ghost r8 = rooms@;
        let ghost buffer = seq![
            Need::Items {
                count: self.edge_buffer@.len(),
                unit: vstd::layout::size_of::<EdgeMutation>(),
            },
        ];
        let ghost n8 = n7 + buffer;
        proof {
            lemma_adds(start, r7, r8, n7, buffer);
        }
        self.table_membership.push_rooms(&mut rooms);
        let ghost r9 = rooms@;
        let ghost n9 = n8 + self.table_membership.needs();
        proof {
            lemma_adds(start, r8, r9, n8, self.table_membership.needs());
        }
        self.tenant_membership.push_rooms(&mut rooms);
        let ghost r10 = rooms@;
        let ghost n10 = n9 + self.tenant_membership.needs();
        proof {
            lemma_adds(start, r9, r10, n9, self.tenant_membership.needs());
        }
        let tenanted: u64 = self.tenanted_table_oids.len();
        let each: usize = core::mem::size_of::<u32>();
        proof {
            assert(tenanted * each <= 0xffff_ffff_ffff_ffff * 0xffff_ffff_ffff_ffff)
                by (nonlinear_arith)
                requires
                    tenanted <= 0xffff_ffff_ffff_ffff,
                    each <= 0xffff_ffff_ffff_ffff,
            ;
        }
        let table_bytes: u128 = tenanted as u128 * each as u128;
        rooms.push(
            Room::Bytes {
                bytes: if table_bytes <= usize::MAX as u128 {
                    table_bytes as usize
                } else {
                    usize::MAX
                },
            },
        );
        let ghost r11 = rooms@;
        let ghost tables = seq![
            Need::Bytes {
                bytes: bounded_product(
                    bitmap_contents(self.tenanted_table_oids).len(),
                    vstd::layout::size_of::<u32>(),
                ),
            },
        ];
        let ghost n11 = n10 + tables;
        proof {
            assert(adds(r10, r11, tables));
            lemma_adds(start, r10, r11, n10, tables);
        }
        self.push_snapshot(&mut rooms);
        proof {
            lemma_adds(start, r11, rooms@, n11, snapshot_needs(self.projection_snapshot));
            assert(n11 + snapshot_needs(self.projection_snapshot) =~= engine_needs(*self));
            lemma_adds_room(rooms@, engine_needs(*self));
        }
        rooms
    }

    /// Estimated bytes that the engine owns: those of its allocations.
    pub fn estimated_heap_bytes(&self) -> (bytes: usize)
        requires
            self.wf(),
        ensures
            self.owns(bytes),
            bytes >= total_of(engine_needs(*self)),
    {
        let rooms: Vec<Room> = self.allocations();
        proof {
            lemma_total_grows(room_views(rooms@), engine_needs(*self));
        }
        total_bytes(&rooms)
    }

    /// Whether some bytes are those of allocations that have room for what the
    /// engine has to hold.
    pub open spec fn owns(&self, bytes: usize) -> bool {
        exists|have: Seq<Need>| #[trigger]
            have_room(have, engine_needs(*self)) && bytes == total_of(have)
    }

    /// Bytes that the graph takes by its counts, where the bytes of its filters
    /// are known.
    pub fn logical_bytes_with(&self, filter_bytes: usize) -> (bytes: usize)
        requires
            self.wf(),
        ensures
            bytes == bounded_sum(logical_bytes(*self, filter_bytes as nat), 0),
    {
        let nodes: u128 = self.node_store.node_count() as u128;
        let edges: u128 = self.edge_store.edge_count() as u128;
        let reverse_edges: u128 = self.reverse_edge_store.edge_count() as u128;
        let weighted: bool = self.edge_store.has_weights();
        let each: u128 = if weighted {
            9
        } else {
            5
        };
        let buffered: usize = self.edge_buffer.len();
        let size: usize = core::mem::size_of::<EdgeMutation>();
        proof {
            assert(edges * each <= 0xffff_ffff * 9) by (nonlinear_arith)
                requires
                    edges <= 0xffff_ffff,
                    each <= 9,
            ;
            assert(reverse_edges * each <= 0xffff_ffff * 9) by (nonlinear_arith)
                requires
                    reverse_edges <= 0xffff_ffff,
                    each <= 9,
            ;
            assert(buffered * size <= 0xffff_ffff_ffff_ffff * 0xffff_ffff_ffff_ffff)
                by (nonlinear_arith)
                requires
                    buffered <= 0xffff_ffff_ffff_ffff,
                    size <= 0xffff_ffff_ffff_ffff,
            ;
        }
        let buffer: u128 = buffered as u128 * size as u128;
        let rows: u128 = nodes * 36 + (nodes + 7) / 8 + ((nodes + 1) * 4 + edges * each) + ((nodes
            + 1) * 4 + reverse_edges * each) + nodes * 16;
        let total: u128 = rows + filter_bytes as u128 + buffer;
        if total > usize::MAX as u128 {
            usize::MAX
        } else {
            total as usize
        }
    }

    /// Bytes that the artifact takes.
    pub fn estimated_mmap_bytes(&self) -> (bytes: usize)
        ensures
            bytes == mapped_bytes(*self),
    {
        match &self.mmap {
            Some(mapped) => mapped.len(),
            None => {
                let resolution: usize = match &self.resolution_store {
                    ResolutionStore::MmapBacked(state) => state.len,
                    _ => 0,
                };
                sum(self.node_store.estimated_mmap_bytes(), resolution)
            },
        }
    }

    /// Estimated bytes of the engine, no less than its counts make and no less
    /// than what it owns and maps.
    pub fn estimated_memory_used_bytes(&self) -> (bytes: usize)
        requires
            self.wf(),
        ensures
            exists|owned: usize, filters: usize| #[trigger]
                self.owns(owned) && #[trigger] is_filter_estimate(self.filter_index, filters)
                    && bytes
                    == memory_used(*self, owned as nat, filters as nat),
    {
        let owned: usize = self.estimated_heap_bytes();
        let filters: usize = self.filter_index.estimated_heap_bytes();
        let bytes: usize = self.memory_used_with(owned, filters);
        assert(self.owns(owned) && is_filter_estimate(self.filter_index, filters));
        bytes
    }

    /// Bytes of the engine, where what it and its filters own is known: no less
    /// than its counts make and no less than what it owns and maps.
    pub fn memory_used_with(&self, owned: usize, filters: usize) -> (bytes: usize)
        requires
            self.wf(),
        ensures
            bytes == memory_used(*self, owned as nat, filters as nat),
    {
        let held: usize = sum(owned, self.estimated_mmap_bytes());
        let logical: usize = self.logical_bytes_with(filters);
        if held > logical {
            held
        } else {
            logical
        }
    }

    /// The memory of an instance that runs this engine in several backends.
    pub fn memory_profile(&self, concurrent_backends: i32, memory_limit_mb: i32) -> (profile:
        MemoryProfile)
        requires
            self.wf(),
        ensures
            exists|owned: usize| #[trigger]
                self.owns(owned) && profile.active_backend_private_bytes == bounded_sum(
                    owned as nat,
                    mapped_bytes(*self),
                ),
            profile.active_backend_shared_bytes == 0,
            profile.active_backend_total_bytes == profile.active_backend_private_bytes,
            profile.estimated_instance_private_bytes == bounded_product(
                profile.active_backend_private_bytes as nat,
                profile.assumed_concurrent_backends as nat,
            ),
            profile.estimated_instance_shared_bytes == 0,
            profile.estimated_instance_total_bytes == profile.estimated_instance_private_bytes,
            profile.memory_limit_mb == memory_limit_mb,
            profile.assumed_concurrent_backends == if concurrent_backends < 1 {
                1
            } else {
                concurrent_backends
            },
    {
        let owned: usize = self.estimated_heap_bytes();
        assert(self.owns(owned));
        let private_bytes: usize = sum(owned, self.estimated_mmap_bytes());
        profile_of(private_bytes, concurrent_backends, memory_limit_mb)
    }

    /// The state of the engine. What it takes and what its edge buffer has
    /// allocated depend on the allocator.
    pub fn status(&self, delta: &TxDelta, settings: StatusSettings) -> (status: EngineStatus)
        requires
            self.wf(),
        ensures
            exists|memory_used_bytes: usize, buffer_bytes: usize|
                #![trigger is_status(
                    *self,
                    *delta,
                    settings,
                    memory_used_bytes,
                    buffer_bytes,
                    status,
                )]
                {
                    &&& is_status(
                        *self,
                        *delta,
                        settings,
                        memory_used_bytes,
                        buffer_bytes,
                        status,
                    )
                    &&& exists|owned: usize, filters: usize| #[trigger]
                        self.owns(owned) && #[trigger] is_filter_estimate(
                            self.filter_index,
                            filters,
                        ) && memory_used_bytes == memory_used(
                            *self,
                            owned as nat,
                            filters as nat,
                        )
                    &&& buffer_bytes >= bounded_product(
                        self.edge_buffer@.len(),
                        vstd::layout::size_of::<EdgeMutation>(),
                    )
                },
    {
        let memory_used_bytes: usize = self.estimated_memory_used_bytes();
        let capacity: usize = vector_capacity(&self.edge_buffer);
        proof {
            lemma_product_grows(
                self.edge_buffer@.len(),
                capacity as nat,
                vstd::layout::size_of::<EdgeMutation>(),
            );
        }
        let buffer_bytes: usize = product(capacity, core::mem::size_of::<EdgeMutation>());
        self.status_with_memory(delta, settings, memory_used_bytes, buffer_bytes)
    }
}

} // verus!
