//! The graph engine: its stores, and what it knows about their state.
use roaring::RoaringBitmap;
use vstd::prelude::*;
use vstd::string::StringExecFns;

use crate::active_bits::bit_capacity_limit;
use crate::bitmap::bitmap_contents;
use crate::edge_store::{inbound_row, EdgeStore};
use crate::errors::{ErrorView, GraphError, GraphResult};
use crate::filter_index::FilterIndex;
use crate::layered::LayeredSnapshot;
use crate::mapped_bytes::MappedBytes;
use crate::membership::{TableMembership, TenantMembership};
use crate::node_store::NodeStore;
use crate::overlay::EdgeMutation;
use crate::path_machine::RelationshipIdentities;
use crate::persisted_build::ProjectionMode;
use crate::resolution::{entries_sorted, index_valid, stored_entries, ResolutionIndexBuilder};
use crate::resource::ResourcePhase;
use crate::scan_edges::{label_id, label_views, with_label};
use crate::text::{decimal, decimal_text, same_text};

verus! {

/// Whether changes are being taken over.
#[derive(Debug, Clone, Copy, PartialEq, Eq, Structural)]
pub enum SyncStatus {
    Idle,
    Syncing,
    ReadOnly,
}

impl SyncStatus {
    /// The status as text.
    pub open spec fn text(self) -> Seq<char> {
        match self {
            SyncStatus::Idle => "idle"@,
            SyncStatus::Syncing => "syncing"@,
            SyncStatus::ReadOnly => "read_only"@,
        }
    }

    /// The status as text.
    pub fn as_str(self) -> (text: &'static str)
        ensures
            text@ == self.text(),
    {
        match self {
            SyncStatus::Idle => "idle",
            SyncStatus::Syncing => "syncing",
            SyncStatus::ReadOnly => "read_only",
        }
    }
}

/// Why an engine rejects mutations.
#[derive(Debug, Clone, Copy, PartialEq, Eq, Structural)]
pub enum ReadOnlyReason {
    EdgeBufferFull,
}

impl ReadOnlyReason {
    /// The reason as text.
    pub open spec fn text(self) -> Seq<char> {
        match self {
            ReadOnlyReason::EdgeBufferFull => "edge_buffer_full"@,
        }
    }

    /// The reason as text.
    pub fn as_str(self) -> (text: &'static str)
        ensures
            text@ == self.text(),
    {
        match self {
            ReadOnlyReason::EdgeBufferFull => "edge_buffer_full",
        }
    }
}

/// Whether the registered schema is still the one that was built.
#[derive(Debug, Clone, Copy, PartialEq, Eq, Structural)]
pub enum SchemaState {
    Current,
    Stale,
    Invalid,
}

impl SchemaState {
    /// The state as text.
    pub open spec fn text(self) -> Seq<char> {
        match self {
            SchemaState::Current => "current"@,
            SchemaState::Stale => "stale"@,
            SchemaState::Invalid => "invalid"@,
        }
    }

    /// The state as text.
    pub fn as_str(self) -> (text: &'static str)
        ensures
            text@ == self.text(),
    {
        match self {
            SchemaState::Current => "current",
            SchemaState::Stale => "stale",
            SchemaState::Invalid => "invalid",
        }
    }
}

/// Where resolution entries stand in an artifact.
#[derive(Debug, Clone, Copy, PartialEq, Eq, Structural)]
pub struct MmapResolutionState {
    pub offset: usize,
    pub len: usize,
}

/// The resolution entries of the base graph.
#[derive(Debug)]
pub enum ResolutionStore {
    /// While a graph is built: entries in the order of insertion.
    Builder(ResolutionIndexBuilder),
    /// After a build: sorted entries.
    Finalized(Vec<u8>),
    /// After a load: sorted entries of the artifact.
    MmapBacked(MmapResolutionState),
}

/// A durable generation of the projection.
#[derive(Debug, Clone, Copy, PartialEq, Eq, Structural)]
pub struct ProjectionManifest {
    pub generation_id: u64,
    pub sync_watermark: i64,
    pub segment_count: usize,
    pub base_chunk_count: usize,
}

/// The stores of a graph that was loaded from an artifact.
pub struct MmapBackedGraph {
    pub node_store: NodeStore,
    pub edge_store: EdgeStore,
    pub reverse_edge_store: EdgeStore,
    pub filter_index: FilterIndex,
    pub edge_type_registry: Vec<String>,
    pub relationship_identities: RelationshipIdentities,
    pub mmap: MappedBytes,
    pub resolution_state: MmapResolutionState,
}

/// The stores of a graph, and what is known about their state. Times are in
/// microseconds.
pub struct Engine {
    pub node_store: NodeStore,
    pub edge_store: EdgeStore,
    pub reverse_edge_store: EdgeStore,
    pub filter_index: FilterIndex,
    /// Labels by edge type; the first is the empty one.
    pub edge_type_registry: Vec<String>,
    pub relationship_identities: RelationshipIdentities,
    pub has_unidirectional_edges: bool,
    pub built: bool,
    pub sync_status: SyncStatus,
    pub last_build: Option<i64>,
    pub last_vacuum: Option<i64>,
    pub build_resource_budget_bytes: u64,
    pub build_resource_peak_bytes: u64,
    pub build_resource_peak_phase: Option<ResourcePhase>,
    pub build_resource_pressure_events: u64,
    pub resolution_store: ResolutionStore,
    /// Entries that came after the base graph was built.
    pub resolution_delta: ResolutionIndexBuilder,
    pub mmap: Option<MappedBytes>,
    /// Edge changes that the stores do not hold yet.
    pub edge_buffer: Vec<EdgeMutation>,
    pub projection_mode: ProjectionMode,
    pub projection_manifest: Option<ProjectionManifest>,
    pub projection_snapshot: Option<LayeredSnapshot>,
    pub is_read_only: bool,
    pub read_only_reason: Option<ReadOnlyReason>,
    pub applied_sync_id: i64,
    pub needs_vacuum: bool,
    pub needs_rebuild: bool,
    pub schema_state: SchemaState,
    pub invalid_reason: Option<String>,
    pub disabled_trigger_count: i32,
    pub catalog_fingerprint: Option<u64>,
    pub pending_sync_rows: i64,
    pub table_membership: TableMembership,
    pub tenant_membership: TenantMembership,
    /// Tables whose rows belong to tenants.
    pub tenanted_table_oids: RoaringBitmap,
}

/// Whether resolution entries can be read.
pub open spec fn resolution_wf(store: ResolutionStore, mmap: Option<MappedBytes>) -> bool {
    match store {
        ResolutionStore::Builder(builder) => builder.entries@.len() <= u32::MAX,
        ResolutionStore::Finalized(bytes) => index_valid(bytes@) ==> entries_sorted(
            stored_entries(bytes@),
        ),
        ResolutionStore::MmapBacked(state) => mmap matches Some(mapped) ==> {
            let part = mapped@.subrange(state.offset as int, state.offset + state.len);
            &&& state.offset + state.len <= mapped@.len()
            &&& index_valid(part) ==> entries_sorted(stored_entries(part))
        },
    }
}

impl Engine {
    /// What always holds of an engine.
    pub open spec fn wf(&self) -> bool {
        &&& self.node_store.addressable()
        &&& self.node_store.nodes().len() <= bit_capacity_limit()
        &&& self.filter_index.sound()
        &&& self.tenant_membership.wf()
        &&& self.edge_type_registry@.len() >= 1
        &&& resolution_wf(self.resolution_store, self.mmap)
    }

    /// An engine without a graph.
    pub fn new() -> (engine: Self)
        ensures
            engine.wf(),
            engine.node_store.nodes().len() == 0,
            !engine.node_store.mapped(),
            engine.edge_store.rows().len() == 0,
            engine.edge_store.count() == 0,
            engine.reverse_edge_store.rows().len() == 0,
            engine.reverse_edge_store.count() == 0,
            engine.filter_index.registered().len() == 0,
            label_views(engine.edge_type_registry@) == seq![Seq::<char>::empty()],
            !engine.has_unidirectional_edges,
            !engine.built,
            engine.sync_status == SyncStatus::Idle,
            engine.last_build is None,
            engine.last_vacuum is None,
            engine.build_resource_budget_bytes == 0,
            engine.build_resource_peak_bytes == 0,
            engine.build_resource_peak_phase is None,
            engine.build_resource_pressure_events == 0,
            engine.resolution_store matches ResolutionStore::Builder(builder)
                && builder.entries@.len() == 0,
            engine.resolution_delta.entries@.len() == 0,
            engine.mmap is None,
            engine.edge_buffer@.len() == 0,
            engine.projection_mode == ProjectionMode::CsrReadonly,
            engine.projection_manifest is None,
            engine.projection_snapshot is None,
            !engine.is_read_only,
            engine.read_only_reason is None,
            engine.applied_sync_id == 0,
            !engine.needs_vacuum,
            !engine.needs_rebuild,
            engine.schema_state == SchemaState::Current,
            engine.invalid_reason is None,
            engine.disabled_trigger_count == 0,
            engine.catalog_fingerprint is None,
            engine.pending_sync_rows == 0,
            engine.table_membership@ == Map::<u32, Set<u32>>::empty(),
            engine.tenant_membership@ == Map::<Seq<char>, Set<u32>>::empty(),
            bitmap_contents(engine.tenanted_table_oids) == Set::<u32>::empty(),
    {
        let mut registry: Vec<String> = Vec::new();
        registry.push("".to_owned());
        proof {
            reveal_strlit("");
            assert(registry@[0]@ =~= Seq::<char>::empty());
            assert(label_views(registry@) =~= seq![Seq::<char>::empty()]);
        }
        Engine {
            node_store: NodeStore::new(),
            edge_store: EdgeStore::new(),
            reverse_edge_store: EdgeStore::new(),
            filter_index: FilterIndex::new(),
            edge_type_registry: registry,
            relationship_identities: RelationshipIdentities::empty(),
            has_unidirectional_edges: false,
            built: false,
            sync_status: SyncStatus::Idle,
            last_build: None,
            last_vacuum: None,
            build_resource_budget_bytes: 0,
            build_resource_peak_bytes: 0,
            build_resource_peak_phase: None,
            build_resource_pressure_events: 0,
            resolution_store: ResolutionStore::Builder(ResolutionIndexBuilder::new()),
            resolution_delta: ResolutionIndexBuilder::new(),
            mmap: None,
            edge_buffer: Vec::new(),
            projection_mode: ProjectionMode::CsrReadonly,
            projection_manifest: None,
            projection_snapshot: None,
            is_read_only: false,
            read_only_reason: None,
            applied_sync_id: 0,
            needs_vacuum: false,
            needs_rebuild: false,
            schema_state: SchemaState::Current,
            invalid_reason: None,
            disabled_trigger_count: 0,
            catalog_fingerprint: None,
            pending_sync_rows: 0,
            table_membership: TableMembership::new(),
            tenant_membership: TenantMembership::new(),
            tenanted_table_oids: RoaringBitmap::new(),
        }
    }

    /// Marks the schema as stale.
    fn mark_schema_stale(&mut self, reason: String)
        ensures
            *final(self) == (Engine {
                schema_state: SchemaState::Stale,
                invalid_reason: Some(reason),
                ..*old(self)
            }),
    {
        self.schema_state = SchemaState::Stale;
        self.invalid_reason = Some(reason);
    }

    /// Marks the schema as invalid: the graph must be rebuilt.
    fn mark_schema_invalid(&mut self, reason: String)
        ensures
            *final(self) == (Engine {
                needs_rebuild: true,
                schema_state: SchemaState::Invalid,
                invalid_reason: Some(reason),
                ..*old(self)
            }),
    {
        self.needs_rebuild = true;
        self.schema_state = SchemaState::Invalid;
        self.invalid_reason = Some(reason);
    }

    /// Takes over what was observed: disabled triggers make a current schema
    /// stale; a catalog that is not the one of a built graph, or that cannot
    /// be checked, makes it invalid.
    pub fn refresh_observed_state(
        &mut self,
        disabled_trigger_count: i32,
        pending_sync_rows: i64,
        catalog_state: &Result<(u64, Option<String>), String>,
    )
        ensures
            observed(*old(self), *final(self), disabled_trigger_count, pending_sync_rows, *catalog_state),
    {
        self.disabled_trigger_count = disabled_trigger_count;
        self.pending_sync_rows = pending_sync_rows;
        if disabled_trigger_count > 0 && self.schema_state == SchemaState::Current {
            self.mark_schema_stale(
                decimal_text(disabled_trigger_count as u64).concat(
                    " graph sync trigger(s) are disabled",
                ),
            );
        }
        if !self.built {
            return ;
        }
        match catalog_state {
            Ok((fingerprint, reason)) => {
                if let Some(reason) = reason {
                    self.mark_schema_invalid(reason.as_str().to_owned());
                } else {
                    let drifted: bool = match self.catalog_fingerprint {
                        Some(known) => known != *fingerprint,
                        None => false,
                    };
                    if drifted {
                        self.mark_schema_invalid(
                            "registered graph catalog changed since graph.build(); rebuild required".to_owned(),
                        );
                    }
                }
            },
            Err(error) => {
                self.mark_schema_invalid(
                    "registered graph schema validation failed: ".to_owned().concat(
                        error.as_str(),
                    ),
                );
            },
        }
    }
}

/// Whether more mutations do not fit a buffer. The sum stops at the largest
/// number.
pub open spec fn overfull(length: nat, additional: usize, limit: usize) -> bool {
    length + additional > limit && limit < usize::MAX
}

/// Why an observed catalog makes a built graph's schema invalid.
pub open spec fn catalog_problem(
    engine: Engine,
    catalog_state: Result<(u64, Option<String>), String>,
) -> Option<Seq<char>> {
    if !engine.built {
        None
    } else {
        match catalog_state {
            Ok((fingerprint, reason)) => match reason {
                Some(reason) => Some(reason@),
                None => if engine.catalog_fingerprint is Some && engine.catalog_fingerprint != Some(
                    fingerprint,
                ) {
                    Some(
                        "registered graph catalog changed since graph.build(); rebuild required"@,
                    )
                } else {
                    None
                },
            },
            Err(error) => Some("registered graph schema validation failed: "@ + error@),
        }
    }
}

/// What an observation does to an engine: nothing but the observed numbers and
/// the state of the schema changes.
pub open spec fn observed(
    before: Engine,
    after: Engine,
    disabled_trigger_count: i32,
    pending_sync_rows: i64,
    catalog_state: Result<(u64, Option<String>), String>,
) -> bool {
    let stale = disabled_trigger_count > 0 && before.schema_state == SchemaState::Current;
    &&& after == (Engine {
        disabled_trigger_count,
        pending_sync_rows,
        needs_rebuild: after.needs_rebuild,
        schema_state: after.schema_state,
        invalid_reason: after.invalid_reason,
        ..before
    })
    &&& match catalog_problem(before, catalog_state) {
        Some(reason) => {
            &&& after.schema_state == SchemaState::Invalid
            &&& after.needs_rebuild
            &&& after.invalid_reason is Some
            &&& after.invalid_reason->Some_0@ == reason
        },
        None => {
            &&& after.needs_rebuild == before.needs_rebuild
            &&& if stale {
                &&& after.schema_state == SchemaState::Stale
                &&& after.invalid_reason is Some
                &&& after.invalid_reason->Some_0@ == decimal(disabled_trigger_count as nat)
                    + " graph sync trigger(s) are disabled"@
            } else {
                &&& after.schema_state == before.schema_state
                &&& after.invalid_reason == before.invalid_reason
            }
        },
    }
}

impl Engine {
    /// Takes over an adjacency, and its reverse.
    pub fn replace_edge_stores(&mut self, edge_store: EdgeStore) -> (result: GraphResult<()>)
        requires
            edge_store.rows().len() <= u32::MAX + 1,
        ensures
            result is Ok,
            *final(self) == (Engine {
                edge_store,
                reverse_edge_store: final(self).reverse_edge_store,
                ..*old(self)
            }),
            final(self).reverse_edge_store.rows().len() == edge_store.rows().len(),
            forall|target: u32|
                target < edge_store.rows().len() ==> #[trigger] final(
                    self).reverse_edge_store.rows()[target as int] == inbound_row(
                    edge_store.rows(),
                    target,
                    edge_store.rows().len(),
                ),
            final(self).reverse_edge_store.count() == edge_store.count(),
            final(self).reverse_edge_store.is_weighted() == edge_store.is_weighted(),
    {
        let reverse_edge_store: EdgeStore = edge_store.reversed();
        self.edge_store = edge_store;
        self.reverse_edge_store = reverse_edge_store;
        Ok(())
    }

    /// Notes that some edge has no edge back.
    pub fn mark_has_unidirectional_edges(&mut self)
        ensures
            *final(self) == (Engine { has_unidirectional_edges: true, ..*old(self) }),
    {
        self.has_unidirectional_edges = true;
    }

    /// Notes that the graph has been built.
    pub fn finish_build(&mut self, built_at: Option<i64>)
        ensures
            *final(self) == (Engine { built: true, last_build: built_at, ..*old(self) }),
    {
        self.built = true;
        self.last_build = built_at;
    }

    /// Notes the catalog that the graph was built from.
    pub fn set_catalog_fingerprint(&mut self, catalog_fingerprint: u64)
        ensures
            *final(self) == (Engine {
                catalog_fingerprint: Some(catalog_fingerprint),
                ..*old(self)
            }),
    {
        self.catalog_fingerprint = Some(catalog_fingerprint);
    }

    /// Chooses whether durable segments are read.
    pub fn set_projection_mode(&mut self, projection_mode: ProjectionMode)
        ensures
            *final(self) == (Engine { projection_mode, ..*old(self) }),
    {
        self.projection_mode = projection_mode;
    }

    /// Notes the last change that was taken over.
    pub fn record_applied_sync_id(&mut self, sync_id: i64)
        ensures
            *final(self) == (Engine { applied_sync_id: sync_id, ..*old(self) }),
    {
        self.applied_sync_id = sync_id;
    }

    /// Notes how many changes wait.
    pub fn record_pending_sync_rows(&mut self, pending_sync_rows: i64)
        ensures
            *final(self) == (Engine { pending_sync_rows, ..*old(self) }),
    {
        self.pending_sync_rows = pending_sync_rows;
    }

    /// Notes that changes are being taken over, unless the engine rejects them.
    pub fn mark_syncing(&mut self)
        ensures
            *final(self) == (Engine {
                sync_status: if old(self).is_read_only {
                    old(self).sync_status
                } else {
                    SyncStatus::Syncing
                },
                ..*old(self)
            }),
    {
        if !self.is_read_only {
            self.sync_status = SyncStatus::Syncing;
        }
    }

    /// Notes that no changes are being taken over, unless the engine rejects
    /// them.
    pub fn mark_idle_if_writable(&mut self)
        ensures
            *final(self) == (Engine {
                sync_status: if old(self).is_read_only {
                    old(self).sync_status
                } else {
                    SyncStatus::Idle
                },
                ..*old(self)
            }),
    {
        if !self.is_read_only {
            self.sync_status = SyncStatus::Idle;
        }
    }

    /// Notes that pending changes should be merged.
    pub fn mark_vacuum_required(&mut self)
        ensures
            *final(self) == (Engine { needs_vacuum: true, ..*old(self) }),
    {
        self.needs_vacuum = true;
    }

    /// Notes that pending changes have been merged.
    pub fn mark_vacuum_complete(&mut self, vacuumed_at: Option<i64>)
        ensures
            *final(self) == (Engine {
                needs_vacuum: false,
                last_vacuum: vacuumed_at,
                ..*old(self)
            }),
    {
        self.needs_vacuum = false;
        self.last_vacuum = vacuumed_at;
    }

    /// Notes what the last build used.
    pub fn record_build_resource_stats(
        &mut self,
        budget: u64,
        peak: u64,
        peak_phase: Option<ResourcePhase>,
        pressure_events: u64,
    )
        ensures
            *final(self) == (Engine {
                build_resource_budget_bytes: budget,
                build_resource_peak_bytes: peak,
                build_resource_peak_phase: peak_phase,
                build_resource_pressure_events: pressure_events,
                ..*old(self)
            }),
    {
        self.build_resource_budget_bytes = budget;
        self.build_resource_peak_bytes = peak;
        self.build_resource_peak_phase = peak_phase;
        self.build_resource_pressure_events = pressure_events;
    }

    /// Makes the engine reject mutations.
    pub fn mark_read_only(&mut self, reason: ReadOnlyReason)
        ensures
            *final(self) == (Engine {
                is_read_only: true,
                read_only_reason: Some(reason),
                sync_status: SyncStatus::ReadOnly,
                ..*old(self)
            }),
    {
        self.is_read_only = true;
        self.read_only_reason = Some(reason);
        self.sync_status = SyncStatus::ReadOnly;
    }

    /// The error for a mutation that is rejected.
    pub fn read_only_error(&self) -> (error: GraphError)
        ensures
            error@ == ErrorView::ReadOnly(
                match self.read_only_reason {
                    Some(reason) => reason.text(),
                    None => "unknown"@,
                },
            ),
    {
        let text: &str = match self.read_only_reason {
            Some(reason) => reason.as_str(),
            None => "unknown",
        };
        GraphError::ReadOnly { reason: text.to_owned() }
    }

    /// Fails, and makes the engine reject mutations, if more mutations would
    /// not fit the buffer.
    pub fn reserve_edge_mutation_capacity(&mut self, additional: usize, limit: usize) -> (result: GraphResult<
        (),
    >)
        ensures
            match result {
                Ok(_) => !overfull(old(self).edge_buffer@.len(), additional, limit) && *final(self)
                    == *old(self),
                Err(error) => {
                    &&& overfull(old(self).edge_buffer@.len(), additional, limit)
                    &&& error@ == ErrorView::EdgeBufferFull(
                        old(self).edge_buffer@.len() as int,
                    )
                    &&& *final(self) == (Engine {
                        is_read_only: true,
                        read_only_reason: Some(ReadOnlyReason::EdgeBufferFull),
                        sync_status: SyncStatus::ReadOnly,
                        ..*old(self)
                    })
                },
            },
    {
        let size: usize = self.edge_buffer.len();
        let total: usize = match size.checked_add(additional) {
            Some(total) => total,
            None => usize::MAX,
        };
        if total > limit {
            self.mark_read_only(ReadOnlyReason::EdgeBufferFull);
            return Err(GraphError::EdgeBufferFull { size });
        }
        Ok(())
    }

    /// Buffers an edge mutation.
    pub fn push_edge_mutation(&mut self, mutation: EdgeMutation, limit: usize) -> (result: GraphResult<
        (),
    >)
        ensures
            match result {
                Ok(_) => {
                    &&& !overfull(old(self).edge_buffer@.len(), 1, limit)
                    &&& final(self).edge_buffer@ == old(self).edge_buffer@.push(mutation)
                    &&& *final(self) == (Engine {
                        edge_buffer: final(self).edge_buffer,
                        needs_vacuum: true,
                        ..*old(self)
                    })
                },
                Err(error) => {
                    &&& overfull(old(self).edge_buffer@.len(), 1, limit)
                    &&& error@ == ErrorView::EdgeBufferFull(
                        old(self).edge_buffer@.len() as int,
                    )
                    &&& *final(self) == (Engine {
                        is_read_only: true,
                        read_only_reason: Some(ReadOnlyReason::EdgeBufferFull),
                        sync_status: SyncStatus::ReadOnly,
                        ..*old(self)
                    })
                },
            },
    {
        if let Err(error) = self.reserve_edge_mutation_capacity(1, limit) {
            return Err(error);
        }
        self.edge_buffer.push(mutation);
        self.needs_vacuum = true;
        Ok(())
    }

    /// The place of a label in the registry.
    fn find_edge_type(&self, label: &str) -> (found: Option<usize>)
        ensures
            match found {
                Some(at) => {
                    let labels = label_views(self.edge_type_registry@);
                    &&& labels.contains(label@)
                    &&& at == label_id(labels, label@)
                    &&& at < labels.len()
                },
                None => !label_views(self.edge_type_registry@).contains(label@),
            },
    {
        let ghost labels = label_views(self.edge_type_registry@);
        let mut at: usize = 0;
        while at < self.edge_type_registry.len()
            invariant
                at <= self.edge_type_registry@.len(),
                labels == label_views(self.edge_type_registry@),
                forall|i: int| 0 <= i < at ==> labels[i] != label@,
            decreases self.edge_type_registry@.len() - at,
        {
            if same_text(self.edge_type_registry[at].as_str(), label) {
                proof {
                    assert(labels[at as int] == label@);
                    labels.index_of_first_ensures(label@);
                }
                return Some(at);
            }
            at = at + 1;
        }
        None
    }

    /// The number of an edge type, registered if it is new. Numbers are bytes:
    /// of a position beyond them, what a byte holds is the number.
    pub fn register_edge_type(&mut self, label: &str) -> (result: GraphResult<u8>)
        ensures
            old(self).wf() ==> final(self).wf(),
            ({
                let before = label_views(old(self).edge_type_registry@);
                let after = label_views(final(self).edge_type_registry@);
                match result {
                    Ok(id) => {
                        &&& before.contains(label@) || before.len() < 255
                        &&& after == with_label(before, label@)
                        &&& id == label_id(after, label@) % 256
                        &&& *final(self) == (Engine {
                            edge_type_registry: final(self).edge_type_registry,
                            ..*old(self)
                        })
                    },
                    Err(error) => {
                        &&& !before.contains(label@) && before.len() >= 255
                        &&& error@ == ErrorView::EdgeTypeLimit
                        &&& *final(self) == *old(self)
                    },
                }
            }),
    {
        if let Some(at) = self.find_edge_type(label) {
            return Ok((at % 256) as u8);
        }
        if self.edge_type_registry.len() >= 255 {
            return Err(GraphError::EdgeTypeLimit);
        }
        let ghost before = label_views(self.edge_type_registry@);
        let id: u8 = self.edge_type_registry.len() as u8;
        self.edge_type_registry.push(label.to_owned());
        proof {
            let after = before.push(label@);
            assert(label_views(self.edge_type_registry@) =~= after);
            assert(after[before.len() as int] == label@);
            after.index_of_first_ensures(label@);
            let first = label_id(after, label@);
            if first < before.len() {
                assert(before[first] == label@);
            }
        }
        Ok(id)
    }

    /// The number of a registered edge type. Numbers are bytes: of a position
    /// beyond them, what a byte holds is the number.
    pub fn edge_type_id(&self, label: &str) -> (id: Option<u8>)
        ensures
            ({
                let labels = label_views(self.edge_type_registry@);
                match id {
                    Some(id) => labels.contains(label@) && id == label_id(labels, label@) % 256,
                    None => !labels.contains(label@),
                }
            }),
    {
        match self.find_edge_type(label) {
            Some(at) => Some((at % 256) as u8),
            None => None,
        }
    }

    /// Generation and watermark of the durable projection, as far as they can be
    /// told.
    pub fn base_projection_manifest_status(&self) -> (status: (Option<i64>, Option<i64>))
        ensures
            match self.projection_manifest {
                Some(manifest) => {
                    &&& status.1 == Some(manifest.sync_watermark)
                    &&& status.0 == if manifest.generation_id <= i64::MAX {
                        Some(manifest.generation_id as i64)
                    } else {
                        None
                    }
                },
                None => status == (None::<i64>, None::<i64>),
            },
    {
        match self.projection_manifest {
            Some(manifest) => {
                let generation: Option<i64> = if manifest.generation_id <= i64::MAX as u64 {
                    Some(manifest.generation_id as i64)
                } else {
                    None
                };
                (generation, Some(manifest.sync_watermark))
            },
            None => (None, None),
        }
    }
}

impl Default for Engine {
    fn default() -> (engine: Self)
        ensures
            engine.wf(),
            !engine.built,
            engine.node_store.nodes().len() == 0,
    {
        Engine::new()
    }
}

} // verus!
