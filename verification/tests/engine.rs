//! The engine: resolution, state, projections, and queries with pending changes.
use pggraph::edge_store::{EdgeStore, RawEdge};
use pggraph::engine::{
    Engine, MmapBackedGraph, MmapResolutionState, ProjectionManifest, ReadOnlyReason, SchemaState,
    SyncStatus,
};
use pggraph::engine_status::{profile_of, StatusSettings};
use pggraph::errors::GraphError;
use pggraph::filter_index::FilterIndex;
use pggraph::filter_value::{EncodedFilterValue, FilterColumnType, FilterCondition, FilterOp};
use pggraph::mapped_bytes::MappedBytes;
use pggraph::node_store::NodeStore;
use pggraph::overlay::{EdgeMutation, MutationKind, OverlayEdge, TxDelta};
use pggraph::path_machine::RelationshipIdentities;
use pggraph::persisted_build::ProjectionMode;
use pggraph::projection_install::{
    ProjectionSegment, SegmentEdgeWeight, SegmentNodeState, SegmentResolution, SegmentTenant,
};
use pggraph::resource::{ResourceGovernor, ResourceKind, ResourceLimits, ResourcePhase};
use pggraph::scan_codec::hash_pk;
use pggraph::types::{EdgeTypeId, TraversalDirection, TraversalStrategy};
use roaring::RoaringBitmap;

fn limits() -> ResourceLimits {
    ResourceLimits::bounded(1 << 30, 1 << 40, None)
}

fn none() -> RoaringBitmap {
    RoaringBitmap::new()
}

fn edge(source: u32, target: u32, type_id: u32) -> OverlayEdge {
    OverlayEdge {
        source,
        target,
        type_id: EdgeTypeId(type_id),
        schema_reversed: false,
        relationship_id: None,
    }
}

fn inserting(source: u32, target: u32, type_id: u32) -> TxDelta {
    let mut delta = TxDelta::empty();
    delta.inserted.push(edge(source, target, type_id));
    delta
}

fn deleting(pairs: &[(u32, u32)], type_id: u32) -> TxDelta {
    let mut delta = TxDelta::empty();
    for &(source, target) in pairs {
        delta.deleted.push(edge(source, target, type_id));
    }
    delta
}

fn manifest(segments: &[ProjectionSegment]) -> ProjectionManifest {
    ProjectionManifest {
        generation_id: 1,
        sync_watermark: 1,
        segment_count: segments.len(),
        base_chunk_count: 0,
    }
}

fn install_edge_segment_manifest(
    engine: &mut Engine,
    fill: impl FnOnce(&mut ProjectionSegment),
) {
    let mut segment = ProjectionSegment::empty();
    fill(&mut segment);
    let segments = vec![segment];
    engine.set_projection_mode(ProjectionMode::MutableOverlay);
    let base = engine.edge_store.clone();
    engine
        .install_projection_manifest(manifest(&segments), &base, &segments)
        .expect("projection manifest installs");
}

#[test]
fn resolution_delta_keeps_post_build_inserts_resolvable() {
    let mut engine = Engine::new();
    engine.node_store.add_node(42, "original".to_string());
    engine.resolution_insert(42, "original", 0);
    engine.finalize_resolution();

    engine.node_store.add_node(42, "synced".to_string());
    engine.resolution_insert(42, "synced", 1);

    assert_eq!(engine.resolve(42, "original", &none()), Some(0));
    assert_eq!(engine.resolve(42, "synced", &none()), Some(1));
    assert_eq!(engine.resolve(42, "missing", &none()), None);
}

#[test]
fn new_engine_is_empty() {
    let engine = Engine::new();
    assert_eq!(engine.node_store.node_count(), 0);
    assert_eq!(engine.edge_store.edge_count(), 0);
    assert!(!engine.built);
    assert!(engine.last_build.is_none());
    assert!(engine.last_vacuum.is_none());
    assert!(!engine.is_read_only);
    assert!(engine.edge_buffer.is_empty());
}

#[test]
fn memory_estimation_increases_with_nodes() {
    let mut engine = Engine::new();
    let empty_mem = engine.estimated_memory_used_bytes();

    for i in 0..100u32 {
        engine.node_store.add_node(1, format!("n-{}", i));
    }
    engine.edge_store = EdgeStore::from_edges(100, vec![], false);

    let with_nodes = engine.estimated_memory_used_bytes();
    assert!(
        with_nodes > empty_mem,
        "100 nodes should use more memory: empty={} with_nodes={}",
        empty_mem,
        with_nodes
    );
}

#[test]
fn memory_estimation_accounts_for_edges() {
    let mut engine = Engine::new();
    for i in 0..10u32 {
        engine.node_store.add_node(1, format!("n-{}", i));
    }
    engine.edge_store = EdgeStore::from_edges(10, vec![], false);
    let no_edges = engine.estimated_memory_used_bytes();

    // Now add edges
    let mut edges = Vec::new();
    for i in 0..9u32 {
        edges.push(RawEdge {
            source: i,
            target: i + 1,
            type_id: EdgeTypeId(1),
            weight: None,
            schema_reversed: false,
        });
    }
    engine.edge_store = EdgeStore::from_edges(10, edges, false);
    let with_edges = engine.estimated_memory_used_bytes();

    assert!(
        with_edges > no_edges,
        "edges should increase memory: no_edges={} with_edges={}",
        no_edges,
        with_edges
    );
}

#[test]
fn memory_profile_multiplies_backend_private_memory() {
    let mut engine = Engine::new();
    for i in 0..10u32 {
        engine.node_store.add_node(1, format!("n-{}", i));
    }
    engine.edge_store = EdgeStore::from_edges(
        10,
        vec![RawEdge {
            source: 0,
            target: 1,
            type_id: EdgeTypeId(1),
            weight: None,
            schema_reversed: false,
        }],
        false,
    );

    let one_backend = engine.memory_profile(1, 2048);
    let four_backends = engine.memory_profile(4, 2048);

    assert!(one_backend.active_backend_private_bytes > 0);
    assert_eq!(one_backend.active_backend_shared_bytes, 0);
    assert_eq!(four_backends.assumed_concurrent_backends, 4);
    assert!(
        four_backends.estimated_instance_private_bytes
            >= one_backend.active_backend_private_bytes * 4
    );
    assert_eq!(
        four_backends.estimated_instance_shared_bytes,
        one_backend.active_backend_shared_bytes
    );
}

#[test]
fn resolve_miss_returns_none() {
    let engine = Engine::new();
    assert_eq!(engine.resolve(999, "nonexistent", &none()), None);
}

#[test]
fn resolve_wrong_table_oid_returns_none() {
    let mut engine = Engine::new();
    engine.resolution_insert(42, "key", 0);
    // Same key, different table OID
    assert_eq!(engine.resolve(99, "key", &none()), None);
}

#[test]
fn engine_state_fields_reflect_mutations() {
    let mut engine = Engine::new();
    engine.node_store.add_node(10, "A".to_string());
    engine.node_store.add_node(10, "B".to_string());
    engine.edge_type_registry.push("test_edge".to_string());
    engine.has_unidirectional_edges = true;
    engine.built = true;

    assert_eq!(engine.node_store.node_count(), 2);
    assert!(engine.has_unidirectional_edges);
    assert!(engine.built);
    assert!(engine.edge_type_registry.contains(&"test_edge".to_string()));
    assert!(engine.estimated_memory_used_bytes() > 0);
}

#[test]
fn refresh_observed_state_marks_disabled_triggers_stale() {
    let mut engine = Engine::new();
    let catalog_state = Ok((42, None));

    engine.refresh_observed_state(2, 5, &catalog_state);

    assert_eq!(engine.disabled_trigger_count, 2);
    assert_eq!(engine.pending_sync_rows, 5);
    assert_eq!(engine.schema_state, SchemaState::Stale);
    assert_eq!(
        engine.invalid_reason.as_deref(),
        Some("2 graph sync trigger(s) are disabled")
    );
    assert!(!engine.needs_rebuild);
}

#[test]
fn refresh_observed_state_marks_built_graph_invalid_on_catalog_drift() {
    let mut engine = Engine::new();
    engine.built = true;
    engine.catalog_fingerprint = Some(41);
    let catalog_state = Ok((42, None));

    engine.refresh_observed_state(0, 0, &catalog_state);

    assert_eq!(engine.schema_state, SchemaState::Invalid);
    assert!(engine.needs_rebuild);
    assert_eq!(
        engine.invalid_reason.as_deref(),
        Some("registered graph catalog changed since graph.build(); rebuild required")
    );
}

#[test]
fn lifecycle_helpers_update_sync_and_vacuum_state() {
    let mut engine = Engine::new();

    engine.finish_build(None);
    engine.set_catalog_fingerprint(42);
    engine.record_applied_sync_id(7);
    engine.record_pending_sync_rows(3);
    engine.mark_syncing();
    engine.mark_vacuum_required();

    assert!(engine.built);
    assert_eq!(engine.catalog_fingerprint, Some(42));
    assert_eq!(engine.applied_sync_id, 7);
    assert_eq!(engine.pending_sync_rows, 3);
    assert_eq!(engine.sync_status, SyncStatus::Syncing);
    assert!(engine.needs_vacuum);

    engine.record_pending_sync_rows(0);
    engine.mark_idle_if_writable();
    engine.mark_vacuum_complete(None);

    assert_eq!(engine.pending_sync_rows, 0);
    assert_eq!(engine.sync_status, SyncStatus::Idle);
    assert!(!engine.needs_vacuum);
}

#[test]
fn edge_buffer_tracks_pending_mutations() {
    let mut engine = Engine::new();
    assert!(engine.edge_buffer.is_empty());

    engine.edge_buffer.push(EdgeMutation {
        source: 0,
        target: 1,
        type_id: 1,
        schema_reversed: false,
        relationship_id: None,
        kind: MutationKind::Insert,
    });
    engine.edge_buffer.push(EdgeMutation {
        source: 1,
        target: 2,
        type_id: 1,
        schema_reversed: false,
        relationship_id: None,
        kind: MutationKind::Delete,
    });

    assert_eq!(engine.edge_buffer.len(), 2);
    assert_eq!(engine.edge_buffer[0].kind, MutationKind::Insert);
    assert_eq!(engine.edge_buffer[1].kind, MutationKind::Delete);
}

#[test]
fn committed_wildcard_delete_coexists_with_identified_insert() {
    let mut engine = Engine::new();
    engine.edge_buffer.push(EdgeMutation {
        source: 0,
        target: 1,
        type_id: 1,
        schema_reversed: false,
        relationship_id: None,
        kind: MutationKind::Delete,
    });
    engine.edge_buffer.push(EdgeMutation {
        source: 0,
        target: 1,
        type_id: 1,
        schema_reversed: false,
        relationship_id: Some(9),
        kind: MutationKind::Insert,
    });

    let overlay = engine.traversal_edge_overlay(TraversalDirection::Out, &TxDelta::empty());
    assert_eq!(
        overlay.inserts,
        vec![OverlayEdge { relationship_id: Some(9), ..edge(0, 1, 1) }]
    );
    assert_eq!(overlay.deletes, vec![edge(0, 1, 1)]);
}

#[test]
fn finalize_resolution_preserves_existing_lookups() {
    let mut engine = Engine::new();
    engine.node_store.add_node(10, "first".to_string());
    engine.node_store.add_node(10, "second".to_string());
    engine.node_store.add_node(20, "other".to_string());
    engine.resolution_insert(10, "first", 0);
    engine.resolution_insert(10, "second", 1);
    engine.resolution_insert(20, "other", 2);

    engine.finalize_resolution();

    assert_eq!(engine.resolve(10, "first", &none()), Some(0));
    assert_eq!(engine.resolve(10, "second", &none()), Some(1));
    assert_eq!(engine.resolve(20, "other", &none()), Some(2));
    assert_eq!(engine.resolve(10, "missing", &none()), None);
}


/// Build a small test engine with 5 nodes (A-E), edges, and resolution.
/// Graph: A→B→C→D, A→E (type 2). All bidirectional.
fn build_test_engine() -> Engine {
    let mut eng = Engine::new();
    let oid = 100u32;
    for (i, pk) in ["A", "B", "C", "D", "E"].iter().enumerate() {
        eng.node_store.add_node(oid, pk.to_string());
        eng.resolution_insert(oid, pk, i as u32);
    }
    eng.register_edge_type("linked").unwrap(); // type_id=1
    eng.register_edge_type("owns").unwrap(); // type_id=2

    let edges = vec![
        RawEdge {
            source: 0,
            target: 1,
            type_id: EdgeTypeId(1),
            weight: None,
            schema_reversed: false,
        },
        RawEdge {
            source: 1,
            target: 0,
            type_id: EdgeTypeId(1),
            weight: None,
            schema_reversed: false,
        },
        RawEdge {
            source: 1,
            target: 2,
            type_id: EdgeTypeId(1),
            weight: None,
            schema_reversed: false,
        },
        RawEdge {
            source: 2,
            target: 1,
            type_id: EdgeTypeId(1),
            weight: None,
            schema_reversed: false,
        },
        RawEdge {
            source: 2,
            target: 3,
            type_id: EdgeTypeId(1),
            weight: None,
            schema_reversed: false,
        },
        RawEdge {
            source: 3,
            target: 2,
            type_id: EdgeTypeId(1),
            weight: None,
            schema_reversed: false,
        },
        RawEdge {
            source: 0,
            target: 4,
            type_id: EdgeTypeId(2),
            weight: None,
            schema_reversed: false,
        },
        RawEdge {
            source: 4,
            target: 0,
            type_id: EdgeTypeId(2),
            weight: None,
            schema_reversed: false,
        },
    ];
    eng.edge_store = EdgeStore::from_edges(5, edges, false);
    eng.reverse_edge_store = eng.edge_store.reversed();
    eng.built = true;
    eng
}

#[test]
fn projection_manifest_installs_new_exact_node_identity_and_tenant() {
    let mut engine = Engine::new();
    engine.node_store.add_node(42, "base".to_string());
    engine.resolution_insert(42, "base", 0);
    engine.rebuild_table_membership();
    let mut segment = ProjectionSegment::empty();
    segment.node_states.push(SegmentNodeState {
        node_idx: 1,
        active: true,
    });
    segment.resolutions.push(SegmentResolution {
        table_oid: 42,
        pk_hash: hash_pk("新-node"),
        primary_key: Some("新-node".to_string()),
        node_idx: 1,
        tombstone: false,
    });
    segment.tenants.push(SegmentTenant {
        node_idx: 1,
        tenant_hash: xxhash_rust::xxh3::xxh3_64("tenant-ß".as_bytes()),
        tenant: Some("tenant-ß".to_string()),
        tombstone: false,
    });
    let segments = vec![segment];

    let base = engine.edge_store.clone();
    engine
        .install_projection_manifest(manifest(&segments), &base, &segments)
        .expect("exact node projection installs");

    assert_eq!(engine.node_store.node_count(), 2);
    assert_eq!(engine.resolve(42, "新-node", &none()), Some(1));
    assert!(engine.node_store.is_active(1));
    assert!(engine.tenant_membership.contains("tenant-ß", 1));
}

#[test]
fn projection_manifest_rejects_node_gap_without_mutating_engine() {
    let mut engine = Engine::new();
    engine.node_store.add_node(42, "base".to_string());
    engine.resolution_insert(42, "base", 0);
    let mut segment = ProjectionSegment::empty();
    segment.resolutions.push(SegmentResolution {
        table_oid: 42,
        pk_hash: hash_pk("gap"),
        primary_key: Some("gap".to_string()),
        node_idx: 3,
        tombstone: false,
    });
    let segments = vec![segment];

    let base = engine.edge_store.clone();
    let error = engine
        .install_projection_manifest(manifest(&segments), &base, &segments)
        .expect_err("node allocation gap is rejected");

    assert!(matches!(error, GraphError::CorruptFile { .. }));
    assert_eq!(engine.node_store.node_count(), 1);
    assert_eq!(engine.resolve(42, "base", &none()), Some(0));
    assert_eq!(engine.resolve(42, "gap", &none()), None);
    assert!(engine.projection_manifest.is_none());
}

#[test]
fn projection_manifest_delete_then_reinsert_uses_new_node_slot() {
    let mut engine = Engine::new();
    engine.node_store.add_node(42, "same".to_string());
    engine.resolution_insert(42, "same", 0);
    engine.rebuild_table_membership();
    let mut deletion = ProjectionSegment::empty();
    deletion.node_states.push(SegmentNodeState {
        node_idx: 0,
        active: false,
    });
    deletion.resolutions.push(SegmentResolution {
        table_oid: 42,
        pk_hash: hash_pk("same"),
        primary_key: Some("same".to_string()),
        node_idx: 0,
        tombstone: true,
    });
    let mut insertion = ProjectionSegment::empty();
    insertion.node_states.push(SegmentNodeState {
        node_idx: 1,
        active: true,
    });
    insertion.resolutions.push(SegmentResolution {
        table_oid: 42,
        pk_hash: hash_pk("same"),
        primary_key: Some("same".to_string()),
        node_idx: 1,
        tombstone: false,
    });
    let segments = vec![deletion, insertion];

    let base = engine.edge_store.clone();
    engine
        .install_projection_manifest(manifest(&segments), &base, &segments)
        .expect("delete and reinsert projection installs");

    assert!(!engine.node_store.is_active(0));
    assert!(engine.node_store.is_active(1));
    assert_eq!(engine.resolve(42, "same", &none()), Some(1));
}

#[test]
fn projection_manifest_preserves_transient_node_slot_as_inactive() {
    let mut engine = Engine::new();
    let mut segment = ProjectionSegment::empty();
    segment.node_states.push(SegmentNodeState {
        node_idx: 0,
        active: false,
    });
    segment.resolutions.push(SegmentResolution {
        table_oid: 42,
        pk_hash: hash_pk("transient"),
        primary_key: Some("transient".to_string()),
        node_idx: 0,
        tombstone: true,
    });
    let segments = vec![segment];

    let base = engine.edge_store.clone();
    engine
        .install_projection_manifest(manifest(&segments), &base, &segments)
        .expect("transient allocation installs as a durable tombstone");

    assert_eq!(engine.node_store.node_count(), 1);
    assert!(!engine.node_store.is_active(0));
    assert_eq!(engine.resolve(42, "transient", &none()), None);
}

#[test]
fn projection_manifest_accepts_v5_resolution_for_existing_base_node() {
    let mut engine = Engine::new();
    engine.node_store.add_node(42, "legacy".to_string());
    engine.resolution_insert(42, "legacy", 0);
    let mut segment = ProjectionSegment::empty();
    segment.resolutions.push(SegmentResolution {
        table_oid: 42,
        pk_hash: hash_pk("legacy"),
        primary_key: None,
        node_idx: 0,
        tombstone: false,
    });
    let segments = vec![segment];

    let base = engine.edge_store.clone();
    engine
        .install_projection_manifest(manifest(&segments), &base, &segments)
        .expect("v5 base resolution installs");

    assert_eq!(engine.resolve(42, "legacy", &none()), Some(0));
}

#[test]
fn projection_manifest_rejects_v5_tenant_without_exact_identity() {
    let mut engine = Engine::new();
    engine.node_store.add_node(42, "legacy".to_string());
    engine.resolution_insert(42, "legacy", 0);
    let mut segment = ProjectionSegment::empty();
    segment.tenants.push(SegmentTenant {
        node_idx: 0,
        tenant_hash: xxhash_rust::xxh3::xxh3_64(b"legacy-tenant"),
        tenant: None,
        tombstone: false,
    });
    let segments = vec![segment];

    let base = engine.edge_store.clone();
    let error = engine
        .install_projection_manifest(manifest(&segments), &base, &segments)
        .expect_err("v5 tenant without exact identity is rejected");

    assert!(matches!(error, GraphError::IncompatibleVersion(_)));
    assert!(engine.tenant_membership.len() == 0);
    assert!(engine.projection_manifest.is_none());
}


#[test]
fn traverse_not_built_returns_error() {
    let engine = Engine::new();
    let result = engine.traverse(
        1,
        "A",
        5,
        100000,
        100000,
        None,
        None,
        None,
        TraversalStrategy::Bfs,
        TraversalDirection::Out,
        &TxDelta::empty(),
        limits(),
    );
    assert!(matches!(result, Err(GraphError::NotBuilt)));
}

#[test]
fn traverse_nonexistent_seed_returns_node_not_found() {
    let eng = build_test_engine();
    let result = eng.traverse(
        100,
        "GHOST",
        5,
        100000,
        100000,
        None,
        None,
        None,
        TraversalStrategy::Bfs,
        TraversalDirection::Out,
        &TxDelta::empty(),
        limits(),
    );
    match result {
        Err(GraphError::NodeNotFound { pk, .. }) => assert_eq!(pk, "GHOST"),
        other => panic!("expected NodeNotFound, got {:?}", other),
    }
}

#[test]
fn traverse_returns_seed_at_depth_zero() {
    let eng = build_test_engine();
    let results = eng
        .traverse(
            100,
            "A",
            5,
            100000,
            100000,
            None,
            None,
            None,
            TraversalStrategy::Bfs,
            TraversalDirection::Out,
            &TxDelta::empty(),
            limits(),
        )
        .unwrap();
    let seed = results.iter().find(|r| r.node_id == "A").unwrap();
    assert_eq!(seed.depth, 0);
}

#[test]
fn traverse_discovers_all_nodes() {
    let eng = build_test_engine();
    let results = eng
        .traverse(
            100,
            "A",
            10,
            100000,
            100000,
            None,
            None,
            None,
            TraversalStrategy::Bfs,
            TraversalDirection::Out,
            &TxDelta::empty(),
            limits(),
        )
        .unwrap();
    assert_eq!(results.len(), 5);
}

#[test]
fn traverse_dfs_discovers_all_nodes() {
    let eng = build_test_engine();
    let results = eng
        .traverse(
            100,
            "A",
            10,
            100000,
            100000,
            None,
            None,
            None,
            TraversalStrategy::Dfs,
            TraversalDirection::Out,
            &TxDelta::empty(),
            limits(),
        )
        .unwrap();
    assert_eq!(results.len(), 5);
    assert!(results.iter().any(|row| row.node_id == "D"));
}

#[test]
fn traverse_respects_max_depth() {
    let eng = build_test_engine();
    let results = eng
        .traverse(
            100,
            "A",
            1,
            100000,
            100000,
            None,
            None,
            None,
            TraversalStrategy::Bfs,
            TraversalDirection::Out,
            &TxDelta::empty(),
            limits(),
        )
        .unwrap();
    // depth 0: A, depth 1: B, E
    assert_eq!(results.len(), 3);
}

#[test]
fn traverse_edge_type_filter() {
    let eng = build_test_engine();
    // Only "linked" edges — should not reach E
    let types = Some(vec!["linked".to_string()]);
    let results = eng
        .traverse(
            100,
            "A",
            10,
            100000,
            100000,
            types,
            None,
            None,
            TraversalStrategy::Bfs,
            TraversalDirection::Out,
            &TxDelta::empty(),
            limits(),
        )
        .unwrap();
    assert!(!results.iter().any(|r| r.node_id == "E"));
    assert_eq!(results.len(), 4); // A, B, C, D
}

#[test]
fn traverse_in_direction_uses_reverse_csr_and_reversed_overlay() {
    let mut eng = Engine::new();
    eng.node_store.add_node(100, "A".to_string());
    eng.node_store.add_node(100, "B".to_string());
    eng.resolution_insert(100, "A", 0);
    eng.resolution_insert(100, "B", 1);
    eng.register_edge_type("follows").unwrap();
    eng.edge_store = EdgeStore::from_edges(
        2,
        vec![RawEdge {
            source: 0,
            target: 1,
            type_id: EdgeTypeId(1),
            weight: None,
            schema_reversed: false,
        }],
        false,
    );
    eng.reverse_edge_store = eng.edge_store.reversed();
    eng.built = true;

    let inbound = eng
        .traverse(
            100,
            "B",
            1,
            100000,
            100000,
            Some(vec!["follows".to_string()]),
            None,
            None,
            TraversalStrategy::Bfs,
            TraversalDirection::In,
            &TxDelta::empty(),
            limits(),
        )
        .unwrap();
    assert!(inbound.iter().any(|row| row.node_id == "A"));

    eng.push_edge_mutation(EdgeMutation {
        source: 1,
        target: 0,
        type_id: 1,
        schema_reversed: false,
        relationship_id: None,
        kind: MutationKind::Insert,
    }, 1000)
    .unwrap();
    let inbound_overlay = eng
        .traverse(
            100,
            "A",
            1,
            100000,
            100000,
            Some(vec!["follows".to_string()]),
            None,
            None,
            TraversalStrategy::Bfs,
            TraversalDirection::In,
            &TxDelta::empty(),
            limits(),
        )
        .unwrap();
    assert!(inbound_overlay.iter().any(|row| row.node_id == "B"));
}

#[test]
fn traverse_uses_transaction_delta_edge_insert() {
    let eng = build_test_engine();
    let delta = inserting(4, 3, 1);

    let results = eng
        .traverse(
            100,
            "E",
            1,
            100000,
            100000,
            Some(vec!["linked".to_string()]),
            None,
            None,
            TraversalStrategy::Bfs,
            TraversalDirection::Out,
            &delta,
            limits(),
        )
        .unwrap();

    assert!(results.iter().any(|row| row.node_id == "D"));
}

#[test]
fn traverse_hides_transaction_delta_edge_delete() {
    let eng = build_test_engine();
    let delta = deleting(&[(1, 2)], 1);

    let results = eng
        .traverse(
            100,
            "A",
            10,
            100000,
            100000,
            Some(vec!["linked".to_string()]),
            None,
            None,
            TraversalStrategy::Bfs,
            TraversalDirection::Out,
            &delta,
            limits(),
        )
        .unwrap();

    assert!(!results.iter().any(|row| row.node_id == "C"));
    assert!(!results.iter().any(|row| row.node_id == "D"));
}

#[test]
fn traverse_invalid_filter_returns_error() {
    let eng = build_test_engine();
    let result = eng.traverse(
        100,
        "A",
        5,
        100000,
        100000,
        None,
        Some("bad >>= lol"),
        None,
        TraversalStrategy::Bfs,
        TraversalDirection::Out,
        &TxDelta::empty(),
        limits(),
    );
    assert!(matches!(result, Err(GraphError::InvalidFilter { .. })));
}

#[test]
fn traverse_unknown_edge_type_traverses_nothing_extra() {
    let eng = build_test_engine();
    let types = Some(vec!["nonexistent_type".to_string()]);
    let result = eng.traverse(
        100,
        "A",
        10,
        100000,
        100000,
        types,
        None,
        None,
        TraversalStrategy::Bfs,
        TraversalDirection::Out,
        &TxDelta::empty(),
        limits(),
    );
    assert!(matches!(result, Err(GraphError::InvalidFilter { .. })));
}

#[test]
fn traverse_seed_without_csr_slot_is_safe() {
    let mut eng = Engine::new();
    let oid = 100u32;
    eng.node_store.add_node(oid, "orphan".to_string());
    eng.resolution_insert(oid, "orphan", 0);
    eng.built = true;

    let results = eng
        .traverse(
            oid,
            "orphan",
            3,
            100_000,
            100_000,
            None,
            None,
            None,
            TraversalStrategy::Bfs,
            TraversalDirection::Out,
            &TxDelta::empty(),
            limits(),
        )
        .unwrap();
    assert_eq!(results.len(), 1);
    assert_eq!(results[0].node_id, "orphan");
    assert_eq!(results[0].depth, 0);
}


#[test]
fn shortest_path_not_built_returns_error() {
    let engine = Engine::new();
    let result = engine.shortest_path(1, "A", 1, "B", 10, &TxDelta::empty(), limits());
    assert!(matches!(result, Err(GraphError::NotBuilt)));
}

#[test]
fn shortest_path_nonexistent_source() {
    let eng = build_test_engine();
    let result = eng.shortest_path(100, "GHOST", 100, "A", 10, &TxDelta::empty(), limits());
    assert!(matches!(result, Err(GraphError::NodeNotFound { .. })));
}

#[test]
fn shortest_path_nonexistent_target() {
    let eng = build_test_engine();
    let result = eng.shortest_path(100, "A", 100, "GHOST", 10, &TxDelta::empty(), limits());
    assert!(matches!(result, Err(GraphError::NodeNotFound { .. })));
}

#[test]
fn shortest_path_returns_correct_path() {
    let eng = build_test_engine();
    let steps = eng.shortest_path(100, "A", 100, "D", 10, &TxDelta::empty(), limits()).unwrap();
    assert!(!steps.is_empty());
    assert_eq!(steps.first().unwrap().node_id, "A");
    assert_eq!(steps.last().unwrap().node_id, "D");
}

#[test]
fn shortest_path_uses_pending_edge_overlay() {
    let mut eng = build_test_engine();
    eng.has_unidirectional_edges = true;
    eng.edge_buffer.push(EdgeMutation {
        source: 4,
        target: 3,
        type_id: 1,
        schema_reversed: false,
        relationship_id: None,
        kind: MutationKind::Insert,
    });

    let steps = eng.shortest_path(100, "A", 100, "D", 10, &TxDelta::empty(), limits()).unwrap();

    assert_eq!(
        steps
            .iter()
            .map(|step| step.node_id.as_str())
            .collect::<Vec<_>>(),
        vec!["A", "E", "D"]
    );
}

#[test]
fn shortest_path_hides_deleted_overlay_edges() {
    let mut eng = build_test_engine();
    eng.has_unidirectional_edges = true;
    eng.edge_buffer.push(EdgeMutation {
        source: 1,
        target: 2,
        type_id: 1,
        schema_reversed: false,
        relationship_id: None,
        kind: MutationKind::Delete,
    });

    let steps = eng.shortest_path(100, "A", 100, "D", 10, &TxDelta::empty(), limits()).unwrap();

    assert!(steps.is_empty());
}

#[test]
fn shortest_path_uses_transaction_delta_edge_insert() {
    let mut eng = build_test_engine();
    eng.has_unidirectional_edges = true;
    let delta = inserting(4, 3, 1);

    let steps = eng.shortest_path(100, "A", 100, "D", 10, &delta, limits()).unwrap();

    assert_eq!(
        steps
            .iter()
            .map(|step| step.node_id.as_str())
            .collect::<Vec<_>>(),
        vec!["A", "E", "D"]
    );
}

#[test]
fn shortest_path_hides_transaction_delta_edge_delete() {
    let mut eng = build_test_engine();
    eng.has_unidirectional_edges = true;
    let delta = deleting(&[(1, 2)], 1);

    let steps = eng.shortest_path(100, "A", 100, "D", 10, &delta, limits()).unwrap();

    assert!(steps.is_empty());
}


#[test]
fn weighted_shortest_path_not_built_returns_error() {
    let engine = Engine::new();
    let result = engine.weighted_shortest_path(1, "A", 1, "B", &TxDelta::empty(), limits());
    assert!(matches!(result, Err(GraphError::NotBuilt)));
}

#[test]
fn weighted_shortest_path_unweighted_graph_returns_none() {
    let eng = build_test_engine(); // unweighted
    let result = eng.weighted_shortest_path(100, "A", 100, "D", &TxDelta::empty(), limits()).unwrap();
    assert!(result.is_empty());
}

#[test]
fn weighted_shortest_path_rejects_pending_edge_overlay() {
    let mut eng = build_test_engine();
    eng.edge_store = EdgeStore::from_edges(
        5,
        vec![RawEdge {
            source: 0,
            target: 1,
            type_id: EdgeTypeId(1),
            weight: Some(1),
            schema_reversed: false,
        }],
        true,
    );
    eng.edge_buffer.push(EdgeMutation {
        source: 1,
        target: 2,
        type_id: 1,
        schema_reversed: false,
        relationship_id: None,
        kind: MutationKind::Insert,
    });

    let result = eng.weighted_shortest_path(100, "A", 100, "C", &TxDelta::empty(), limits());

    assert!(matches!(
        result,
        Err(GraphError::UnsupportedOperation { .. })
    ));
}

#[test]
fn weighted_shortest_path_rejects_transaction_delta_edge_overlay() {
    let mut eng = build_test_engine();
    eng.edge_store = EdgeStore::from_edges(
        5,
        vec![RawEdge {
            source: 0,
            target: 1,
            type_id: EdgeTypeId(1),
            weight: Some(1),
            schema_reversed: false,
        }],
        true,
    );
    let delta = inserting(1, 2, 1);

    let result = eng.weighted_shortest_path(100, "A", 100, "C", &delta, limits());

    assert!(matches!(
        result,
        Err(GraphError::UnsupportedOperation { .. })
    ));
}

#[test]
fn shortest_path_uses_layered_manifest_snapshot() {
    let mut eng = build_test_engine();
    install_edge_segment_manifest(&mut eng, |segment| {
        segment
            .edge_inserts
            .push(edge(0, 3, 1));
    });

    let steps = eng.shortest_path(100, "A", 100, "D", 10, &TxDelta::empty(), limits()).unwrap();
    let repeated = eng.shortest_path(100, "A", 100, "D", 10, &TxDelta::empty(), limits()).unwrap();

    assert_eq!(
        steps
            .iter()
            .map(|step| step.node_id.as_str())
            .collect::<Vec<_>>(),
        vec!["A", "D"]
    );
    assert_eq!(
        steps
            .iter()
            .map(|step| step.node_id.as_str())
            .collect::<Vec<_>>(),
        repeated
            .iter()
            .map(|step| step.node_id.as_str())
            .collect::<Vec<_>>()
    );
}

#[test]
fn csr_readonly_base_only_manifest_bypasses_segment_lookup() {
    let mut eng = build_test_engine();
    install_edge_segment_manifest(&mut eng, |segment| {
        segment
            .edge_inserts
            .push(edge(0, 3, 1));
    });
    eng.set_projection_mode(ProjectionMode::CsrReadonly);

    let steps = eng.shortest_path(100, "A", 100, "D", 10, &TxDelta::empty(), limits()).unwrap();

    assert_eq!(
        steps
            .iter()
            .map(|step| step.node_id.as_str())
            .collect::<Vec<_>>(),
        vec!["A", "B", "C", "D"]
    );
}

#[test]
fn traversal_uses_layered_manifest_snapshot() {
    let mut eng = build_test_engine();
    install_edge_segment_manifest(&mut eng, |segment| {
        segment
            .edge_inserts
            .push(edge(0, 3, 1));
    });

    let rows = eng
        .traverse(
            100,
            "A",
            1,
            100,
            100,
            None,
            None,
            None,
            TraversalStrategy::Bfs,
            TraversalDirection::Out,
            &TxDelta::empty(),
            limits(),
        )
        .unwrap();

    assert!(rows.iter().any(|row| row.node_id == "D"));
}

#[test]
fn traversal_layered_manifest_preserves_pending_edge_buffer_overlay() {
    let mut eng = build_test_engine();
    install_edge_segment_manifest(&mut eng, |_| {});
    eng.edge_buffer.push(EdgeMutation {
        source: 4,
        target: 3,
        type_id: 1,
        schema_reversed: false,
        relationship_id: None,
        kind: MutationKind::Insert,
    });

    let rows = eng
        .traverse(
            100,
            "E",
            1,
            100,
            100,
            Some(vec!["linked".to_string()]),
            None,
            None,
            TraversalStrategy::Bfs,
            TraversalDirection::Out,
            &TxDelta::empty(),
            limits(),
        )
        .unwrap();

    assert!(rows.iter().any(|row| row.node_id == "D"));
}

#[test]
fn traversal_in_direction_uses_layered_manifest_snapshot() {
    let mut eng = build_test_engine();
    install_edge_segment_manifest(&mut eng, |segment| {
        segment
            .edge_inserts
            .push(edge(0, 3, 1));
    });

    let rows = eng
        .traverse(
            100,
            "D",
            1,
            100,
            100,
            None,
            None,
            None,
            TraversalStrategy::Bfs,
            TraversalDirection::In,
            &TxDelta::empty(),
            limits(),
        )
        .unwrap();

    assert!(rows.iter().any(|row| row.node_id == "A"));
}

#[test]
fn traversal_in_direction_uses_layered_base_reverse_csr() {
    let mut eng = build_test_engine();
    install_edge_segment_manifest(&mut eng, |_| {});

    let rows = eng
        .traverse(
            100,
            "D",
            1,
            100,
            100,
            Some(vec!["linked".to_string()]),
            None,
            None,
            TraversalStrategy::Bfs,
            TraversalDirection::In,
            &TxDelta::empty(),
            limits(),
        )
        .unwrap();

    assert!(rows.iter().any(|row| row.node_id == "C"));
}

#[test]
fn shortest_path_layered_manifest_preserves_pending_edge_buffer_overlay() {
    let mut eng = build_test_engine();
    install_edge_segment_manifest(&mut eng, |_| {});
    eng.has_unidirectional_edges = true;
    eng.edge_buffer.push(EdgeMutation {
        source: 4,
        target: 3,
        type_id: 1,
        schema_reversed: false,
        relationship_id: None,
        kind: MutationKind::Insert,
    });

    let steps = eng.shortest_path(100, "A", 100, "D", 10, &TxDelta::empty(), limits()).unwrap();

    assert_eq!(
        steps
            .iter()
            .map(|step| step.node_id.as_str())
            .collect::<Vec<_>>(),
        vec!["A", "E", "D"]
    );
}

#[test]
fn weighted_shortest_path_uses_layered_manifest_snapshot() {
    let mut eng = build_test_engine();
    eng.edge_store = EdgeStore::from_edges(
        5,
        vec![RawEdge {
            source: 0,
            target: 1,
            type_id: EdgeTypeId(1),
            weight: Some(10),
            schema_reversed: false,
        }],
        true,
    );
    eng.reverse_edge_store = eng.edge_store.reversed();
    install_edge_segment_manifest(&mut eng, |segment| {
        segment
            .edge_inserts
            .push(edge(0, 3, 1));
        segment
            .edge_weights
            .push(SegmentEdgeWeight { edge: edge(0, 3, 1), weight: 2 });
    });

    let steps = eng.weighted_shortest_path(100, "A", 100, "D", &TxDelta::empty(), limits()).unwrap();

    assert_eq!(
        steps
            .iter()
            .map(|step| (step.node_id.as_str(), step.step_cost))
            .collect::<Vec<_>>(),
        vec![("A", 0), ("D", 2)]
    );
}

#[test]
fn components_use_layered_manifest_snapshot() {
    let mut eng = Engine::new();
    for (idx, pk) in ["A", "B", "C", "D"].iter().enumerate() {
        eng.node_store.add_node(100, pk.to_string());
        eng.resolution_insert(100, pk, idx as u32);
    }
    eng.register_edge_type("linked").unwrap();
    eng.edge_store = EdgeStore::from_edges(
        4,
        vec![RawEdge {
            source: 0,
            target: 1,
            type_id: EdgeTypeId(1),
            weight: None,
            schema_reversed: false,
        }],
        false,
    );
    eng.reverse_edge_store = eng.edge_store.reversed();
    eng.built = true;
    install_edge_segment_manifest(&mut eng, |segment| {
        segment
            .edge_inserts
            .push(edge(2, 3, 1));
    });

    let result = eng.connected_components(&TxDelta::empty(), limits()).unwrap();

    assert_eq!(result.num_components, 2);
    assert_eq!(result.largest_component_size, 2);
}

#[test]
fn components_layered_manifest_preserves_pending_edge_buffer_overlay() {
    let mut eng = Engine::new();
    for (idx, pk) in ["A", "B", "C", "D"].iter().enumerate() {
        eng.node_store.add_node(100, pk.to_string());
        eng.resolution_insert(100, pk, idx as u32);
    }
    eng.register_edge_type("linked").unwrap();
    eng.edge_store = EdgeStore::from_edges(
        4,
        vec![RawEdge {
            source: 0,
            target: 1,
            type_id: EdgeTypeId(1),
            weight: None,
            schema_reversed: false,
        }],
        false,
    );
    eng.reverse_edge_store = eng.edge_store.reversed();
    eng.built = true;
    install_edge_segment_manifest(&mut eng, |_| {});
    eng.edge_buffer.push(EdgeMutation {
        source: 2,
        target: 3,
        type_id: 1,
        schema_reversed: false,
        relationship_id: None,
        kind: MutationKind::Insert,
    });

    let result = eng.connected_components(&TxDelta::empty(), limits()).unwrap();

    assert_eq!(result.num_components, 2);
    assert_eq!(result.largest_component_size, 2);
}


#[test]
fn connected_components_not_built_returns_error() {
    let engine = Engine::new();
    let result = engine.connected_components(&TxDelta::empty(), limits());
    assert!(matches!(result, Err(GraphError::NotBuilt)));
}

#[test]
fn connected_components_single_component() {
    let eng = build_test_engine();
    let result = eng.connected_components(&TxDelta::empty(), limits()).unwrap();
    assert_eq!(result.num_components, 1);
    assert_eq!(result.largest_component_size, 5);
}

#[test]
fn connected_components_honor_pending_edge_deletes() {
    let mut eng = build_test_engine();
    for (source, target) in [(1, 2), (2, 1)] {
        eng.edge_buffer.push(EdgeMutation {
            source,
            target,
            type_id: 1,
            schema_reversed: false,
            relationship_id: None,
            kind: MutationKind::Delete,
        });
    }

    let result = eng.connected_components(&TxDelta::empty(), limits()).unwrap();

    assert_eq!(result.num_components, 2);
}

#[test]
fn connected_components_honor_transaction_delta_edge_deletes() {
    let eng = build_test_engine();
    let delta = deleting(&[(1, 2), (2, 1)], 1);

    let result = eng.connected_components(&delta, limits()).unwrap();

    assert_eq!(result.num_components, 2);
}


#[test]
fn register_edge_type_returns_existing_id_for_duplicate() {
    let mut engine = Engine::new();
    let id1 = engine.register_edge_type("friend").unwrap();
    let id2 = engine.register_edge_type("friend").unwrap();
    assert_eq!(id1, id2);
}

#[test]
fn register_edge_type_limit_at_255() {
    let mut engine = Engine::new();
    // Index 0 is already "" (untyped). Fill up to 255 total.
    for i in 1..255u16 {
        engine.register_edge_type(&format!("type_{}", i)).unwrap();
    }
    assert_eq!(engine.edge_type_registry.len(), 255);
    let result = engine.register_edge_type("one_too_many");
    assert!(matches!(result, Err(GraphError::EdgeTypeLimit)));
}

fn traverse(
    engine: &Engine,
    strategy: TraversalStrategy,
    max_depth: i32,
    max_nodes: u32,
    max_frontier: u32,
) -> Vec<(String, i32)> {
    engine
        .traverse(
            100,
            "A",
            max_depth,
            max_nodes,
            max_frontier,
            None,
            None,
            None,
            strategy,
            TraversalDirection::Out,
            &TxDelta::empty(),
            limits(),
        )
        .unwrap()
        .into_iter()
        .map(|row| (row.node_id, row.depth))
        .collect()
}

fn listed(rows: &[(&str, i32)]) -> Vec<(String, i32)> {
    rows.iter().map(|(name, depth)| (name.to_string(), *depth)).collect()
}

#[test]
fn traversal_orders_are_breadth_or_depth_first() {
    let eng = build_test_engine();
    assert_eq!(
        traverse(&eng, TraversalStrategy::Bfs, 10, 100, 100),
        listed(&[("A", 0), ("B", 1), ("E", 1), ("C", 2), ("D", 3)])
    );
    let mut deep = Engine::new();
    for (i, pk) in ["A", "B", "C", "D", "E"].iter().enumerate() {
        deep.node_store.add_node(100, pk.to_string());
        deep.resolution_insert(100, pk, i as u32);
    }
    let raw = |source, target| RawEdge {
        source,
        target,
        type_id: EdgeTypeId(0),
        weight: None,
        schema_reversed: false,
    };
    deep.edge_store =
        EdgeStore::from_edges(5, vec![raw(0, 1), raw(0, 2), raw(1, 3), raw(2, 4)], false);
    deep.built = true;
    assert_eq!(
        traverse(&deep, TraversalStrategy::Dfs, 10, 100, 100),
        listed(&[("A", 0), ("B", 1), ("C", 1), ("E", 2), ("D", 2)])
    );
}

#[test]
fn limited_traversals_list_a_beginning() {
    let eng = build_test_engine();
    let all = traverse(&eng, TraversalStrategy::Bfs, 10, 100, 100);
    for max_nodes in 1..5 {
        assert_eq!(
            traverse(&eng, TraversalStrategy::Bfs, 10, max_nodes, 100)[..],
            all[..max_nodes as usize]
        );
    }
    assert_eq!(traverse(&eng, TraversalStrategy::Bfs, 10, 100, 1)[..], all[..2]);
    assert_eq!(traverse(&eng, TraversalStrategy::Bfs, -1, 100, 100)[..], all[..1]);
}

#[test]
fn traversal_rows_tell_their_path() {
    let eng = build_test_engine();
    let rows = eng
        .traverse(
            100,
            "A",
            10,
            100,
            100,
            None,
            None,
            None,
            TraversalStrategy::Bfs,
            TraversalDirection::Out,
            &TxDelta::empty(),
            limits(),
        )
        .unwrap();
    let last = rows.last().unwrap();
    let names: Vec<&str> = last.path.iter().map(|node| node.node_id.as_str()).collect();
    assert_eq!(names, vec!["A", "B", "C", "D"]);
    assert_eq!(last.edge_path, vec!["linked", "linked", "linked"]);
    assert_eq!(rows[0].edge_path, Vec::<String>::new());
}

#[test]
fn an_empty_list_of_types_matches_none() {
    let eng = build_test_engine();
    let rows = eng
        .traverse(
            100,
            "A",
            10,
            100,
            100,
            Some(vec![]),
            None,
            None,
            TraversalStrategy::Bfs,
            TraversalDirection::Out,
            &TxDelta::empty(),
            limits(),
        )
        .unwrap();
    assert_eq!(rows.len(), 1);
}

#[test]
fn filters_and_tenants_hide_nodes() {
    let mut eng = build_test_engine();
    let column =
        eng.filter_index.register_typed_column(100, "score".into(), FilterColumnType::Numeric, 5);
    for node in 0..5 {
        let value = Some(EncodedFilterValue::Numeric(i64::from(node)));
        eng.filter_index.set_encoded_value(column, node, value);
    }
    let run = |eng: &Engine, ops: Vec<FilterOp>, tenant: Option<&str>| -> Vec<String> {
        eng.traverse_with_filter_ops(
            100,
            "A",
            10,
            100,
            100,
            None,
            ops,
            tenant,
            TraversalStrategy::Bfs,
            TraversalDirection::Out,
            &TxDelta::empty(),
            limits(),
        )
        .unwrap()
        .into_iter()
        .map(|row| row.node_id)
        .collect()
    };
    let below = vec![FilterOp::new(column, FilterCondition::LtI64(3))];
    assert_eq!(run(&eng, below, None), vec!["A", "B", "C"]);
    eng.tenanted_table_oids.insert(100);
    eng.insert_tenant_membership("acme", 4);
    assert_eq!(run(&eng, vec![], Some("acme")), vec!["A", "E"]);
    assert_eq!(run(&eng, vec![], None).len(), 5);
}

#[test]
fn a_traversal_keeps_its_rows_reserved() {
    let eng = build_test_engine();
    let mut governor = ResourceGovernor::new(limits());
    let rows = eng
        .traverse_with_filter_ops_governed(
            100,
            "A",
            1,
            100,
            100,
            None,
            vec![],
            None,
            TraversalStrategy::Bfs,
            TraversalDirection::Out,
            &TxDelta::empty(),
            &mut governor,
        )
        .unwrap();
    let bound = eng.traversal_result_upper_bound(rows.len(), 1).unwrap();
    assert_eq!(governor.memory_used(), bound);

    let mut poor = ResourceGovernor::new(ResourceLimits::bounded(1 << 30, 1, None));
    let result = eng.traverse_with_filter_ops_governed(
        100,
        "A",
        1,
        100,
        100,
        None,
        vec![],
        None,
        TraversalStrategy::Bfs,
        TraversalDirection::Out,
        &TxDelta::empty(),
        &mut poor,
    );
    assert!(matches!(
        result,
        Err(GraphError::ResourceLimit {
            phase: ResourcePhase::QueryExpand,
            resource: ResourceKind::Work
        })
    ));
    assert_eq!(poor.memory_used(), 0);
}

#[test]
fn a_path_keeps_its_workspace_reserved() {
    let eng = build_test_engine();
    let mut governor = ResourceGovernor::new(limits());
    let path = eng
        .shortest_path_governed(100, "A", 100, "D", 10, &TxDelta::empty(), &mut governor)
        .unwrap();
    assert_eq!(path.len(), 4);
    assert_eq!(governor.memory_used(), 80 * 5);

    let mut poor = ResourceGovernor::new(ResourceLimits::memory_only(80 * 5 - 1));
    let result =
        eng.shortest_path_governed(100, "A", 100, "D", 10, &TxDelta::empty(), &mut poor);
    assert!(matches!(
        result,
        Err(GraphError::ResourceLimit {
            phase: ResourcePhase::QueryPaths,
            resource: ResourceKind::Memory
        })
    ));
}

#[test]
fn a_deleted_node_is_not_found() {
    let eng = build_test_engine();
    let mut delta = TxDelta::empty();
    delta.deleted_nodes.insert(1);
    assert_eq!(eng.resolve(100, "B", &delta.deleted_nodes), None);
    assert_eq!(eng.resolve_identity(100, "B"), Some(1));
    let path = eng.shortest_path(100, "A", 100, "D", 10, &delta, limits()).unwrap();
    assert!(path.is_empty());
}

#[test]
fn components_number_their_nodes() {
    let mut eng = build_test_engine();
    eng.node_store.add_node(100, "F".to_string());
    let result = eng.connected_components(&TxDelta::empty(), limits()).unwrap();
    assert_eq!(result.num_components, 2);
    assert_eq!(result.largest_component_size, 5);
    assert_eq!(result.component_of[0], result.component_of[3]);
    assert_ne!(result.component_of[0], result.component_of[5]);
}

#[test]
fn a_full_buffer_makes_the_engine_read_only() {
    let mut eng = build_test_engine();
    let mutation = EdgeMutation {
        source: 0,
        target: 1,
        type_id: 1,
        schema_reversed: false,
        relationship_id: None,
        kind: MutationKind::Insert,
    };
    eng.push_edge_mutation(mutation, 1).unwrap();
    assert!(matches!(
        eng.push_edge_mutation(mutation, 1),
        Err(GraphError::EdgeBufferFull { .. })
    ));
    eng.mark_read_only(ReadOnlyReason::EdgeBufferFull);
    assert_eq!(eng.sync_status, SyncStatus::ReadOnly);
    assert!(matches!(eng.read_only_error(), GraphError::ReadOnly { .. }));
    eng.mark_idle_if_writable();
    assert_eq!(eng.sync_status, SyncStatus::ReadOnly);
}

#[test]
fn sync_nodes_are_inserted_and_tombstoned() {
    let mut eng = build_test_engine();
    let node = eng.insert_sync_node(100, "F");
    assert_eq!(node, 5);
    assert!(!eng.table_membership.contains(100, 5));
    eng.insert_table_membership(100, node);
    assert!(eng.table_membership.contains(100, 5));
    eng.resolution_insert(100, "F", node);
    assert_eq!(eng.resolve(100, "F", &none()), Some(5));
    assert!(eng.tombstone_sync_node(100, node));
    assert_eq!(eng.resolve(100, "F", &none()), None);
    assert!(!eng.tombstone_sync_node(100, 99));
}

#[test]
fn a_stored_index_answers_from_mapped_bytes() {
    let mut source = Engine::new();
    source.node_store.add_node(7, "x".to_string());
    source.node_store.add_node(7, "y".to_string());
    source.resolution_insert(7, "x", 0);
    source.resolution_insert(7, "y", 1);
    let bytes = source.resolution_to_bytes();
    let mut node_store = NodeStore::new();
    node_store.add_node(7, "x".to_string());
    node_store.add_node(7, "y".to_string());
    let state = MmapResolutionState { offset: 0, len: bytes.len() };
    let length = bytes.len();
    let mut eng = Engine::new();
    eng.install_mmap_backed_graph(MmapBackedGraph {
        node_store,
        edge_store: EdgeStore::with_nodes(2, false),
        reverse_edge_store: EdgeStore::with_nodes(2, false),
        filter_index: FilterIndex::new(),
        edge_type_registry: vec!["".to_string()],
        relationship_identities: RelationshipIdentities::empty(),
        mmap: MappedBytes::from_bytes(bytes),
        resolution_state: state,
    })
    .unwrap();
    assert_eq!(eng.resolve(7, "y", &none()), Some(1));
    assert_eq!(eng.resolve(7, "z", &none()), None);
    assert_eq!(eng.estimated_mmap_bytes(), length);
}

#[test]
fn status_counts_pending_changes() {
    let mut eng = build_test_engine();
    eng.edge_buffer.push(EdgeMutation {
        source: 1,
        target: 2,
        type_id: 1,
        schema_reversed: false,
        relationship_id: None,
        kind: MutationKind::Delete,
    });
    let mut delta = deleting(&[(0, 1)], 1);
    delta.deleted_nodes.insert(3);
    let settings = |compaction_threshold| StatusSettings {
        memory_limit_mb: 64,
        sync_mode: "trigger".to_string(),
        compaction_threshold,
        max_overlay_memory_bytes: 1 << 20,
    };
    let status = eng.status(&delta, settings(10));
    assert_eq!(status.sync_mode, "trigger");
    assert_eq!(status.node_count, 5);
    assert_eq!(status.edge_count, 8);
    assert_eq!(status.edge_types, vec!["linked", "owns"]);
    assert_eq!(status.edge_buffer_used, 1);
    assert_eq!(status.overlay_tombstone_count, 3);
    assert!(status.tx_delta_dirty);
    assert!(!status.compaction_recommended);
    let eager = eng.status(&delta, settings(1));
    assert!(eager.compaction_recommended);
}

#[test]
fn profiles_count_at_least_one_backend() {
    let profile = profile_of(100, 0, 8);
    assert_eq!(profile.assumed_concurrent_backends, 1);
    assert_eq!(profile.estimated_instance_total_bytes, 100);
    assert_eq!(profile_of(100, 3, 8).estimated_instance_private_bytes, 300);
    assert_eq!(profile_of(usize::MAX, 2, 8).estimated_instance_total_bytes, usize::MAX);
}

#[test]
fn counted_bytes_follow_the_formula() {
    let eng = build_test_engine();
    // Five nodes, eight edges either way, no weights.
    let expected = 5 * 36 + 1 + (6 * 4 + 8 * 5) * 2 + 5 * 16;
    assert_eq!(eng.logical_bytes_with(0), expected);
    assert_eq!(eng.logical_bytes_with(7), expected + 7);
}

#[test]
fn base_chunks_replace_stored_rows() {
    let mut engine = build_test_engine();
    engine.set_projection_mode(ProjectionMode::MutableOverlay);
    let raw = |source, target| RawEdge {
        source,
        target,
        type_id: EdgeTypeId(1),
        weight: None,
        schema_reversed: false,
    };
    // The chunks leave the edges A to D and D to E alone.
    let base = EdgeStore::from_edges(5, vec![raw(0, 3), raw(3, 4)], false);
    let chunked = ProjectionManifest { base_chunk_count: 1, ..manifest(&[]) };
    engine.install_projection_manifest(chunked, &base, &vec![]).expect("chunks install");
    let path = |engine: &Engine, target: &str| {
        engine
            .shortest_path(100, "A", 100, target, 10, &TxDelta::empty(), limits())
            .unwrap()
            .into_iter()
            .map(|step| step.node_id)
            .collect::<Vec<_>>()
    };
    assert_eq!(path(&engine, "E"), vec!["A", "D", "E"]);
    assert!(path(&engine, "B").is_empty());
    // The stored rows stay as they were.
    assert_eq!(engine.edge_store.edge_count(), 8);
}

#[test]
fn a_prepared_projection_changes_nothing_until_it_is_committed() {
    let mut engine = build_test_engine();
    let mut segment = ProjectionSegment::empty();
    segment.edge_inserts.push(edge(0, 4, 1));
    let segments = vec![segment];
    let prepared = engine.prepare_projection(&engine.edge_store, &segments).unwrap();
    assert!(engine.projection_manifest.is_none());
    assert!(engine.projection_snapshot.is_none());
    engine.commit_projection(manifest(&segments), prepared, &segments);
    assert_eq!(engine.projection_snapshot.as_ref().unwrap().forward.edge_count(), 9);
}

#[test]
fn a_stray_stored_edge_does_not_stop_a_projection() {
    let mut engine = Engine::new();
    engine.node_store.add_node(1, "a".to_string());
    engine.edge_store = EdgeStore::from_edges(
        1,
        vec![RawEdge {
            source: 0,
            target: 9,
            type_id: EdgeTypeId(1),
            weight: None,
            schema_reversed: false,
        }],
        false,
    );
    install_edge_segment_manifest(&mut engine, |_| {});
    let snapshot = engine.projection_snapshot.as_ref().unwrap();
    assert_eq!(snapshot.forward.edge_count(), 1);
    assert_eq!(snapshot.reverse.edge_count(), 1);
}

#[test]
fn the_first_failing_segment_is_named() {
    let refused = |fill: &dyn Fn(&mut ProjectionSegment)| {
        let mut engine = build_test_engine();
        let mut segment = ProjectionSegment::empty();
        fill(&mut segment);
        let base = engine.edge_store.clone();
        let segments = vec![ProjectionSegment::empty(), segment];
        let error = engine
            .install_projection_manifest(manifest(&segments), &base, &segments)
            .expect_err("the segment is wrong");
        assert!(engine.projection_manifest.is_none());
        match error {
            GraphError::CorruptFile { reason } => reason,
            GraphError::IncompatibleVersion(reason) => reason,
            other => panic!("expected a refusal, got {:?}", other),
        }
    };
    let unknown = |segment: &mut ProjectionSegment| {
        segment.edge_inserts.push(OverlayEdge { relationship_id: Some(7), ..edge(0, 1, 1) });
    };
    let stray = |segment: &mut ProjectionSegment| segment.edge_deletes.push(edge(0, 99, 1));
    let nameless = |segment: &mut ProjectionSegment| {
        segment.tenants.push(SegmentTenant {
            node_idx: 99,
            tenant_hash: 0,
            tenant: None,
            tombstone: false,
        });
    };
    let missing = |segment: &mut ProjectionSegment| {
        let tenant = Some("acme".to_string());
        segment.tenants.push(SegmentTenant {
            node_idx: 99,
            tenant_hash: 0,
            tenant,
            tombstone: false,
        });
    };
    assert_eq!(
        refused(&unknown),
        "projection segment relationship ID 7 is outside the active identity dictionary"
    );
    assert_eq!(refused(&stray), "projection edge references a missing node");
    assert_eq!(
        refused(&nameless),
        "version 5 tenant projection lacks exact identity; rebuild required"
    );
    assert_eq!(refused(&missing), "projection tenant references a missing node");
    // Relationships come before edges, and edges before tenants.
    assert_eq!(
        refused(&|segment| {
            nameless(segment);
            stray(segment);
        }),
        "projection edge references a missing node"
    );
    assert_eq!(
        refused(&|segment| {
            stray(segment);
            unknown(segment);
        }),
        "projection segment relationship ID 7 is outside the active identity dictionary"
    );
    assert_eq!(
        refused(&|segment| segment.resolutions.push(SegmentResolution {
            table_oid: 100,
            pk_hash: hash_pk("Z"),
            primary_key: Some("Z".to_string()),
            node_idx: 9,
            tombstone: false,
        })),
        "projection node allocation contains an index gap: slot 9 (Z, table 100) follows node count 5"
    );
}
