//! Unweighted and weighted paths, eager and resumable.
use pggraph::edge_labels::EdgeTypeLabels;
use pggraph::edge_store::{EdgeStore, RawEdge};
use pggraph::errors::{GraphError, GraphResult};
use pggraph::neighbors::{Neighbor, NeighborSource};
use pggraph::node_store::NodeStore;
use pggraph::path_finder::{
    shortest_path, shortest_path_with_neighbors_governed_with_context, UnweightedPathRequest,
};
use pggraph::path_machine::{
    consume_path_work_without_interrupt, path_candidate_fits, BfsAdjacencyCandidateBatch,
    BfsAdjacencyVerdict, BfsCandidateLimits, BfsProjectionEpoch, RelationshipIdentities,
    RelationshipIdentity, ResumablePathMaterialization,
};
use pggraph::resource::{ResourceGovernor, ResourceKind, ResourceLimits, ResourcePhase};
use pggraph::resumable_bfs::{
    apply_single_direction_path_verdicts, materialize_single_direction_path_batch,
    ResumableSingleDirectionBfs,
};
use pggraph::resumable_dijkstra::{
    apply_resumable_dijkstra_verdicts, materialize_resumable_dijkstra_batch, ResumableDijkstra,
};
use pggraph::resumable_meeting::{
    apply_bidirectional_path_verdicts, estimated_resumable_path_workspace_bytes,
    materialize_bidirectional_path_batch, ResumableBidirectionalBfs,
};
use pggraph::types::{EdgeTypeId, PathStep, WeightedPathStep};
use pggraph::visibility::{QueryExecutionContext, VisibilityScope};
use pggraph::weighted_path::{
    weighted_shortest_path, weighted_shortest_path_with_neighbors_governed_with_context,
};
use roaring::RoaringBitmap;

fn path_governor(work_limit: u64) -> ResourceGovernor {
    ResourceGovernor::new(ResourceLimits::bounded(
        1_024 * 1_024,
        work_limit,
        Some(1_000_000_000),
    ))
}

fn identified_store(
    node_count: u32,
    has_weights: bool,
    edges: Vec<(RawEdge, u32)>,
) -> EdgeStore {
    let mut edges = edges;
    edges.sort_unstable_by_key(|(edge, _)| {
        (edge.source, edge.target, edge.type_id.0, edge.schema_reversed)
    });
    let mut store = EdgeStore::with_nodes(node_count, has_weights);
    for (edge, relationship_id) in edges {
        store.push(edge, Some(relationship_id));
    }
    store
}

fn shortest_path_with_neighbors<N: NeighborSource>(
    nodes: &NodeStore,
    neighbors: &N,
    source: u32,
    target: u32,
    max_depth: i32,
    has_unidirectional_edges: bool,
    edge_type_registry: &[String],
) -> Option<Vec<PathStep>> {
    let visibility = VisibilityScope::unrestricted();
    let deleted_nodes = RoaringBitmap::new();
    shortest_path_with_neighbors_governed_with_context(
        nodes,
        neighbors,
        UnweightedPathRequest {
            source,
            target,
            max_depth,
            has_unidirectional_edges,
            edge_type_registry,
            edge_type_label: None,
        },
        QueryExecutionContext {
            visibility: &visibility,
            edge_type_filter: None,
            deleted_nodes: &deleted_nodes,
        },
        &mut ResourceGovernor::unlimited(),
    )
    .unwrap()
}

fn candidate_limits(page_size: usize) -> BfsCandidateLimits {
    BfsCandidateLimits {
        max_candidates: page_size,
        max_key_bytes: 16 * 1_024,
    }
}

fn candidate_verdicts(
    batch: &BfsAdjacencyCandidateBatch,
    hidden_nodes: &RoaringBitmap,
    hidden_relationships: &RoaringBitmap,
) -> Vec<BfsAdjacencyVerdict> {
    batch
        .candidates
        .iter()
        .map(|candidate| BfsAdjacencyVerdict {
            sequence: candidate.sequence,
            node_visible: !hidden_nodes.contains(candidate.target_node),
            relationship_visible: candidate
                .relationship_id
                .is_none_or(|relationship_id| !hidden_relationships.contains(relationship_id)),
        })
        .collect()
}

fn run_resumable_single(
    nodes: &NodeStore,
    edges: &EdgeStore,
    source: u32,
    target: u32,
    max_depth: i32,
    page_size: usize,
    hidden_nodes: &RoaringBitmap,
    hidden_relationships: &RoaringBitmap,
) -> GraphResult<Option<Vec<PathStep>>> {
    let mut governor = path_governor(100_000);
    let relationships = RelationshipIdentities::empty();
    let neighbors = edges;
    let mut machine = ResumableSingleDirectionBfs::try_new(
        nodes.node_count() as usize,
        source,
        target,
        max_depth,
    )?;
    loop {
        match materialize_single_direction_path_batch(
            &mut machine,
            nodes,
            neighbors,
            &relationships,
            None,
            candidate_limits(page_size),
            &mut governor,
        )? {
            ResumablePathMaterialization::Batch(batch) => {
                let verdicts = candidate_verdicts(&batch, hidden_nodes, hidden_relationships);
                apply_single_direction_path_verdicts(
                    &mut machine,
                    &batch,
                    &verdicts,
                    nodes,
                    &RoaringBitmap::new(),
                    &mut governor,
                )?;
            }
            ResumablePathMaterialization::Progress => {}
            ResumablePathMaterialization::Complete => break,
        }
        if machine.is_complete() {
            break;
        }
    }
    machine.finish(
        nodes,
        EdgeTypeLabels { registry: &["".to_string(), "REL".to_string()], resolver: None },
    )
}

fn run_resumable_bidirectional(
    nodes: &NodeStore,
    edges: &EdgeStore,
    source: u32,
    target: u32,
    max_depth: i32,
    page_size: usize,
    hidden_nodes: &RoaringBitmap,
    hidden_relationships: &RoaringBitmap,
) -> GraphResult<Option<Vec<PathStep>>> {
    let mut governor = path_governor(100_000);
    let relationships = RelationshipIdentities::empty();
    let neighbors = edges;
    let mut machine = ResumableBidirectionalBfs::try_new(
        nodes.node_count() as usize,
        source,
        target,
        max_depth,
    )?;
    loop {
        match materialize_bidirectional_path_batch(
            &mut machine,
            nodes,
            neighbors,
            &relationships,
            None,
            candidate_limits(page_size),
            &mut governor,
        )? {
            ResumablePathMaterialization::Batch(batch) => {
                let verdicts = candidate_verdicts(&batch, hidden_nodes, hidden_relationships);
                apply_bidirectional_path_verdicts(
                    &mut machine,
                    &batch,
                    &verdicts,
                    nodes,
                    &RoaringBitmap::new(),
                    &mut governor,
                )?;
            }
            ResumablePathMaterialization::Progress => {}
            ResumablePathMaterialization::Complete => break,
        }
        if machine.is_complete() {
            break;
        }
    }
    machine.finish(
        nodes,
        EdgeTypeLabels { registry: &["".to_string(), "REL".to_string()], resolver: None },
    )
}

fn path_signature(path: Option<Vec<PathStep>>) -> Option<Vec<(String, Option<String>)>> {
    path.map(|steps| {
        steps
            .into_iter()
            .map(|step| (step.node_id, step.edge_label))
            .collect()
    })
}

fn symmetric_store(node_count: u32, pairs: &[(u32, u32)]) -> EdgeStore {
    let edges = pairs
        .iter()
        .flat_map(|&(left, right)| {
            [
                RawEdge {
                    source: left,
                    target: right,
                    type_id: EdgeTypeId(1),
                    weight: None,
                    schema_reversed: false,
                },
                RawEdge {
                    source: right,
                    target: left,
                    type_id: EdgeTypeId(1),
                    weight: None,
                    schema_reversed: true,
                },
            ]
        })
        .collect();
    EdgeStore::from_edges(node_count, edges, false)
}

#[test]
fn resumable_single_direction_bfs_matches_eager_target_discovery_and_ties() {
    let mut nodes = NodeStore::new();
    for index in 0..6 {
        nodes.add_node(100, format!("N-{index}"));
    }
    let raw = |source, target| RawEdge {
        source,
        target,
        type_id: EdgeTypeId(1),
        weight: None,
        schema_reversed: false,
    };
    let edges = EdgeStore::from_edges(
        6,
        vec![raw(0, 1), raw(0, 2), raw(1, 3), raw(2, 3), raw(3, 5)],
        false,
    );
    let eager = shortest_path_with_neighbors(
        &nodes,
        &edges,
        0,
        5,
        5,
        true,
        &["".to_string(), "REL".to_string()],
    );
    let expected = path_signature(eager);
    for page_size in 1..=4 {
        let lazy = run_resumable_single(
            &nodes,
            &edges,
            0,
            5,
            5,
            page_size,
            &RoaringBitmap::new(),
            &RoaringBitmap::new(),
        )
        .unwrap();
        assert_eq!(path_signature(lazy), expected.clone());
    }
}

#[test]
fn resumable_bidirectional_bfs_matches_eager_meeting_node_selection() {
    let mut nodes = NodeStore::new();
    for index in 0..8 {
        nodes.add_node(100, format!("N-{index}"));
    }
    let edges = symmetric_store(8, &[(0, 1), (0, 2), (1, 4), (2, 3), (3, 4), (4, 7)]);
    let eager = shortest_path_with_neighbors(
        &nodes,
        &edges,
        0,
        7,
        8,
        false,
        &["".to_string(), "REL".to_string()],
    );
    let expected = path_signature(eager);
    for page_size in 1..=4 {
        let lazy = run_resumable_bidirectional(
            &nodes,
            &edges,
            0,
            7,
            8,
            page_size,
            &RoaringBitmap::new(),
            &RoaringBitmap::new(),
        )
        .unwrap();
        assert_eq!(path_signature(lazy), expected.clone());
    }
}

#[test]
fn resumable_bidirectional_bfs_completes_chosen_level_before_selecting_meeting() {
    let mut nodes = NodeStore::new();
    for index in 0..7 {
        nodes.add_node(100, format!("N-{index}"));
    }
    // The first meeting encountered in the selected level is longer than
    // the later meeting. The eager search scans the complete level.
    let edges = symmetric_store(7, &[(0, 1), (0, 2), (1, 3), (3, 4), (4, 6), (2, 5), (5, 6)]);
    let eager = shortest_path_with_neighbors(
        &nodes,
        &edges,
        0,
        6,
        8,
        false,
        &["".to_string(), "REL".to_string()],
    );
    let lazy = run_resumable_bidirectional(
        &nodes,
        &edges,
        0,
        6,
        8,
        1,
        &RoaringBitmap::new(),
        &RoaringBitmap::new(),
    )
    .unwrap();
    assert_eq!(path_signature(lazy), path_signature(eager));
}

#[test]
fn resumable_unweighted_paths_match_eager_hidden_nodes_relationships_and_endpoints() {
    let mut nodes = NodeStore::new();
    for index in 0..6 {
        nodes.add_node(100, format!("N-{index}"));
    }
    let raw = |source, target| RawEdge {
        source,
        target,
        type_id: EdgeTypeId(1),
        weight: None,
        schema_reversed: false,
    };
    let edges = identified_store(
        6,
        false,
        vec![
            (raw(0, 1), 10),
            (raw(1, 5), 11),
            (raw(0, 2), 12),
            (raw(2, 3), 13),
            (raw(3, 5), 14),
        ],
    );
    let mut hidden_nodes = RoaringBitmap::new();
    hidden_nodes.insert(1);
    let lazy = run_resumable_single(
        &nodes,
        &edges,
        0,
        5,
        6,
        1,
        &hidden_nodes,
        &RoaringBitmap::new(),
    )
    .unwrap()
    .unwrap();
    assert_eq!(
        lazy.iter()
            .map(|step| step.node_id.as_str())
            .collect::<Vec<_>>(),
        ["N-0", "N-2", "N-3", "N-5"]
    );
    hidden_nodes.insert(5);
    assert!(run_resumable_single(
        &nodes,
        &edges,
        0,
        5,
        6,
        1,
        &hidden_nodes,
        &RoaringBitmap::new(),
    )
    .unwrap()
    .is_none());
    let mut hidden_relationships = RoaringBitmap::new();
    hidden_relationships.insert(10);
    let relation_hidden = run_resumable_single(
        &nodes,
        &edges,
        0,
        5,
        6,
        2,
        &RoaringBitmap::new(),
        &hidden_relationships,
    )
    .unwrap()
    .unwrap();
    assert_eq!(relation_hidden[1].node_id, "N-2");
}

#[test]
fn resumable_unweighted_paths_match_eager_overlay_durable_and_tx() {
    // Pages of one edge: the machine meets every boundary within a row.
    let mut nodes = NodeStore::new();
    for index in 0..5 {
        nodes.add_node(100, format!("N-{index}"));
    }
    let edges = symmetric_store(5, &[(0, 1), (0, 2), (1, 3), (2, 3), (3, 4)]);
    let eager = shortest_path_with_neighbors(
        &nodes,
        &edges,
        0,
        4,
        6,
        false,
        &["".to_string(), "REL".to_string()],
    );
    let lazy = run_resumable_bidirectional(
        &nodes,
        &edges,
        0,
        4,
        6,
        1,
        &RoaringBitmap::new(),
        &RoaringBitmap::new(),
    )
    .unwrap();
    assert_eq!(path_signature(lazy), path_signature(eager));
}

#[test]
fn resumable_unweighted_paths_preserve_max_depth_work_caps_errors_and_epoch_rejection() {
    let mut nodes = NodeStore::new();
    nodes.add_node(100, "N-0".into());
    nodes.add_node(100, "N-1".into());
    let edges = symmetric_store(2, &[(0, 1)]);
    assert!(run_resumable_single(
        &nodes,
        &edges,
        0,
        1,
        0,
        1,
        &RoaringBitmap::new(),
        &RoaringBitmap::new(),
    )
    .unwrap()
    .is_none());
    assert!(run_resumable_single(
        &nodes,
        &edges,
        0,
        0,
        -1,
        1,
        &RoaringBitmap::new(),
        &RoaringBitmap::new(),
    )
    .unwrap()
    .is_some());
    let epoch = BfsProjectionEpoch {
        generation_id: Some(1),
        applied_sync_id: 1,
        node_count: 2,
        edge_count: 2,
        relationship_identity_count: 0,
        edge_buffer_len: 0,
        edge_buffer_revision: 0,
        tx_topology_revision: 0,
        tx_added_nodes: 0,
        tx_added_edges: 0,
        tx_deleted_nodes: 0,
        tx_deleted_edges: 0,
    };
    let mut machine = ResumableSingleDirectionBfs::try_new(2, 0, 1, 2).unwrap();
    machine.bind_projection_epoch(epoch);
    let mut changed = epoch;
    changed.edge_count = 3;
    assert!(machine.require_projection_epoch(changed).is_err());

    let mut bidirectional = ResumableBidirectionalBfs::try_new(2, 0, 1, 2).unwrap();
    bidirectional.bind_projection_epoch(epoch);
    assert!(bidirectional.require_projection_epoch(changed).is_err());

    let relationships = RelationshipIdentities::empty();
    let neighbors = &edges;
    let mut governor = path_governor(0);
    let mut capped = ResumableSingleDirectionBfs::try_new(2, 0, 1, 2).unwrap();
    let ResumablePathMaterialization::Batch(endpoints) =
        materialize_single_direction_path_batch(
            &mut capped,
            &nodes,
            neighbors,
            &relationships,
            None,
            candidate_limits(2),
            &mut governor,
        )
        .unwrap()
    else {
        panic!("endpoint visibility batch expected");
    };
    let verdicts = candidate_verdicts(&endpoints, &RoaringBitmap::new(), &RoaringBitmap::new());
    apply_single_direction_path_verdicts(
        &mut capped,
        &endpoints,
        &verdicts,
        &nodes,
        &RoaringBitmap::new(),
        &mut governor,
    )
    .unwrap();
    assert!(materialize_single_direction_path_batch(
        &mut capped,
        &nodes,
        neighbors,
        &relationships,
        None,
        candidate_limits(1),
        &mut governor,
    )
    .is_err());
}

#[test]
fn resumable_path_rejects_oversized_identity_keys_before_candidate_cloning() {
    let limits = BfsCandidateLimits {
        max_candidates: 1,
        max_key_bytes: 8,
    };

    let mut oversized_node = NodeStore::new();
    oversized_node.add_node(100, "source".into());
    oversized_node.add_node(100, "target-key-is-too-large".into());
    let error = path_candidate_fits(
        &vec![],
        &mut 0,
        Neighbor {
            target: 1,
            type_id: EdgeTypeId(1),
            schema_reversed: false,
            relationship_id: None,
        },
        limits,
        &oversized_node,
        &RelationshipIdentities::empty(),
    )
    .unwrap_err();
    assert!(
        matches!(
            &error,
            GraphError::InvalidFilter { reason }
                if reason == "one path visibility candidate exceeds the key-byte limit"
        ),
        "unexpected oversized node-key error: {error:?}"
    );

    let mut nodes = NodeStore::new();
    nodes.add_node(100, "source".into());
    nodes.add_node(100, "target".into());
    let relationships = RelationshipIdentities {
        stored: vec![
            None,
            Some(RelationshipIdentity {
                mapping_id: 1,
                source_key: "relationship-key-is-too-large".into(),
            }),
        ],
        pending: vec![],
    };
    let error = path_candidate_fits(
        &vec![],
        &mut 0,
        Neighbor {
            target: 1,
            type_id: EdgeTypeId(1),
            schema_reversed: false,
            relationship_id: Some(1),
        },
        limits,
        &nodes,
        &relationships,
    )
    .unwrap_err();
    assert!(
        matches!(
            &error,
            GraphError::InvalidFilter { reason }
                if reason == "one path visibility candidate exceeds the key-byte limit"
        ),
        "unexpected oversized relationship-key error: {error:?}"
    );
}

#[test]
fn hidden_shorter_path_yields_longer_visible_path() {
    let mut nodes = NodeStore::new();
    for idx in 0..5 {
        nodes.add_node(100, format!("N-{idx}"));
    }
    let raw = |source, target| RawEdge {
        source,
        target,
        type_id: EdgeTypeId(1),
        weight: None,
        schema_reversed: false,
    };
    let edges = identified_store(
        5,
        false,
        vec![
            (raw(0, 1), 10),
            (raw(1, 3), 11),
            (raw(0, 2), 12),
            (raw(2, 4), 13),
            (raw(4, 3), 14),
        ],
    );
    let absent_shortcut = identified_store(
        5,
        false,
        vec![(raw(0, 2), 12), (raw(2, 4), 13), (raw(4, 3), 14)],
    );
    let mut hidden_nodes = RoaringBitmap::new();
    hidden_nodes.insert(1);
    let visibility = VisibilityScope::enforced(
        hidden_nodes,
        RoaringBitmap::new(),
        RoaringBitmap::new(),
    );
    let mut governor = path_governor(1_000);
    let deleted_nodes = RoaringBitmap::new();
    let context = QueryExecutionContext {
        visibility: &visibility,
        edge_type_filter: None,
        deleted_nodes: &deleted_nodes,
    };
    let result = shortest_path_with_neighbors_governed_with_context(
        &nodes,
        &edges,
        UnweightedPathRequest {
            source: 0,
            target: 3,
            max_depth: 5,
            has_unidirectional_edges: true,
            edge_type_registry: &["REL".to_string(), "REL".to_string()],
            edge_type_label: None,
        },
        context,
        &mut governor,
    )
    .unwrap()
    .unwrap();
    let unrestricted = VisibilityScope::unrestricted();
    let absent_context = QueryExecutionContext { visibility: &unrestricted, ..context };
    let absent_result = shortest_path_with_neighbors_governed_with_context(
        &nodes,
        &absent_shortcut,
        UnweightedPathRequest {
            source: 0,
            target: 3,
            max_depth: 5,
            has_unidirectional_edges: true,
            edge_type_registry: &["REL".to_string(), "REL".to_string()],
            edge_type_label: None,
        },
        absent_context,
        &mut governor,
    )
    .unwrap()
    .unwrap();
    let summarize = |path: &[PathStep]| {
        path.iter()
            .map(|step| (step.step, step.node_id.clone(), step.edge_label.clone()))
            .collect::<Vec<_>>()
    };

    assert_eq!(summarize(&result), summarize(&absent_result));
    assert_eq!(
        result
            .iter()
            .map(|step| step.node_id.as_str())
            .collect::<Vec<_>>(),
        vec!["N-0", "N-2", "N-4", "N-3"]
    );
}

#[test]
fn bidirectional_meeting_ignores_hidden_candidate() {
    let mut nodes = NodeStore::new();
    for idx in 0..5 {
        nodes.add_node(100, format!("N-{idx}"));
    }
    let raw = |source, target| RawEdge {
        source,
        target,
        type_id: EdgeTypeId(1),
        weight: None,
        schema_reversed: false,
    };
    let pairs = [(0, 1), (1, 3), (0, 2), (2, 4), (4, 3)];
    let mut identified = Vec::new();
    for (relationship_id, (source, target)) in (20..).zip(pairs) {
        identified.push((raw(source, target), relationship_id));
        identified.push((raw(target, source), relationship_id));
    }
    let edges = identified_store(5, false, identified);
    let mut hidden_nodes = RoaringBitmap::new();
    hidden_nodes.insert(1);
    let visibility = VisibilityScope::enforced(
        hidden_nodes,
        RoaringBitmap::new(),
        RoaringBitmap::new(),
    );
    let mut governor = path_governor(1_000);
    let deleted_nodes = RoaringBitmap::new();
    let context = QueryExecutionContext {
        visibility: &visibility,
        edge_type_filter: None,
        deleted_nodes: &deleted_nodes,
    };
    let result = shortest_path_with_neighbors_governed_with_context(
        &nodes,
        &edges,
        UnweightedPathRequest {
            source: 0,
            target: 3,
            max_depth: 5,
            has_unidirectional_edges: false,
            edge_type_registry: &["REL".to_string(), "REL".to_string()],
            edge_type_label: None,
        },
        context,
        &mut governor,
    )
    .unwrap()
    .unwrap();
    assert_eq!(
        result
            .iter()
            .map(|step| step.node_id.as_str())
            .collect::<Vec<_>>(),
        vec!["N-0", "N-2", "N-4", "N-3"]
    );
}

#[test]
fn hidden_cheaper_relationship_yields_visible_weighted_path() {
    let mut nodes = NodeStore::new();
    for idx in 0..3 {
        nodes.add_node(100, format!("N-{idx}"));
    }
    let weighted = |source, target, weight| RawEdge {
        source,
        target,
        type_id: EdgeTypeId(1),
        weight: Some(weight),
        schema_reversed: false,
    };
    let edges = identified_store(
        3,
        true,
        vec![
            (weighted(0, 1, 1), 10),
            (weighted(0, 2, 2), 11),
            (weighted(2, 1, 2), 12),
        ],
    );
    let mut hidden_relationships = RoaringBitmap::new();
    hidden_relationships.insert(10);
    let mut rls_edge_types = RoaringBitmap::new();
    rls_edge_types.insert(1);
    let visibility = VisibilityScope::enforced(
        RoaringBitmap::new(),
        hidden_relationships,
        rls_edge_types,
    );
    let mut governor = path_governor(1_000);
    let deleted_nodes = RoaringBitmap::new();
    let context = QueryExecutionContext {
        visibility: &visibility,
        edge_type_filter: None,
        deleted_nodes: &deleted_nodes,
    };
    let result = weighted_shortest_path_with_neighbors_governed_with_context(
        &nodes,
        &edges,
        0,
        1,
        &["REL".to_string(), "REL".to_string()],
        context,
        &mut governor,
    )
    .unwrap()
    .unwrap();
    assert_eq!(
        result
            .iter()
            .map(|step| step.node_id.as_str())
            .collect::<Vec<_>>(),
        vec!["N-0", "N-2", "N-1"]
    );
    assert_eq!(result.last().unwrap().total_cost, 4);
}

#[test]
fn edge_type_filters_select_longer_unweighted_and_weighted_paths() {
    let mut nodes = NodeStore::new();
    for idx in 0..4 {
        nodes.add_node(100, format!("N-{idx}"));
    }
    let edge = |source, target, type_id, weight| RawEdge {
        source,
        target,
        type_id,
        weight: Some(weight),
        schema_reversed: false,
    };
    let edges = identified_store(
        4,
        true,
        vec![
            (edge(0, 3, EdgeTypeId(1), 1), 10),
            (edge(0, 1, EdgeTypeId(2), 2), 11),
            (edge(1, 2, EdgeTypeId(2), 2), 12),
            (edge(2, 3, EdgeTypeId(2), 2), 13),
        ],
    );
    let mut only_long = RoaringBitmap::new();
    only_long.insert(2);
    let mut governor = path_governor(1_000);
    let visibility = VisibilityScope::unrestricted();
    let deleted_nodes = RoaringBitmap::new();
    let context = QueryExecutionContext {
        visibility: &visibility,
        edge_type_filter: Some(&only_long),
        deleted_nodes: &deleted_nodes,
    };
    let registry = ["".to_string(), "direct".to_string(), "long".to_string()];

    let unweighted = shortest_path_with_neighbors_governed_with_context(
        &nodes,
        &edges,
        UnweightedPathRequest {
            source: 0,
            target: 3,
            max_depth: 5,
            has_unidirectional_edges: true,
            edge_type_registry: &registry,
            edge_type_label: None,
        },
        context,
        &mut governor,
    )
    .unwrap()
    .unwrap();
    let weighted = weighted_shortest_path_with_neighbors_governed_with_context(
        &nodes,
        &edges,
        0,
        3,
        &registry,
        context,
        &mut governor,
    )
    .unwrap()
    .unwrap();

    assert_eq!(
        unweighted
            .iter()
            .map(|step| step.node_id.as_str())
            .collect::<Vec<_>>(),
        vec!["N-0", "N-1", "N-2", "N-3"]
    );
    assert_eq!(
        weighted
            .iter()
            .map(|step| step.node_id.as_str())
            .collect::<Vec<_>>(),
        vec!["N-0", "N-1", "N-2", "N-3"]
    );
    assert_eq!(weighted.last().unwrap().total_cost, 6);

    let empty = RoaringBitmap::new();
    let empty_context = QueryExecutionContext { edge_type_filter: Some(&empty), ..context };
    assert!(shortest_path_with_neighbors_governed_with_context(
        &nodes,
        &edges,
        UnweightedPathRequest {
            source: 0,
            target: 3,
            max_depth: 5,
            has_unidirectional_edges: true,
            edge_type_registry: &registry,
            edge_type_label: None,
        },
        empty_context,
        &mut governor,
    )
    .unwrap()
    .is_none());
}

#[test]
fn governed_shortest_path_stops_at_expansion_limit() {
    let mut nodes = NodeStore::new();
    for idx in 0..4 {
        nodes.add_node(100, format!("N-{idx}"));
    }
    let edges = EdgeStore::from_edges(
        4,
        vec![
            RawEdge {
                source: 0,
                target: 1,
                type_id: EdgeTypeId(1),
                weight: None,
                schema_reversed: false,
            },
            RawEdge {
                source: 1,
                target: 2,
                type_id: EdgeTypeId(1),
                weight: None,
                schema_reversed: false,
            },
            RawEdge {
                source: 2,
                target: 3,
                type_id: EdgeTypeId(1),
                weight: None,
                schema_reversed: false,
            },
        ],
        false,
    );
    let neighbors = &edges;
    let visibility = VisibilityScope::unrestricted();
    let deleted_nodes = RoaringBitmap::new();
    let error = shortest_path_with_neighbors_governed_with_context(
        &nodes,
        neighbors,
        UnweightedPathRequest {
            source: 0,
            target: 3,
            max_depth: 4,
            has_unidirectional_edges: true,
            edge_type_registry: &["".to_string(), "edge".to_string()],
            edge_type_label: None,
        },
        QueryExecutionContext {
            visibility: &visibility,
            edge_type_filter: None,
            deleted_nodes: &deleted_nodes,
        },
        &mut path_governor(1),
    )
    .expect_err("path should stop before exceeding its work budget");

    assert!(matches!(
        error,
        GraphError::ResourceLimit { .. }
    ));
}

#[test]
fn shortest_path_simple_chain() {
    let mut ns = NodeStore::new();
    for i in 0..4u32 {
        ns.add_node(100, format!("N-{}", i));
    }

    let edges = vec![
        RawEdge {
            source: 0,
            target: 1,
            type_id: EdgeTypeId(1),
            weight: None,
            schema_reversed: false,
        },
        RawEdge {
            source: 1,
            target: 0,
            type_id: EdgeTypeId(1),
            weight: None,
            schema_reversed: false,
        },
        RawEdge {
            source: 1,
            target: 2,
            type_id: EdgeTypeId(1),
            weight: None,
            schema_reversed: false,
        },
        RawEdge {
            source: 2,
            target: 1,
            type_id: EdgeTypeId(1),
            weight: None,
            schema_reversed: false,
        },
        RawEdge {
            source: 2,
            target: 3,
            type_id: EdgeTypeId(1),
            weight: None,
            schema_reversed: false,
        },
        RawEdge {
            source: 3,
            target: 2,
            type_id: EdgeTypeId(1),
            weight: None,
            schema_reversed: false,
        },
    ];
    let es = EdgeStore::from_edges(4, edges, false);
    let registry = vec!["".to_string(), "connected".to_string()];

    let result = shortest_path(&ns, &es, 0, 3, 20, false, &registry);
    assert!(result.is_some());
    let steps = result.unwrap();
    assert_eq!(steps.len(), 4);
    assert_eq!(steps[0].node_id, "N-0");
    assert_eq!(steps[3].node_id, "N-3");
    assert_eq!(steps[0].edge_label, None);
    assert_eq!(steps[1].edge_label.as_deref(), Some("connected"));
    assert_eq!(steps[2].edge_label.as_deref(), Some("connected"));
    assert_eq!(steps[3].edge_label.as_deref(), Some("connected"));
}

#[test]
fn shortest_path_same_node() {
    let mut ns = NodeStore::new();
    ns.add_node(100, "N-0".to_string());
    let es = EdgeStore::from_edges(1, vec![], false);
    let registry = vec![];

    let result = shortest_path(&ns, &es, 0, 0, 20, false, &registry);
    assert!(result.is_some());
    assert_eq!(result.unwrap().len(), 1);
}

#[test]
fn shortest_path_no_connection() {
    let mut ns = NodeStore::new();
    ns.add_node(100, "A".to_string());
    ns.add_node(100, "B".to_string());
    let es = EdgeStore::from_edges(2, vec![], false);
    let registry = vec![];

    let result = shortest_path(&ns, &es, 0, 1, 20, false, &registry);
    assert!(result.is_none());
}

/// Builds a symmetric (undirected) graph from a fixed edge list and
/// returns `(NodeStore, EdgeStore)` with `node_count` nodes.
fn symmetric_graph(node_count: u32, undirected_edges: &[(u32, u32)]) -> (NodeStore, EdgeStore) {
    let mut ns = NodeStore::new();
    for i in 0..node_count {
        ns.add_node(100, format!("N-{i}"));
    }
    let mut edges = Vec::new();
    for &(a, b) in undirected_edges {
        edges.push(RawEdge {
            source: a,
            target: b,
            type_id: EdgeTypeId(1),
            weight: None,
            schema_reversed: false,
        });
        edges.push(RawEdge {
            source: b,
            target: a,
            type_id: EdgeTypeId(1),
            weight: None,
            schema_reversed: false,
        });
    }
    let es = EdgeStore::from_edges(node_count, edges, false);
    (ns, es)
}

/// A search from both ends returns a path exactly as short as a search from
/// the source alone. Here the backward side meets two forward nodes in one
/// round: a distant one through node 3 (0-1-3-5-4) before a near one through
/// node 2 (0-2-6-4). The near one has to win.
#[test]
fn bidirectional_bfs_selects_minimal_combined_distance_meeting_node() {
    // Nodes: 0=S 1=P 2=Q 3=X 4=T 5=C1 6=C2
    // S-P, S-Q (siblings, both forward depth 1)
    // P-X (X only reachable via P, forward depth 2)
    // T-C1, T-C2 (siblings, both backward depth 1)
    // C1-X (long meeting: combined = depth(X)=2 + depth(via C1)=2 -> 4)
    // C2-Q (short meeting: combined = depth(Q)=1 + depth(via C2)=2 -> 3)
    let edges = [(0, 1), (0, 2), (1, 3), (4, 5), (4, 6), (5, 3), (6, 2)];
    let (ns, es) = symmetric_graph(7, &edges);
    let registry = vec!["".to_string(), "edge".to_string()];

    let bidirectional = shortest_path(&ns, &es, 0, 4, 20, false, &registry)
        .expect("a path exists between S and T");
    let ground_truth = shortest_path(&ns, &es, 0, 4, 20, true, &registry)
        .expect("single-direction BFS must find the same path's existence");

    assert_eq!(
        bidirectional.len(),
        ground_truth.len(),
        "bidirectional BFS returned a non-minimal path: {} steps \
         (bidirectional) vs {} steps (ground truth)",
        bidirectional.len(),
        ground_truth.len()
    );
}

#[test]
fn weighted_shortest_path_prefers_lower_total_cost() {
    let mut ns = NodeStore::new();
    for id in ["A", "B", "C", "D"] {
        ns.add_node(100, id.to_string());
    }

    let edges = vec![
        RawEdge {
            source: 0,
            target: 1,
            type_id: EdgeTypeId(1),
            weight: Some(100),
            schema_reversed: false,
        },
        RawEdge {
            source: 1,
            target: 3,
            type_id: EdgeTypeId(1),
            weight: Some(1),
            schema_reversed: false,
        },
        RawEdge {
            source: 0,
            target: 2,
            type_id: EdgeTypeId(1),
            weight: Some(5),
            schema_reversed: false,
        },
        RawEdge {
            source: 2,
            target: 3,
            type_id: EdgeTypeId(1),
            weight: Some(5),
            schema_reversed: false,
        },
    ];
    let es = EdgeStore::from_edges(4, edges, true);
    let registry = vec!["".to_string(), "weighted".to_string()];

    let path = weighted_shortest_path(&ns, &es, 0, 3, &registry).unwrap();

    assert_eq!(
        path.iter()
            .map(|step| step.node_id.as_str())
            .collect::<Vec<_>>(),
        vec!["A", "C", "D"]
    );
    assert_eq!(
        path.iter()
            .map(|step| step.edge_label.as_deref())
            .collect::<Vec<_>>(),
        vec![None, Some("weighted"), Some("weighted")]
    );
    assert_eq!(
        path.iter().map(|step| step.edge_weight).collect::<Vec<_>>(),
        vec![None, Some(5), Some(5)]
    );
    assert_eq!(
        path.iter().map(|step| step.step_cost).collect::<Vec<_>>(),
        vec![0, 5, 10]
    );
    assert!(path.iter().all(|step| step.total_cost == 10));
}

#[test]
fn weighted_shortest_path_allows_u32_max_total_cost() {
    let mut ns = NodeStore::new();
    for id in ["A", "B", "C"] {
        ns.add_node(100, id.to_string());
    }

    let edges = vec![
        RawEdge {
            source: 0,
            target: 1,
            type_id: EdgeTypeId(1),
            weight: Some(u32::MAX - 1),
            schema_reversed: false,
        },
        RawEdge {
            source: 1,
            target: 2,
            type_id: EdgeTypeId(1),
            weight: Some(1),
            schema_reversed: false,
        },
    ];
    let es = EdgeStore::from_edges(3, edges, true);
    let registry = vec!["".to_string(), "weighted".to_string()];

    let path = weighted_shortest_path(&ns, &es, 0, 2, &registry).unwrap();

    assert_eq!(
        path.iter()
            .map(|step| step.node_id.as_str())
            .collect::<Vec<_>>(),
        vec!["A", "B", "C"]
    );
    assert_eq!(path.last().unwrap().total_cost, u64::from(u32::MAX));
}

fn run_resumable_dijkstra(
    nodes: &NodeStore,
    edges: &EdgeStore,
    source: u32,
    target: u32,
    edge_filter: Option<&RoaringBitmap>,
    hidden_nodes: &RoaringBitmap,
    hidden_relationships: &RoaringBitmap,
    page_size: usize,
) -> GraphResult<Option<Vec<WeightedPathStep>>> {
    let mut governor = path_governor(100_000);
    let relationships = RelationshipIdentities::empty();
    let mut machine = ResumableDijkstra::try_new(nodes.node_count() as usize, source, target)?;
    loop {
        match materialize_resumable_dijkstra_batch(
            &mut machine,
            nodes,
            edges,
            &relationships,
            edge_filter,
            candidate_limits(page_size),
            &mut governor,
        )? {
            ResumablePathMaterialization::Batch(batch) => {
                let verdicts = candidate_verdicts(&batch, hidden_nodes, hidden_relationships);
                apply_resumable_dijkstra_verdicts(
                    &mut machine,
                    &batch,
                    &verdicts,
                    &relationships,
                    nodes,
                    &RoaringBitmap::new(),
                    &mut governor,
                )?;
            }
            ResumablePathMaterialization::Progress => {}
            ResumablePathMaterialization::Complete => break,
        }
        if machine.is_complete() {
            break;
        }
    }
    machine.finish(
        nodes,
        EdgeTypeLabels { registry: &["".into(), "route".into()], resolver: None },
        &mut governor,
    )
}

#[test]
fn resumable_dijkstra_matches_eager_heap_ties_stale_entries_and_target_pop() {
    let mut nodes = NodeStore::new();
    for id in ["s", "a", "b", "t"] {
        nodes.add_node(100, id.into());
    }
    let edges = EdgeStore::from_edges(
        4,
        vec![
            RawEdge {
                source: 0,
                target: 3,
                type_id: EdgeTypeId(1),
                weight: Some(10),
                schema_reversed: false,
            },
            RawEdge {
                source: 0,
                target: 1,
                type_id: EdgeTypeId(1),
                weight: Some(2),
                schema_reversed: false,
            },
            RawEdge {
                source: 0,
                target: 2,
                type_id: EdgeTypeId(1),
                weight: Some(2),
                schema_reversed: false,
            },
            RawEdge {
                source: 1,
                target: 3,
                type_id: EdgeTypeId(1),
                weight: Some(2),
                schema_reversed: false,
            },
            RawEdge {
                source: 2,
                target: 3,
                type_id: EdgeTypeId(1),
                weight: Some(2),
                schema_reversed: false,
            },
        ],
        true,
    );
    let eager = weighted_shortest_path(&nodes, &edges, 0, 3, &["".into(), "route".into()]);
    for page_size in [1, 2, 4] {
        let lazy = run_resumable_dijkstra(
            &nodes,
            &edges,
            0,
            3,
            None,
            &RoaringBitmap::new(),
            &RoaringBitmap::new(),
            page_size,
        )
        .unwrap();
        assert_eq!(lazy, eager);
    }
}

#[test]
fn resumable_dijkstra_hidden_identity_endpoint_is_fail_closed() {
    let mut nodes = NodeStore::new();
    nodes.add_node(100, "s".into());
    let edges = EdgeStore::from_edges(1, Vec::new(), true);
    let mut hidden = RoaringBitmap::new();
    hidden.insert(0);
    assert_eq!(
        run_resumable_dijkstra(
            &nodes,
            &edges,
            0,
            0,
            None,
            &hidden,
            &RoaringBitmap::new(),
            1,
        )
        .unwrap(),
        None
    );
}

#[test]
fn resumable_dijkstra_matches_eager_generated_visibility_and_weights() {
    let mut nodes = NodeStore::new();
    for id in ["s", "cheap", "visible", "t"] {
        nodes.add_node(100, id.into());
    }
    let edges = EdgeStore::from_edges(
        4,
        vec![
            RawEdge {
                source: 0,
                target: 1,
                type_id: EdgeTypeId(1),
                weight: Some(1),
                schema_reversed: false,
            },
            RawEdge {
                source: 1,
                target: 3,
                type_id: EdgeTypeId(1),
                weight: Some(1),
                schema_reversed: false,
            },
            RawEdge {
                source: 0,
                target: 2,
                type_id: EdgeTypeId(1),
                weight: Some(3),
                schema_reversed: false,
            },
            RawEdge {
                source: 2,
                target: 3,
                type_id: EdgeTypeId(1),
                weight: Some(3),
                schema_reversed: false,
            },
        ],
        true,
    );
    for hidden_mask in 0u32..4 {
        let mut hidden = RoaringBitmap::new();
        if hidden_mask & 1 != 0 {
            hidden.insert(1);
        }
        if hidden_mask & 2 != 0 {
            hidden.insert(2);
        }
        let baseline = run_resumable_dijkstra(
            &nodes,
            &edges,
            0,
            3,
            None,
            &hidden,
            &RoaringBitmap::new(),
            64,
        )
        .unwrap();
        for page_size in [1, 2, 3] {
            assert_eq!(
                run_resumable_dijkstra(
                    &nodes,
                    &edges,
                    0,
                    3,
                    None,
                    &hidden,
                    &RoaringBitmap::new(),
                    page_size,
                )
                .unwrap(),
                baseline,
                "visibility mask {hidden_mask} diverged at page size {page_size}",
            );
        }
    }
}

#[test]
fn resumable_dijkstra_preserves_weighted_step_metadata_and_edge_type_filters() {
    let mut nodes = NodeStore::new();
    for id in ["s", "a", "b", "t"] {
        nodes.add_node(100, id.into());
    }
    let edges = EdgeStore::from_edges(
        4,
        vec![
            RawEdge {
                source: 0,
                target: 1,
                type_id: EdgeTypeId(1),
                weight: Some(1),
                schema_reversed: false,
            },
            RawEdge {
                source: 1,
                target: 3,
                type_id: EdgeTypeId(1),
                weight: Some(1),
                schema_reversed: false,
            },
            RawEdge {
                source: 0,
                target: 2,
                type_id: EdgeTypeId(2),
                weight: Some(3),
                schema_reversed: false,
            },
            RawEdge {
                source: 2,
                target: 3,
                type_id: EdgeTypeId(2),
                weight: Some(3),
                schema_reversed: false,
            },
        ],
        true,
    );
    let mut allowed = RoaringBitmap::new();
    allowed.insert(2);
    let result = run_resumable_dijkstra(
        &nodes,
        &edges,
        0,
        3,
        Some(&allowed),
        &RoaringBitmap::new(),
        &RoaringBitmap::new(),
        1,
    )
    .unwrap()
    .unwrap();
    assert_eq!(
        result
            .iter()
            .map(|step| step.node_id.as_str())
            .collect::<Vec<_>>(),
        ["s", "b", "t"]
    );
    assert_eq!(
        result
            .iter()
            .map(|step| step.edge_weight)
            .collect::<Vec<_>>(),
        [None, Some(3), Some(3)]
    );
    assert_eq!(result.last().map(|step| step.total_cost), Some(6));
}

#[test]
fn resumable_dijkstra_pages_one_popped_node_at_a_time() {
    let mut nodes = NodeStore::new();
    for id in ["s", "a", "b", "c", "t"] {
        nodes.add_node(100, id.into());
    }
    let edges = EdgeStore::from_edges(
        5,
        vec![
            RawEdge {
                source: 0,
                target: 1,
                type_id: EdgeTypeId(1),
                weight: Some(1),
                schema_reversed: false,
            },
            RawEdge {
                source: 0,
                target: 2,
                type_id: EdgeTypeId(1),
                weight: Some(2),
                schema_reversed: false,
            },
            RawEdge {
                source: 0,
                target: 3,
                type_id: EdgeTypeId(1),
                weight: Some(3),
                schema_reversed: false,
            },
            RawEdge {
                source: 3,
                target: 4,
                type_id: EdgeTypeId(1),
                weight: Some(1),
                schema_reversed: false,
            },
        ],
        true,
    );
    let expected = weighted_shortest_path(&nodes, &edges, 0, 4, &["".into(), "route".into()]);
    let actual = run_resumable_dijkstra(
        &nodes,
        &edges,
        0,
        4,
        None,
        &RoaringBitmap::new(),
        &RoaringBitmap::new(),
        1,
    )
    .unwrap();
    assert_eq!(actual, expected);
}

#[test]
fn resumable_dijkstra_zero_output_pages_are_bounded() {
    let mut nodes = NodeStore::new();
    for id in ["s", "a", "b", "t"] {
        nodes.add_node(100, id.into());
    }
    let edges = EdgeStore::from_edges(
        4,
        vec![
            RawEdge {
                source: 0,
                target: 1,
                type_id: EdgeTypeId(1),
                weight: Some(1),
                schema_reversed: false,
            },
            RawEdge {
                source: 0,
                target: 2,
                type_id: EdgeTypeId(1),
                weight: Some(1),
                schema_reversed: false,
            },
            RawEdge {
                source: 2,
                target: 3,
                type_id: EdgeTypeId(2),
                weight: Some(1),
                schema_reversed: false,
            },
        ],
        true,
    );
    let mut allowed = RoaringBitmap::new();
    allowed.insert(2);
    let result = run_resumable_dijkstra(
        &nodes,
        &edges,
        0,
        3,
        Some(&allowed),
        &RoaringBitmap::new(),
        &RoaringBitmap::new(),
        1,
    )
    .unwrap();
    assert!(
        result.is_none(),
        "filtered empty pages must make bounded progress to completion"
    );
}

#[test]
fn resumable_dijkstra_rejects_epoch_work_memory_and_oversized_keys() {
    let mut machine = ResumableDijkstra::try_new(2, 0, 1).unwrap();
    let epoch = BfsProjectionEpoch {
        generation_id: Some(1),
        applied_sync_id: 1,
        node_count: 2,
        edge_count: 1,
        relationship_identity_count: 0,
        edge_buffer_len: 0,
        edge_buffer_revision: 0,
        tx_topology_revision: 0,
        tx_added_nodes: 0,
        tx_added_edges: 0,
        tx_deleted_nodes: 0,
        tx_deleted_edges: 0,
    };
    machine.bind_projection_epoch(epoch);
    let mut changed = epoch;
    changed.edge_buffer_revision = 1;
    assert!(machine.require_projection_epoch(changed).is_err());

    let mut nodes = NodeStore::new();
    nodes.add_node(100, "x".repeat(17 * 1_024));
    nodes.add_node(100, "target".into());
    let edges = EdgeStore::from_edges(2, Vec::new(), true);
    let mut governor = path_governor(10);
    let relationships = RelationshipIdentities::empty();
    let mut oversized = ResumableDijkstra::try_new(2, 0, 1).unwrap();
    let error = materialize_resumable_dijkstra_batch(
        &mut oversized,
        &nodes,
        &edges,
        &relationships,
        None,
        BfsCandidateLimits {
            max_candidates: 1,
            max_key_bytes: 16 * 1_024,
        },
        &mut governor,
    )
    .unwrap_err();
    assert!(matches!(error, GraphError::InvalidFilter { .. }));

    let mut tiny_memory =
        ResourceGovernor::new(ResourceLimits::bounded(1, 10, Some(1_000_000_000)));
    let mut memory_limited = ResumableDijkstra::try_new(2, 0, 1).unwrap();
    let memory_error = materialize_resumable_dijkstra_batch(
        &mut memory_limited,
        &nodes,
        &edges,
        &relationships,
        None,
        candidate_limits(1),
        &mut tiny_memory,
    )
    .unwrap_err();
    assert!(matches!(memory_error, GraphError::ResourceLimit { .. }));

    let mut output_nodes = NodeStore::new();
    output_nodes.add_node(100, "output".into());
    let mut output_limited = ResumableDijkstra::try_new(1, 0, 0).unwrap();
    let ResumablePathMaterialization::Batch(endpoint) = materialize_resumable_dijkstra_batch(
        &mut output_limited,
        &output_nodes,
        &edges,
        &relationships,
        None,
        candidate_limits(1),
        &mut governor,
    )
    .unwrap() else {
        panic!("endpoint visibility batch expected");
    };
    let shown = candidate_verdicts(&endpoint, &RoaringBitmap::new(), &RoaringBitmap::new());
    apply_resumable_dijkstra_verdicts(
        &mut output_limited,
        &endpoint,
        &shown,
        &relationships,
        &output_nodes,
        &RoaringBitmap::new(),
        &mut governor,
    )
    .unwrap();
    assert!(matches!(
        materialize_resumable_dijkstra_batch(
            &mut output_limited,
            &output_nodes,
            &edges,
            &relationships,
            None,
            candidate_limits(1),
            &mut governor,
        )
        .unwrap(),
        ResumablePathMaterialization::Complete
    ));
    assert!(output_limited.is_complete());
    let output_error = output_limited
        .finish(
            &output_nodes,
            EdgeTypeLabels { registry: &[String::new()], resolver: None },
            &mut tiny_memory,
        )
        .unwrap_err();
    assert!(matches!(output_error, GraphError::ResourceLimit { .. }));

    let mut work_nodes = NodeStore::new();
    work_nodes.add_node(100, "source".into());
    work_nodes.add_node(100, "target".into());
    let work_edges = EdgeStore::from_edges(
        2,
        vec![RawEdge {
            source: 0,
            target: 1,
            type_id: EdgeTypeId(1),
            weight: Some(1),
            schema_reversed: false,
        }],
        true,
    );
    let work_error = run_resumable_dijkstra(
        &work_nodes,
        &work_edges,
        0,
        1,
        None,
        &RoaringBitmap::new(),
        &RoaringBitmap::new(),
        1,
    );
    assert!(work_error.is_ok());
    let mut zero_work = path_governor(0);
    assert!(consume_path_work_without_interrupt(&mut zero_work).is_err());
}

#[test]
fn max_depth_prevents_reaching_distant_node() {
    let mut ns = NodeStore::new();
    for i in 0..5u32 {
        ns.add_node(100, format!("N-{}", i));
    }
    // Chain: 0→1→2→3→4
    let mut edges = Vec::new();
    for i in 0..4u32 {
        edges.push(RawEdge {
            source: i,
            target: i + 1,
            type_id: EdgeTypeId(1),
            weight: None,
            schema_reversed: false,
        });
        edges.push(RawEdge {
            source: i + 1,
            target: i,
            type_id: EdgeTypeId(1),
            weight: None,
            schema_reversed: false,
        });
    }
    let es = EdgeStore::from_edges(5, edges, false);
    let registry = vec!["".to_string(), "linked".to_string()];

    // max_depth=2: can reach node 2 but not node 4
    let result = shortest_path(&ns, &es, 0, 4, 2, false, &registry);
    assert!(result.is_none(), "should not find path beyond max_depth");

    // But depth=4 should work
    let result = shortest_path(&ns, &es, 0, 4, 4, false, &registry);
    assert!(result.is_some());
    assert_eq!(result.unwrap().len(), 5);
}

#[test]
fn tombstoned_node_blocks_shortest_path() {
    let mut ns = NodeStore::new();
    ns.add_node(100, "A".to_string()); // 0
    ns.add_node(100, "B".to_string()); // 1
    ns.add_node(100, "C".to_string()); // 2
                                       // Tombstone B — only bridge between A and C
    ns.deactivate(1);

    let edges = vec![
        RawEdge {
            source: 0,
            target: 1,
            type_id: EdgeTypeId(1),
            weight: None,
            schema_reversed: false,
        },
        RawEdge {
            source: 1,
            target: 0,
            type_id: EdgeTypeId(1),
            weight: None,
            schema_reversed: false,
        },
        RawEdge {
            source: 1,
            target: 2,
            type_id: EdgeTypeId(1),
            weight: None,
            schema_reversed: false,
        },
        RawEdge {
            source: 2,
            target: 1,
            type_id: EdgeTypeId(1),
            weight: None,
            schema_reversed: false,
        },
    ];
    let es = EdgeStore::from_edges(3, edges, false);
    let registry = vec!["".to_string(), "e".to_string()];

    let result = shortest_path(&ns, &es, 0, 2, 20, false, &registry);
    assert!(result.is_none(), "tombstoned bridge should block path");
}

#[test]
fn dijkstra_on_unweighted_graph_returns_none() {
    let mut ns = NodeStore::new();
    ns.add_node(100, "A".to_string());
    ns.add_node(100, "B".to_string());

    let edges = vec![RawEdge {
        source: 0,
        target: 1,
        type_id: EdgeTypeId(1),
        weight: None,
        schema_reversed: false,
    }];
    let es = EdgeStore::from_edges(2, edges, false); // NOT weighted
    let registry = vec!["".to_string(), "e".to_string()];

    let result = weighted_shortest_path(&ns, &es, 0, 1, &registry);
    assert!(
        result.is_none(),
        "unweighted graph should return None for Dijkstra"
    );
}

#[test]
fn dijkstra_disconnected_target_returns_none() {
    let mut ns = NodeStore::new();
    ns.add_node(100, "A".to_string());
    ns.add_node(100, "B".to_string());

    // Weighted but no edges connecting A→B
    let es = EdgeStore::from_edges(2, vec![], true);
    let registry = vec!["".to_string()];

    let result = weighted_shortest_path(&ns, &es, 0, 1, &registry);
    assert!(result.is_none());
}

#[test]
fn shortest_path_with_unidirectional_flag() {
    let mut ns = NodeStore::new();
    for i in 0..3u32 {
        ns.add_node(100, format!("N-{}", i));
    }
    // 0→1→2 (one direction only)
    let edges = vec![
        RawEdge {
            source: 0,
            target: 1,
            type_id: EdgeTypeId(1),
            weight: None,
            schema_reversed: false,
        },
        RawEdge {
            source: 1,
            target: 2,
            type_id: EdgeTypeId(1),
            weight: None,
            schema_reversed: false,
        },
    ];
    let es = EdgeStore::from_edges(3, edges, false);
    let registry = vec!["".to_string(), "forward".to_string()];

    // With unidirectional=true, uses single-direction BFS
    let result = shortest_path(&ns, &es, 0, 2, 20, true, &registry);
    assert!(result.is_some());
    assert_eq!(result.unwrap().len(), 3);

    // Reverse direction should fail (no reverse edges)
    let result = shortest_path(&ns, &es, 2, 0, 20, true, &registry);
    assert!(result.is_none());
}

#[test]
fn shortest_path_invalid_endpoints_return_none() {
    let mut ns = NodeStore::new();
    ns.add_node(100, "A".to_string());
    let es = EdgeStore::from_edges(1, vec![], false);
    let registry = vec!["".to_string()];

    assert!(shortest_path(&ns, &es, 0, 99, 20, false, &registry).is_none());
    assert!(shortest_path(&ns, &es, 99, 0, 20, false, &registry).is_none());
}

#[test]
fn weighted_shortest_path_invalid_endpoints_return_none() {
    let mut ns = NodeStore::new();
    ns.add_node(100, "A".to_string());
    let es = EdgeStore::from_edges(1, vec![], true);
    let registry = vec!["".to_string()];

    assert!(weighted_shortest_path(&ns, &es, 0, 99, &registry).is_none());
    assert!(weighted_shortest_path(&ns, &es, 99, 0, &registry).is_none());
}

#[test]
fn shortest_path_same_source_and_target() {
    let mut ns = NodeStore::new();
    ns.add_node(100, "A".to_string());
    let es = EdgeStore::from_edges(1, vec![], false);
    let registry = vec!["".to_string()];

    let result = shortest_path(&ns, &es, 0, 0, 20, false, &registry);
    // Same node → trivial path of length 1
    assert!(result.is_some());
    let steps = result.unwrap();
    assert_eq!(steps.len(), 1);
    assert_eq!(steps[0].node_id, "A");
}

#[test]
fn shortest_path_avoids_tombstoned_nodes() {
    let mut ns = NodeStore::new();
    ns.add_node(100, "A".to_string());
    ns.add_node(100, "B".to_string()); // will be tombstoned
    ns.add_node(100, "C".to_string());
    ns.deactivate(1); // tombstone B

    // A→B→C, but B is dead. Also A→C directly.
    let edges = vec![
        RawEdge {
            source: 0,
            target: 1,
            type_id: EdgeTypeId(1),
            weight: None,
            schema_reversed: false,
        },
        RawEdge {
            source: 1,
            target: 2,
            type_id: EdgeTypeId(1),
            weight: None,
            schema_reversed: false,
        },
        RawEdge {
            source: 0,
            target: 2,
            type_id: EdgeTypeId(1),
            weight: None,
            schema_reversed: false,
        },
    ];
    let es = EdgeStore::from_edges(3, edges, false);
    let registry = vec!["".to_string(), "link".to_string()];

    let result = shortest_path(&ns, &es, 0, 2, 20, false, &registry);
    assert!(result.is_some());
    let steps = result.unwrap();
    // Should go A→C directly, not through tombstoned B
    assert!(!steps.iter().any(|s| s.node_id == "B"));
}

#[test]
fn shortest_path_with_cycle_terminates() {
    // A→B→C→A (cycle), find path from A to C
    let mut ns = NodeStore::new();
    ns.add_node(100, "A".to_string());
    ns.add_node(100, "B".to_string());
    ns.add_node(100, "C".to_string());
    let edges = vec![
        RawEdge {
            source: 0,
            target: 1,
            type_id: EdgeTypeId(1),
            weight: None,
            schema_reversed: false,
        },
        RawEdge {
            source: 1,
            target: 2,
            type_id: EdgeTypeId(1),
            weight: None,
            schema_reversed: false,
        },
        RawEdge {
            source: 2,
            target: 0,
            type_id: EdgeTypeId(1),
            weight: None,
            schema_reversed: false,
        },
    ];
    let es = EdgeStore::from_edges(3, edges, false);
    let registry = vec!["".to_string(), "link".to_string()];

    let result = shortest_path(&ns, &es, 0, 2, 20, false, &registry);
    assert!(result.is_some());
    let steps = result.unwrap();
    assert_eq!(steps.first().unwrap().node_id, "A");
    assert_eq!(steps.last().unwrap().node_id, "C");
}

#[test]
fn path_machines_reserve_a_page_and_a_root() {
    let one = estimated_resumable_path_workspace_bytes(false).unwrap();
    let two = estimated_resumable_path_workspace_bytes(true).unwrap();
    assert_eq!(two - one, 512);
    assert!(one > 1_048_576);
}

#[test]
fn generated_symmetric_graphs_have_the_same_path_lengths_either_way() {
    let registry = vec!["".to_string(), "edge".to_string()];
    let mut seed = 12_345u32;
    for _ in 0..200 {
        let mut next = |bound: u32| {
            seed = seed.wrapping_mul(1_664_525).wrapping_add(1_013_904_223);
            (seed >> 16) % bound
        };
        let node_count = 3 + next(9);
        let edge_count = next(24);
        let mut pairs = Vec::new();
        for _ in 0..edge_count {
            let (a, b) = (next(node_count), next(node_count));
            if a != b {
                pairs.push((a, b));
            }
        }
        let (source, target) = (next(node_count), next(node_count));
        let (ns, es) = symmetric_graph(node_count, &pairs);
        let both = shortest_path(&ns, &es, source, target, 30, false, &registry);
        let one = shortest_path(&ns, &es, source, target, 30, true, &registry);
        assert_eq!(both.map(|path| path.len()), one.map(|path| path.len()));
    }
}

#[test]
fn generated_graphs_page_to_the_eager_path() {
    let registry = ["".to_string(), "REL".to_string()];
    let mut seed = 99u32;
    for _ in 0..100 {
        let mut next = |bound: u32| {
            seed = seed.wrapping_mul(1_664_525).wrapping_add(1_013_904_223);
            (seed >> 16) % bound
        };
        let node_count = 2 + next(8);
        let page_size = 1 + next(4) as usize;
        let mut nodes = NodeStore::new();
        for index in 0..node_count {
            nodes.add_node(100, format!("N-{index}"));
        }
        let mut pairs = Vec::new();
        for _ in 0..next(30) {
            let (a, b) = (next(node_count), next(node_count));
            if a != b {
                pairs.push((a, b));
            }
        }
        let edges = symmetric_store(node_count, &pairs);
        let mut hidden = RoaringBitmap::new();
        for node in 0..node_count {
            if next(5) == 0 {
                hidden.insert(node);
            }
        }
        let visibility =
            VisibilityScope::enforced(hidden.clone(), RoaringBitmap::new(), RoaringBitmap::new());
        let deleted_nodes = RoaringBitmap::new();
        let eager = shortest_path_with_neighbors_governed_with_context(
            &nodes,
            &edges,
            UnweightedPathRequest {
                source: 0,
                target: node_count - 1,
                max_depth: 10,
                has_unidirectional_edges: false,
                edge_type_registry: &registry,
                edge_type_label: None,
            },
            QueryExecutionContext {
                visibility: &visibility,
                edge_type_filter: None,
                deleted_nodes: &deleted_nodes,
            },
            &mut ResourceGovernor::unlimited(),
        )
        .unwrap();
        let lazy = run_resumable_bidirectional(
            &nodes,
            &edges,
            0,
            node_count - 1,
            10,
            page_size,
            &hidden,
            &RoaringBitmap::new(),
        )
        .unwrap();
        assert_eq!(path_signature(lazy), path_signature(eager));
    }
}

#[test]
fn each_edge_costs_a_unit_of_work() {
    let (nodes, edges) = weighted_chain();
    let visibility = VisibilityScope::unrestricted();
    let deleted_nodes = RoaringBitmap::new();
    let context = QueryExecutionContext {
        visibility: &visibility,
        edge_type_filter: None,
        deleted_nodes: &deleted_nodes,
    };
    let registry = ["".to_string(), "route".to_string()];
    let plain = |governor: &mut ResourceGovernor| {
        shortest_path_with_neighbors_governed_with_context(
            &nodes,
            &edges,
            UnweightedPathRequest {
                source: 0,
                target: 3,
                max_depth: 4,
                has_unidirectional_edges: true,
                edge_type_registry: &registry,
                edge_type_label: None,
            },
            context,
            governor,
        )
    };
    let mut enough = path_governor(3);
    assert_eq!(plain(&mut enough).unwrap().unwrap().len(), 4);
    assert_eq!(enough.work_used(), 3);
    for units in 0..3 {
        let mut short = path_governor(units);
        assert!(matches!(
            plain(&mut short),
            Err(GraphError::ResourceLimit {
                phase: ResourcePhase::QueryPaths,
                resource: ResourceKind::Work
            })
        ));
        assert_eq!(short.work_used(), units);
    }

    let mut enough = path_governor(3);
    let path = weighted_shortest_path_with_neighbors_governed_with_context(
        &nodes, &edges, 0, 3, &registry, context, &mut enough,
    )
    .unwrap()
    .unwrap();
    assert_eq!(path.last().unwrap().total_cost, 9);
    assert_eq!(enough.work_used(), 3);
    let mut short = path_governor(2);
    assert!(matches!(
        weighted_shortest_path_with_neighbors_governed_with_context(
            &nodes, &edges, 0, 3, &registry, context, &mut short,
        ),
        Err(GraphError::ResourceLimit { resource: ResourceKind::Work, .. })
    ));
}

fn weighted_chain() -> (NodeStore, EdgeStore) {
    let mut nodes = NodeStore::new();
    for index in 0..4 {
        nodes.add_node(100, format!("N-{index}"));
    }
    let edges = EdgeStore::from_edges(
        4,
        (0..3)
            .map(|at| RawEdge {
                source: at,
                target: at + 1,
                type_id: EdgeTypeId(1),
                weight: Some(at + 2),
                schema_reversed: false,
            })
            .collect(),
        true,
    );
    (nodes, edges)
}

#[test]
fn refused_answers_leave_a_weighted_search_as_it_was() {
    let (nodes, edges) = weighted_chain();
    let relationships = RelationshipIdentities::empty();
    let mut governor = path_governor(1_000);
    let mut machine = ResumableDijkstra::try_new(4, 0, 3).unwrap();
    let nothing = RoaringBitmap::new();
    let mut refused = 0;
    while !machine.is_complete() {
        match materialize_resumable_dijkstra_batch(
            &mut machine,
            &nodes,
            &edges,
            &relationships,
            None,
            candidate_limits(1),
            &mut governor,
        )
        .unwrap()
        {
            ResumablePathMaterialization::Batch(mut batch) => {
                let verdicts = candidate_verdicts(&batch, &nothing, &nothing);
                let used = governor.memory_used();
                let mut answer = |batch: &BfsAdjacencyCandidateBatch,
                                  verdicts: &Vec<BfsAdjacencyVerdict>| {
                    apply_resumable_dijkstra_verdicts(
                        &mut machine,
                        batch,
                        verdicts,
                        &relationships,
                        &nodes,
                        &nothing,
                        &mut governor,
                    )
                };
                // Too few answers, answers to other candidates, and answers
                // about another node are refused.
                assert!(matches!(answer(&batch, &vec![]), Err(GraphError::Internal(_))));
                let mut shifted = verdicts.clone();
                shifted[0].sequence += 1;
                assert!(matches!(answer(&batch, &shifted), Err(GraphError::Internal(_))));
                batch.candidates[0].target_node ^= 1;
                assert!(matches!(answer(&batch, &verdicts), Err(GraphError::Internal(_))));
                batch.candidates[0].target_node ^= 1;
                refused += 3;
                answer(&batch, &verdicts).unwrap();
                assert!(governor.memory_used() >= used);
            }
            ResumablePathMaterialization::Progress => {}
            ResumablePathMaterialization::Complete => break,
        }
    }
    assert!(refused >= 12);
    let path = machine
        .finish(
            &nodes,
            EdgeTypeLabels { registry: &["".into(), "route".into()], resolver: None },
            &mut governor,
        )
        .unwrap();
    assert_eq!(path, weighted_shortest_path(&nodes, &edges, 0, 3, &["".into(), "route".into()]));
}

#[test]
fn hidden_parts_are_as_if_absent_on_generated_graphs() {
    let mut state: u32 = 7;
    let mut next = |bound: u32| {
        state = state.wrapping_mul(1_664_525).wrapping_add(1_013_904_223);
        (state >> 16) % bound
    };
    let registry = ["".to_string(), "route".to_string()];
    let deleted_nodes = RoaringBitmap::new();
    let free = VisibilityScope::unrestricted();
    for _ in 0..30 {
        let mut nodes = NodeStore::new();
        for index in 0..9 {
            nodes.add_node(100, format!("N-{index}"));
        }
        let (hidden_node, hidden_id) = (1 + next(7), next(20));
        let all: Vec<(RawEdge, u32)> = (0..20)
            .map(|id| {
                let edge = RawEdge {
                    source: next(9),
                    target: next(9),
                    type_id: EdgeTypeId(1),
                    weight: Some(next(5)),
                    schema_reversed: false,
                };
                (edge, id)
            })
            .collect();
        let left: Vec<(RawEdge, u32)> = all
            .iter()
            .filter(|(edge, id)| edge.target != hidden_node && *id != hidden_id)
            .map(|(edge, id)| (*edge, *id))
            .collect();
        let whole = identified_store(9, true, all);
        let cut = identified_store(9, true, left);
        let mut hidden_nodes = RoaringBitmap::new();
        hidden_nodes.insert(hidden_node);
        let mut hidden_relationships = RoaringBitmap::new();
        hidden_relationships.insert(hidden_id);
        let visibility = VisibilityScope::enforced(
            hidden_nodes.clone(),
            hidden_relationships.clone(),
            RoaringBitmap::new(),
        );
        let context = |visibility| QueryExecutionContext {
            visibility,
            edge_type_filter: None,
            deleted_nodes: &deleted_nodes,
        };
        for has_unidirectional_edges in [true, false] {
            let request = || UnweightedPathRequest {
                source: 0,
                target: 8,
                max_depth: 9,
                has_unidirectional_edges,
                edge_type_registry: &registry,
                edge_type_label: None,
            };
            let found = |edges: &EdgeStore, visibility| {
                path_signature(
                    shortest_path_with_neighbors_governed_with_context(
                        &nodes,
                        edges,
                        request(),
                        context(visibility),
                        &mut path_governor(10_000),
                    )
                    .unwrap(),
                )
            };
            assert_eq!(found(&whole, &visibility), found(&cut, &free));
        }
        let weighted = |edges: &EdgeStore, visibility| {
            weighted_shortest_path_with_neighbors_governed_with_context(
                &nodes,
                edges,
                0,
                8,
                &registry,
                context(visibility),
                &mut path_governor(10_000),
            )
            .unwrap()
        };
        assert_eq!(weighted(&whole, &visibility), weighted(&cut, &free));
    }
}

#[test]
fn an_undecided_edge_that_is_looked_at_fails_the_search() {
    let mut nodes = NodeStore::new();
    for index in 0..5 {
        nodes.add_node(100, format!("N-{index}"));
    }
    let raw = |source, target, type_id| RawEdge {
        source,
        target,
        type_id: EdgeTypeId(type_id),
        weight: Some(1),
        schema_reversed: false,
    };
    // Edges of the second type are protected, and carry no identity.
    let near = EdgeStore::from_edges(
        5,
        vec![raw(0, 1, 1), raw(0, 2, 2), raw(1, 3, 1)],
        true,
    );
    let far = EdgeStore::from_edges(
        5,
        vec![raw(0, 1, 1), raw(1, 3, 1), raw(3, 4, 2)],
        true,
    );
    let mut protected = RoaringBitmap::new();
    protected.insert(2);
    let visibility =
        VisibilityScope::enforced(RoaringBitmap::new(), RoaringBitmap::new(), protected);
    let deleted_nodes = RoaringBitmap::new();
    let context = QueryExecutionContext {
        visibility: &visibility,
        edge_type_filter: None,
        deleted_nodes: &deleted_nodes,
    };
    let registry = ["".to_string(), "open".to_string(), "guarded".to_string()];
    let request = |has_unidirectional_edges| UnweightedPathRequest {
        source: 0,
        target: 3,
        max_depth: 4,
        has_unidirectional_edges,
        edge_type_registry: &registry,
        edge_type_label: None,
    };
    let undecided = |error: GraphError| match error {
        GraphError::Internal(reason) => {
            assert_eq!(reason, "relationship visibility requires a source identity")
        }
        other => panic!("expected an undecided relationship, got {:?}", other),
    };
    for both in [true, false] {
        let search = |edges: &EdgeStore, work| {
            shortest_path_with_neighbors_governed_with_context(
                &nodes,
                edges,
                request(both),
                context,
                &mut path_governor(work),
            )
        };
        undecided(search(&near, 100).unwrap_err());
        // The first edge is looked at, and the budget is used up before the second.
        assert!(matches!(search(&near, 1), Err(GraphError::ResourceLimit { .. })));
    }
    // The edge behind the target is not looked at.
    let found = shortest_path_with_neighbors_governed_with_context(
        &nodes,
        &far,
        request(true),
        context,
        &mut path_governor(100),
    )
    .unwrap();
    assert_eq!(found.unwrap().len(), 3);

    let weighted = |edges: &EdgeStore| {
        weighted_shortest_path_with_neighbors_governed_with_context(
            &nodes,
            edges,
            0,
            3,
            &registry,
            context,
            &mut path_governor(100),
        )
    };
    undecided(weighted(&near).unwrap_err());
    assert_eq!(weighted(&far).unwrap().unwrap().len(), 3);
}

#[test]
fn paths_from_both_ends_follow_edges() {
    let mut nodes = NodeStore::new();
    for index in 0..6 {
        nodes.add_node(100, format!("N-{index}"));
    }
    let mut edges = Vec::new();
    for (left, right, type_id) in
        [(0, 1, 1), (1, 2, 2), (2, 3, 1), (3, 4, 2), (4, 5, 1), (0, 3, 2), (1, 5, 3)]
    {
        for (source, target) in [(left, right), (right, left)] {
            edges.push(RawEdge {
                source,
                target,
                type_id: EdgeTypeId(type_id),
                weight: None,
                schema_reversed: source > target,
            });
        }
    }
    let store = EdgeStore::from_edges(6, edges.clone(), false);
    let registry: Vec<String> = ["", "one", "two", "three"].map(String::from).to_vec();
    for source in 0..6u32 {
        for target in 0..6u32 {
            let path =
                shortest_path(&nodes, &store, source, target, 6, false, &registry).unwrap();
            let at = |step: &PathStep| step.node_id[2..].parse::<u32>().unwrap();
            assert_eq!(at(&path[0]), source);
            assert_eq!(at(path.last().unwrap()), target);
            for pair in path.windows(2) {
                let label = pair[1].edge_label.clone().unwrap();
                assert!(edges.iter().any(|edge| edge.source == at(&pair[0])
                    && edge.target == at(&pair[1])
                    && registry[edge.type_id.0 as usize] == label));
            }
        }
    }
}
