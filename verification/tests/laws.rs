//! Properties that relate several calls, on concrete values.
use pggraph::codec::{push_be, push_le, read_be, read_le, sorts_before};
use pggraph::cost_heap::CostHeap;
use pggraph::direct_edges::{decode_edge, emit_csr, encode_edge, replay_edges, DecodedEdge};
use pggraph::direct_nodes::{decode_nodes, emit_active_bitmap, encode_node_record};
use pggraph::direct_sections::{decode_identity, encode_identity};
use pggraph::edge_labels::{resolve_edge_type_label, EdgeLabelTable, EdgeTypeLabels};
use pggraph::edge_store::{EdgeStore, RawEdge};
use pggraph::engine::Engine;
use pggraph::errors::GraphError;
use pggraph::filter_index::FilterIndex;
use pggraph::filter_storage::FilterColumnStorage;
use pggraph::filter_value::{EncodedFilterValue, FilterColumnType, PersistedFilterValue};
use pggraph::mapped_bytes::MappedBytes;
use pggraph::neighbors::{NeighborSource, OwnedNeighborCursor, WeightedNeighborSource};
use pggraph::node_store::NodeStore;
use pggraph::overlay::{
    EdgeMutation, EdgeOverlay, MutationKind, OverlayEdge, OverlayNeighbors, TxDelta,
};
use pggraph::parts::{joined_len, push_end_table, push_joined};
use pggraph::path_machine::{
    next_path_sequence, validate_path_materialization, BfsCandidateLimits, ResumablePathState,
};
use pggraph::raw_edges::{encode_raw_edge, normalize_relationships};
use pggraph::resolution::{stored_candidates, ResolutionEntry, ResolutionIndexBuilder};
use pggraph::resource::{ResourceGovernor, ResourceKind, ResourceLimits, ResourcePhase};
use pggraph::rooms::{total_bytes, Room};
use pggraph::run_records::{sort_records, RunRecord, StagedRun};
use pggraph::text::{is_blank, same_text};
use pggraph::text_dictionary::TextDictionary;
use pggraph::types::{EdgeTypeId, TraversalDirection};
use pggraph::visibility::VisibilityScope;
use roaring::RoaringBitmap;

fn raw(source: u32, target: u32, weight: Option<u32>) -> RawEdge {
    RawEdge { source, target, type_id: EdgeTypeId(1), weight, schema_reversed: false }
}

fn mutation(source: u32, target: u32, kind: MutationKind) -> EdgeMutation {
    EdgeMutation { source, target, type_id: 1, schema_reversed: false, relationship_id: None, kind }
}

#[test]
fn numbers_read_back_in_either_order() {
    let mut bytes = Vec::new();
    push_le(&mut bytes, 0x0102_0304, 4);
    push_be(&mut bytes, 0x0102_0304, 4);
    assert_eq!(bytes, vec![4, 3, 2, 1, 1, 2, 3, 4]);
    assert_eq!(read_le(&bytes, 0, 4), 0x0102_0304);
    assert_eq!(read_be(&bytes, 4, 4), 0x0102_0304);
}

#[test]
fn big_endian_bytes_sort_as_numbers() {
    let (mut low, mut high) = (Vec::new(), Vec::new());
    push_be(&mut low, 255, 4);
    push_be(&mut high, 256, 4);
    assert!(sorts_before(&low, &high));
    assert!(!sorts_before(&high, &low));
    assert!(!sorts_before(&low, &low));
}

#[test]
fn parts_stand_between_their_ends() {
    let parts: Vec<&[u8]> = vec![b"ab", b"", b"cde"];
    assert_eq!(joined_len(&parts), Some(5));
    let (mut bytes, mut ends) = (Vec::new(), Vec::new());
    push_joined(&mut bytes, &parts);
    push_end_table(&mut ends, &parts);
    assert_eq!(bytes, b"abcde".to_vec());
    let numbers: Vec<u64> =
        ends.chunks(8).map(|entry| u64::from_le_bytes(entry.try_into().unwrap())).collect();
    assert_eq!(numbers, vec![0, 2, 2, 5]);
}

#[test]
fn records_read_back() {
    let edge = DecodedEdge {
        source: 3,
        target: 1,
        type_id: 7,
        schema_reversed: 1,
        weight: 9,
        relationship_id: 4,
    };
    assert_eq!(decode_edge(&encode_edge(&edge)).unwrap(), edge);
    let identity = encode_identity(4, 70, "row").unwrap();
    assert_eq!(decode_identity(&identity).unwrap(), (4, 70, b"row".as_slice()));
    let run = StagedRun::from_sorted(vec![encode_node_record(0, 42, "key").unwrap()]).unwrap();
    let rows = decode_nodes(Some(&run), 1).unwrap();
    assert_eq!((rows.tables[0], rows.keys[0]), (42, b"key".as_slice()));
}

#[test]
fn rows_hold_their_nodes_edges() {
    let edge = |source, target| DecodedEdge {
        source,
        target,
        type_id: 1,
        schema_reversed: 0,
        weight: 1,
        relationship_id: 1,
    };
    let edges = vec![edge(0, 2), edge(2, 0), edge(2, 1)];
    let sections = emit_csr(&edges, 3, false);
    assert_eq!(sections.offsets, [0u32, 1, 1, 3].map(u32::to_le_bytes).concat());
    assert_eq!(sections.targets, [2u32, 0, 1].map(u32::to_le_bytes).concat());
    assert_eq!(sections.weights, Vec::<u8>::new());
    let run = StagedRun::from_sorted(edges.iter().map(encode_edge).collect()).unwrap();
    assert_eq!(replay_edges(Some(&run), 3, 3).unwrap(), edges);
    assert!(replay_edges(Some(&run), 2, 3).is_err());
    assert!(replay_edges(Some(&run), 3, 2).is_err());
}

#[test]
fn built_nodes_are_all_active() {
    assert_eq!(emit_active_bitmap(0), Vec::<u8>::new());
    assert_eq!(emit_active_bitmap(8), vec![255]);
    assert_eq!(emit_active_bitmap(11), vec![255, 7]);
}

#[test]
fn sorted_records_are_a_copy_in_order() {
    let record = |key: u8, value: u8| RunRecord::new(vec![key], vec![value]);
    let sorted = sort_records(vec![record(2, 0), record(1, 9), record(1, 3)]);
    assert_eq!(sorted, vec![record(1, 3), record(1, 9), record(2, 0)]);
    assert!(StagedRun::from_sorted(vec![record(2, 0), record(1, 0)]).is_err());
}

#[test]
fn a_reversed_edge_leads_back() {
    let store = EdgeStore::from_edges(3, vec![raw(0, 1, Some(5)), raw(2, 1, Some(6))], true);
    let back = store.reversed();
    let row: Vec<(u32, u32)> =
        back.weighted_neighbors(1).iter().map(|edge| (edge.target, edge.weight)).collect();
    assert_eq!(row, vec![(0, 5), (2, 6)]);
    assert!(back.neighbors(0).is_empty());
    assert_eq!(back.edge_count(), 2);
}

#[test]
fn pages_follow_one_another() {
    let store = EdgeStore::from_edges(4, vec![raw(0, 1, None), raw(0, 2, None), raw(0, 3, None)], false);
    let mut cursor = OwnedNeighborCursor::start();
    let mut page = Vec::new();
    assert!(!store.fill_neighbors(0, &mut cursor, 2, &mut page));
    assert_eq!(page.len(), 2);
    assert!(store.fill_neighbors(0, &mut cursor, 2, &mut page));
    let targets: Vec<u32> = page.iter().map(|edge| edge.target).collect();
    assert_eq!(targets, vec![1, 2, 3]);
}

#[test]
fn the_last_change_of_an_edge_decides() {
    let base = EdgeStore::from_edges(3, vec![raw(0, 1, None)], false);
    let row = |changes: Vec<EdgeMutation>| -> Vec<u32> {
        let overlay =
            EdgeOverlay::build(&changes, &TxDelta::empty(), TraversalDirection::Out);
        OverlayNeighbors::new(&base, &overlay)
            .neighbors(0)
            .iter()
            .map(|edge| edge.target)
            .collect()
    };
    assert_eq!(row(vec![]), vec![1]);
    assert_eq!(row(vec![mutation(0, 2, MutationKind::Insert)]), vec![1, 2]);
    assert_eq!(row(vec![mutation(0, 1, MutationKind::Delete)]), Vec::<u32>::new());
    assert_eq!(
        row(vec![mutation(0, 2, MutationKind::Insert), mutation(0, 2, MutationKind::Delete)]),
        vec![1]
    );
    assert_eq!(
        row(vec![mutation(0, 2, MutationKind::Delete), mutation(0, 2, MutationKind::Insert)]),
        vec![1, 2]
    );
}

#[test]
fn inbound_overlays_are_turned() {
    let overlay = EdgeOverlay::build(
        &vec![mutation(0, 2, MutationKind::Insert)],
        &TxDelta::empty(),
        TraversalDirection::In,
    );
    assert_eq!(
        overlay.inserts,
        vec![OverlayEdge {
            source: 2,
            target: 0,
            type_id: EdgeTypeId(1),
            schema_reversed: false,
            relationship_id: None,
        }]
    );
}

#[test]
fn finalized_entries_answer_as_the_builder_did() {
    let mut builder = ResolutionIndexBuilder::new();
    for (table_oid, pk_hash, node_idx) in [(2, 9, 4), (1, 9, 3), (2, 9, 1), (2, 8, 0)] {
        builder.insert(ResolutionEntry { table_oid, pk_hash, node_idx });
    }
    let bytes = builder.to_bytes();
    assert_eq!(bytes.len(), 4 + 16 * 4);
    let mut found = builder.candidates(2, 9);
    found.sort_unstable();
    assert_eq!(found, vec![1, 4]);
    assert_eq!(stored_candidates(&bytes, 2, 9), Some(vec![1, 4]));
    assert_eq!(stored_candidates(&bytes, 3, 9), Some(vec![]));
    assert_eq!(stored_candidates(&bytes[..10], 2, 9), None);
}

#[test]
fn relationships_of_one_identity_share_a_number() {
    let records = sort_records(vec![
        encode_raw_edge(1, "a", 0, 1, 1, None, true).unwrap(),
        encode_raw_edge(1, "b", 1, 2, 1, None, false).unwrap(),
    ]);
    let run = StagedRun::from_sorted(records).unwrap();
    let mut governor = ResourceGovernor::unlimited();
    let runs = normalize_relationships(Some(&run), vec!["".to_string()], &mut governor, 64).unwrap();
    assert_eq!(runs.forward_edge_count, 3);
    let numbers: Vec<u32> = runs
        .forward
        .as_ref()
        .unwrap()
        .records()
        .iter()
        .map(|record| decode_edge(record).unwrap().relationship_id)
        .collect();
    assert_eq!(numbers, vec![1, 1, 2]);
    assert_eq!(runs.identities.as_ref().unwrap().records().len(), 2);
}

#[test]
fn tokens_stay_when_texts_are_added() {
    let mut dictionary = TextDictionary::new();
    assert_eq!(dictionary.intern("zulu"), Some(0));
    assert_eq!(dictionary.intern("alpha"), Some(1));
    assert_eq!(dictionary.intern("zulu"), Some(0));
    assert_eq!(dictionary.get(1), Some("alpha"));
    assert_eq!(dictionary.find("mike"), None);
    assert_eq!(dictionary.nth(0), "alpha");
    assert_eq!(dictionary.rank("zulu"), 1);
}

#[test]
fn heaps_pop_the_cheapest_first() {
    let mut heap = CostHeap::new();
    for entry in [(5, 1), (2, 7), (2, 3), (9, 0)] {
        heap.push(entry);
    }
    let mut order = Vec::new();
    while let Some(entry) = heap.pop() {
        order.push(entry);
    }
    assert_eq!(order, vec![(2, 3), (2, 7), (5, 1), (9, 0)]);
}

#[test]
fn labels_come_from_the_first_source_that_has_one() {
    let registry = ["".to_string(), "registered".to_string()];
    let table = EdgeLabelTable::new(vec![(EdgeTypeId(1), "own".to_string())]);
    let plain = EdgeTypeLabels { registry: &registry, resolver: None };
    let own = EdgeTypeLabels { registry: &registry, resolver: Some(&table) };
    assert_eq!(resolve_edge_type_label(plain, EdgeTypeId(1)), "registered");
    assert_eq!(resolve_edge_type_label(own, EdgeTypeId(1)), "own");
    assert_eq!(resolve_edge_type_label(own, EdgeTypeId(12)), "type_12");
}

#[test]
fn budgets_refuse_and_give_back() {
    let mut governor = ResourceGovernor::new(ResourceLimits::bounded(10, 2, Some(0)));
    governor.reserve_memory(ResourcePhase::Nodes, 7).unwrap();
    match governor.reserve_memory(ResourcePhase::Nodes, 4) {
        Err(GraphError::ResourceLimit { phase, resource }) => {
            assert_eq!(phase, ResourcePhase::Nodes);
            assert_eq!(resource, ResourceKind::Memory);
        }
        other => panic!("expected a refusal, got {:?}", other),
    }
    governor.release_memory(7);
    governor.reserve_memory(ResourcePhase::Nodes, 10).unwrap();
    governor.consume_work(ResourcePhase::QueryPaths, 2).unwrap();
    assert!(governor.consume_work(ResourcePhase::QueryPaths, 1).is_err());
    assert_eq!(governor.work_used(), 2);
    while governor.check_elapsed(ResourcePhase::QueryPaths).is_ok() {}
    let patient = ResourceGovernor::new(ResourceLimits::memory_only(1));
    assert!(patient.check_elapsed(ResourcePhase::QueryPaths).is_ok());
    assert_eq!(ResourcePhase::QueryPaths.as_str(), "query_paths");
}

#[test]
fn protected_types_need_an_identity() {
    let mut protected = RoaringBitmap::new();
    protected.insert(3);
    let mut hidden = RoaringBitmap::new();
    hidden.insert(8);
    let scope = VisibilityScope::enforced(RoaringBitmap::new(), hidden, protected);
    assert!(scope.allows_relationship(EdgeTypeId(3), Some(7)).unwrap());
    assert!(!scope.allows_relationship(EdgeTypeId(3), Some(8)).unwrap());
    assert!(scope.allows_relationship(EdgeTypeId(3), None).is_err());
    assert!(scope.allows_relationship(EdgeTypeId(4), None).unwrap());
}

#[test]
fn storage_counts_its_bitmaps() {
    let mut sparse = FilterColumnStorage::new_storage(FilterColumnType::Boolean, 1000, 0);
    let empty = sparse.estimated_bytes();
    for node in 0..100 {
        sparse.set(node, Some(EncodedFilterValue::Boolean(node % 2 == 0)));
    }
    assert!(sparse.estimated_bytes() > empty);
    assert_eq!(sparse.value(3), Some(EncodedFilterValue::Boolean(false)));
}

#[test]
fn mismatched_values_are_named() {
    let mut index = FilterIndex::new();
    let column = index.register_typed_column(1, "n".into(), FilterColumnType::Numeric, 1);
    match index.apply_persisted_value(column, 0, 1, &PersistedFilterValue::Boolean(true), false) {
        Err(GraphError::CorruptFile { reason }) => assert_eq!(
            reason,
            "projection filter value Boolean(true) does not match registered column 0 type Numeric"
        ),
        other => panic!("expected corruption, got {:?}", other),
    }
}

#[test]
fn owned_copies_do_not_share_bits() {
    let mut store = NodeStore::new();
    store.add_node(1, "a".to_string());
    store.add_node(1, "b".to_string());
    let mut copy = store.to_owned_store();
    copy.deactivate(0);
    assert!(store.is_active(0));
    assert!(!copy.is_active(0));
    assert_eq!(copy.active_count(), 1);
}

#[test]
fn memberships_grow_while_a_graph_is_built() {
    let mut engine = Engine::new();
    engine.try_build_insert_tenant_membership("acme", 3, 64).unwrap();
    engine.try_build_insert_table_membership(42, 3, 64).unwrap();
    assert!(engine.tenant_membership.contains("acme", 3));
    assert!(engine.table_membership.contains(42, 3));
    engine.remove_tenant_membership("acme", 3);
    engine.remove_table_membership(42, 3);
    assert!(!engine.tenant_membership.contains("acme", 3));
    assert!(!engine.table_membership.contains(42, 3));
    engine.try_build_resolution_insert(42, "k", 3).unwrap();
    engine.finalize_resolution();
    assert!(matches!(
        engine.try_build_resolution_insert(42, "l", 4),
        Err(GraphError::Internal(_))
    ));
}

#[test]
fn an_expired_or_mismatched_page_request_is_refused() {
    assert_eq!(next_path_sequence(7).unwrap(), 8);
    assert!(next_path_sequence(u32::MAX).is_err());
    let none = BfsCandidateLimits { max_candidates: 0, max_key_bytes: 1 };
    assert!(validate_path_materialization(ResumablePathState::NeedCandidates, none).is_err());
    let one = BfsCandidateLimits { max_candidates: 1, max_key_bytes: 1 };
    assert!(validate_path_materialization(ResumablePathState::NeedCandidates, one).is_ok());
    assert!(validate_path_materialization(ResumablePathState::NeedVisibility, one).is_err());
}

#[test]
fn blank_and_equal_texts_are_told() {
    assert!(is_blank(" \t\u{2003}"));
    assert!(!is_blank(" x "));
    assert!(same_text("\u{e9}", "\u{e9}"));
    assert!(!same_text("a", "A"));
}

#[test]
fn mappings_are_copied() {
    let mut mapping = memmap2::MmapMut::map_anon(5).unwrap();
    mapping.copy_from_slice(b"graph");
    let mapping = mapping.make_read_only().unwrap();
    let bytes = MappedBytes::from_mmap(&mapping);
    drop(mapping);
    assert_eq!(bytes.as_slice(), b"graph");
    assert_eq!(bytes.share().len(), 5);
}

#[test]
fn allocations_come_to_their_total() {
    let rooms = vec![
        Room::Items { capacity: 10, unit: 4 },
        Room::Buckets { capacity: 3, entry: 8 },
        Room::Buckets { capacity: 0, entry: 8 },
        Room::Bits { capacity: 9 },
        Room::Bytes { bytes: 5 },
    ];
    assert_eq!(total_bytes(&rooms), 40 + (3 * 10 + 16) + 2 + 5);
    let huge = Room::Items { capacity: usize::MAX, unit: 2 };
    assert_eq!(total_bytes(&vec![huge, Room::Bytes { bytes: 1 }]), usize::MAX);
    let engine = Engine::new();
    assert_eq!(engine.estimated_heap_bytes(), total_bytes(&engine.allocations()));
    let index = FilterIndex::new();
    assert_eq!(index.estimated_heap_bytes(), total_bytes(&index.allocations()));
}
