//! Codecs and scans of relationships.
use pggraph::raw_edges::{decode_raw_edge, encode_raw_edge};
use pggraph::resource::{ResourceGovernor, ResourceLimits};
use pggraph::run_records::RunRecord;
use pggraph::scan_edges::{intern_edge_type, required_u32, scan_persisted_edges, EdgeRow};
use pggraph::scan_sql::{
    dynamic_label_column, stable_optional_order, PrimaryKeySpec, RegisteredEdge,
};

#[test]
fn dynamic_label_column_follows_optional_weight() {
    assert_eq!(dynamic_label_column(false), 4);
    assert_eq!(dynamic_label_column(true), 5);
}

#[test]
fn stable_edge_order_includes_every_optional_projection() {
    assert_eq!(stable_optional_order(false, false), "");
    assert_eq!(stable_optional_order(true, false), ", 4");
    assert_eq!(stable_optional_order(false, true), ", 4");
    assert_eq!(stable_optional_order(true, true), ", 4, 5");
}

#[test]
fn edge_codec_round_trips() {
    let record = encode_raw_edge(7, "key", 1, 2, 3, Some(4), true).unwrap();
    let decoded = decode_raw_edge(&record).unwrap();
    assert_eq!(
        (
            decoded.mapping_id,
            decoded.source_key,
            decoded.source,
            decoded.target,
            decoded.type_id,
            decoded.weight,
            decoded.bidirectional
        ),
        (7, "key", 1, 2, 3, 4, true)
    );
}

#[test]
fn edge_type_registry_reserves_slot_zero_and_rejects_entry_256() {
    let mut governor = ResourceGovernor::new(ResourceLimits::memory_only(64 * 1024));
    let mut registry = vec![String::new()];
    for index in 0..254 {
        let label = format!("type-{index}");
        assert!(intern_edge_type(&mut registry, &mut governor, &label, 128).is_ok());
    }
    assert_eq!(registry.len(), 255);
    assert!(intern_edge_type(&mut registry, &mut governor, "overflow", 128).is_err());
}

#[test]
fn shortened_edge_records_are_corrupt() {
    let record = encode_raw_edge(7, "key", 1, 2, 3, None, false).unwrap();
    let mut value = record.value.clone();
    value.pop();
    assert!(decode_raw_edge(&RunRecord::new(record.key.clone(), value)).is_err());
}

#[test]
fn node_references_must_fit() {
    assert_eq!(required_u32(Some(7), "source").unwrap(), 7);
    assert!(required_u32(None, "source").is_err());
    assert!(required_u32(Some(-1), "source").is_err());
    assert!(required_u32(Some(1 << 32), "source").is_err());
}

#[test]
fn scanned_edges_are_mirrored_and_numbered() {
    let edges = vec![RegisteredEdge {
        mapping_id: 9,
        from_table_oid: 1,
        to_table_oid: 1,
        from_column: "a".to_string(),
        to_column: "b".to_string(),
        source_key_columns: PrimaryKeySpec { columns: vec!["id".to_string()] },
        label: "KNOWS".to_string(),
        label_column: None,
        weight_column: None,
        bidirectional: true,
    }];
    let rows = vec![vec![EdgeRow {
        source: Some(0),
        target: Some(1),
        source_key: Some("k".to_string()),
        weight: None,
        label: None,
    }]];
    let mut governor = ResourceGovernor::new(ResourceLimits::memory_only(1 << 20));
    let runs = scan_persisted_edges(&edges, &rows, &mut governor, 16, 256, 8).unwrap();
    assert_eq!(runs.edge_type_registry, vec!["".to_string(), "KNOWS".to_string()]);
    assert_eq!(runs.forward_edge_count, 2);
    assert_eq!(runs.inbound_edge_count, 2);
    assert_eq!(runs.identities.as_ref().unwrap().records().len(), 1);
    let forward = runs.forward.as_ref().unwrap().records();
    assert_eq!(forward[0].key[..8], [0, 0, 0, 0, 0, 0, 0, 1]);
    assert_eq!(forward[1].key[..8], [0, 0, 0, 1, 0, 0, 0, 0]);
}

#[test]
fn edge_runs_do_not_depend_on_the_batch_size() {
    let edges = vec![RegisteredEdge {
        mapping_id: 9,
        from_table_oid: 1,
        to_table_oid: 1,
        from_column: "a".to_string(),
        to_column: "b".to_string(),
        source_key_columns: PrimaryKeySpec { columns: vec!["id".to_string()] },
        label: "KNOWS".to_string(),
        label_column: None,
        weight_column: None,
        bidirectional: true,
    }];
    let rows: Vec<Vec<EdgeRow>> = vec![(0..7)
        .map(|at| EdgeRow {
            source: Some((5 * at) % 7),
            target: Some((3 * at + 1) % 7),
            source_key: Some(format!("k{}", 6 - at)),
            weight: None,
            label: None,
        })
        .collect()];
    let scanned = |batch_size, merge_fanout| {
        let mut governor = ResourceGovernor::unlimited();
        let runs =
            scan_persisted_edges(&edges, &rows, &mut governor, batch_size, 256, merge_fanout)
                .unwrap();
        [&runs.forward, &runs.inbound, &runs.identities]
            .into_iter()
            .flat_map(|run| run.as_ref().unwrap().records().iter())
            .map(|record| (record.key.clone(), record.value.clone()))
            .collect::<Vec<_>>()
    };
    let whole = scanned(100, 8);
    assert_eq!(whole.len(), 14 + 14 + 7);
    assert_eq!(scanned(1, 2), whole);
    assert_eq!(scanned(3, 4), whole);
}
