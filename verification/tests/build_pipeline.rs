//! From source rows to an artifact.
use pggraph::build_pipeline::{
    build_persisted_candidate, DirectBuildInput, DirectBuildOptions, DirectBuildResult,
};
use pggraph::direct_filters::RegisteredFilterColumn;
use pggraph::errors::GraphError;
use pggraph::filter_index::FilterIndex;
use pggraph::filter_value::EncodedFilterValue;
use pggraph::mapped_bytes::MappedBytes;
use pggraph::persisted_build::ProjectionMode;
use pggraph::resolution::stored_candidates;
use pggraph::resource::{ResourceGovernor, ResourceLimits};
use pggraph::scan_codec::hash_pk;
use pggraph::scan_edges::EdgeRow;
use pggraph::scan_rows::{SourceCell, SourceRow};
use pggraph::scan_sql::{edge_query, find_table, PrimaryKeySpec, RegisteredEdge, RegisteredTable};

fn table() -> RegisteredTable {
    RegisteredTable {
        table_oid: 42,
        id_columns: PrimaryKeySpec { columns: vec!["id".to_string()] },
        tenant_column: None,
    }
}

fn relationship() -> RegisteredEdge {
    RegisteredEdge {
        mapping_id: 5,
        from_table_oid: 42,
        to_table_oid: 42,
        from_column: "a".to_string(),
        to_column: "b".to_string(),
        source_key_columns: PrimaryKeySpec { columns: vec!["id".to_string()] },
        label: "KNOWS".to_string(),
        label_column: None,
        weight_column: Some("w".to_string()),
        bidirectional: false,
    }
}

fn options() -> DirectBuildOptions {
    DirectBuildOptions {
        batch_size: 16,
        max_record_bytes: 256,
        max_run_files: 8,
        merge_fanout: 4,
        applied_sync_id: 77,
        projection_mode: ProjectionMode::CsrReadonly,
    }
}

fn rows() -> Vec<Vec<SourceRow>> {
    vec![["a", "b"]
        .iter()
        .enumerate()
        .map(|(at, key)| SourceRow {
            primary_key: Some(key.to_string()),
            filters: vec![SourceCell::Integer(10 + at as i64)],
            tenant: None,
        })
        .collect()]
}

fn filters() -> Vec<RegisteredFilterColumn> {
    vec![RegisteredFilterColumn {
        table_oid: 42,
        table_name: "nodes".to_string(),
        column_name: "score".to_string(),
        column_type: "numeric".to_string(),
    }]
}

fn edge_rows(target: i64) -> Vec<Vec<EdgeRow>> {
    vec![vec![EdgeRow {
        source: Some(0),
        target: Some(target),
        source_key: Some("k".to_string()),
        weight: Some(3),
        label: None,
    }]]
}

#[test]
fn a_candidate_holds_what_was_scanned() {
    let (tables, rows, edges, edge_rows, filters) =
        (vec![table()], rows(), vec![relationship()], edge_rows(1), filters());
    let input = DirectBuildInput {
        tables: &tables,
        rows: &rows,
        edges: &edges,
        edge_rows: &edge_rows,
        filters: &filters,
    };
    let mut governor = ResourceGovernor::new(ResourceLimits::memory_only(1 << 20));
    let (artifact, counts) =
        build_persisted_candidate(&input, &mut governor, &options(), 2).unwrap();
    assert_eq!(
        counts,
        DirectBuildResult { node_count: 2, edge_count: 1, pressure_events: 2 }
    );
    assert_eq!(governor.memory_used(), 0);
    assert_eq!(artifact.metadata.applied_sync_id, 77);
    assert!(artifact.metadata.has_unidirectional_edges);
    assert!(artifact.metadata.has_forward_weights);
    assert_eq!(artifact.sections[3], b"ab".to_vec());
    assert_eq!(artifact.sections[8], 3u32.to_le_bytes().to_vec());
    assert_eq!(stored_candidates(&artifact.sections[16], 42, hash_pk("b")), Some(vec![1]));
    let lengths: Vec<u64> =
        artifact.sections.iter().map(|section| section.len() as u64).collect();
    assert_eq!(artifact.section_lengths, lengths);

    let mut bytes = artifact.sections[17].clone();
    let catalog = 0..bytes.len();
    bytes.extend_from_slice(&artifact.sections[18]);
    let data = catalog.end..bytes.len();
    bytes.extend_from_slice(&artifact.sections[19]);
    let dictionaries = data.end..bytes.len();
    let index = FilterIndex::from_mapped_sections(
        MappedBytes::from_bytes(bytes),
        catalog,
        data,
        dictionaries,
        2,
    )
    .unwrap();
    assert_eq!(index.persistent_value(0, 1), Some(EncodedFilterValue::Numeric(11)));
}

#[test]
fn small_limits_are_refused() {
    let (tables, rows, edges, edge_rows, filters) =
        (vec![table()], rows(), vec![relationship()], edge_rows(1), filters());
    let input = DirectBuildInput {
        tables: &tables,
        rows: &rows,
        edges: &edges,
        edge_rows: &edge_rows,
        filters: &filters,
    };
    let mut governor = ResourceGovernor::unlimited();
    for small in [
        DirectBuildOptions { max_run_files: 3, ..options() },
        DirectBuildOptions { max_record_bytes: 31, ..options() },
        DirectBuildOptions { batch_size: 0, ..options() },
        DirectBuildOptions { merge_fanout: 1, ..options() },
    ] {
        assert!(matches!(
            build_persisted_candidate(&input, &mut governor, &small, 0),
            Err(GraphError::Internal(_))
        ));
    }
}

#[test]
fn an_edge_to_no_node_is_refused() {
    let (tables, rows, edges, edge_rows, filters) =
        (vec![table()], rows(), vec![relationship()], edge_rows(2), filters());
    let input = DirectBuildInput {
        tables: &tables,
        rows: &rows,
        edges: &edges,
        edge_rows: &edge_rows,
        filters: &filters,
    };
    let mut governor = ResourceGovernor::unlimited();
    assert!(build_persisted_candidate(&input, &mut governor, &options(), 0).is_err());
}

#[test]
fn edges_are_queried_in_a_stable_order() {
    let tables = vec![table()];
    let edge = relationship();
    assert_eq!(find_table(&tables, 42), Some(0));
    assert_eq!(find_table(&tables, 43), None);
    let query = edge_query(&edge, Some(&tables[0]), "\"public\".\"links\"");
    assert!(query.contains("\"w\""));
    assert!(query.contains("ORDER BY"));
}

#[test]
fn a_build_without_memory_is_refused_and_keeps_nothing() {
    let (tables, rows, edges, edge_rows, filters) =
        (vec![table()], rows(), vec![relationship()], edge_rows(1), filters());
    let input = DirectBuildInput {
        tables: &tables,
        rows: &rows,
        edges: &edges,
        edge_rows: &edge_rows,
        filters: &filters,
    };
    let mut governor = ResourceGovernor::new(ResourceLimits::memory_only(3));
    assert!(matches!(
        build_persisted_candidate(&input, &mut governor, &options(), 0),
        Err(GraphError::ResourceLimit { .. })
    ));
    assert_eq!(governor.memory_used(), 0);
}

#[test]
fn an_artifact_does_not_depend_on_the_batch_size() {
    let (tables, rows, edges, edge_rows, filters) =
        (vec![table()], rows(), vec![relationship()], edge_rows(1), filters());
    let input = DirectBuildInput {
        tables: &tables,
        rows: &rows,
        edges: &edges,
        edge_rows: &edge_rows,
        filters: &filters,
    };
    let built = |options: DirectBuildOptions| {
        build_persisted_candidate(&input, &mut ResourceGovernor::unlimited(), &options, 0)
            .unwrap()
            .0
            .sections
    };
    let whole = built(options());
    assert_eq!(built(DirectBuildOptions { batch_size: 1, ..options() }), whole);
    assert_eq!(built(DirectBuildOptions { merge_fanout: 2, ..options() }), whole);
}

fn number(bytes: &[u8], at: usize) -> u32 {
    u32::from_le_bytes(bytes[4 * at..4 * at + 4].try_into().unwrap())
}

fn end(bytes: &[u8], at: usize) -> usize {
    u64::from_le_bytes(bytes[at..at + 8].try_into().unwrap()) as usize
}

#[test]
fn written_edges_identities_labels_and_tenants_read_back() {
    let tables = vec![RegisteredTable { tenant_column: Some("t".to_string()), ..table() }];
    let rows: Vec<Vec<SourceRow>> = vec![["a", "b", "c"]
        .iter()
        .map(|key| SourceRow {
            primary_key: Some(key.to_string()),
            filters: vec![],
            tenant: if *key == "b" { None } else { Some("acme".to_string()) },
        })
        .collect()];
    let edges = vec![relationship()];
    let row = |source, target, key: &str, weight| EdgeRow {
        source: Some(source),
        target: Some(target),
        source_key: Some(key.to_string()),
        weight: Some(weight),
        label: None,
    };
    let edge_rows = vec![vec![row(2, 0, "k2", 9), row(0, 1, "key1", 3)]];
    let filters = vec![];
    let input = DirectBuildInput {
        tables: &tables,
        rows: &rows,
        edges: &edges,
        edge_rows: &edge_rows,
        filters: &filters,
    };
    let (artifact, _) = build_persisted_candidate(
        &input,
        &mut ResourceGovernor::unlimited(),
        &options(),
        0,
    )
    .unwrap();
    let sections = &artifact.sections;
    let identity = |id: usize| {
        let (descriptors, keys) = (&sections[21], &sections[22]);
        (
            u64::from_le_bytes(descriptors[16 * id..16 * id + 8].try_into().unwrap()),
            keys[end(descriptors, 16 * id - 8)..end(descriptors, 16 * id + 8)].to_vec(),
        )
    };
    let mut forward = Vec::new();
    let mut inbound = Vec::new();
    for (start, list) in [(4usize, &mut forward), (10, &mut inbound)] {
        for node in 0..3 {
            let offsets = &sections[start];
            for at in number(offsets, node) as usize..number(offsets, node + 1) as usize {
                let weight =
                    if sections[start + 4].is_empty() { 0 } else { number(&sections[start + 4], at) };
                list.push((
                    node as u32,
                    number(&sections[start + 1], at),
                    sections[start + 2][at],
                    weight,
                    identity(number(&sections[start + 5], at) as usize),
                ));
            }
        }
    }
    assert_eq!(
        forward,
        vec![(0, 1, 1, 3, (5, b"key1".to_vec())), (2, 0, 1, 9, (5, b"k2".to_vec()))]
    );
    assert_eq!(inbound.len(), 2);
    assert_eq!((inbound[0].0, inbound[0].1), (0, 2));
    assert_eq!((inbound[1].0, inbound[1].1), (1, 0));

    let counted = |bytes: &[u8]| {
        let count = number(bytes, 0) as usize;
        let strings = &bytes[4 + 8 * (count + 1)..];
        (0..count)
            .map(|at| {
                String::from_utf8(
                    strings[end(bytes, 4 + 8 * at)..end(bytes, 12 + 8 * at)].to_vec(),
                )
                .unwrap()
            })
            .collect::<Vec<_>>()
    };
    assert_eq!(counted(&sections[20]), vec!["".to_string(), "KNOWS".to_string()]);
    assert_eq!(number(&sections[23], 0), 42);
    assert_eq!(counted(&sections[24]), vec!["acme".to_string()]);
    assert_eq!(
        (0..3).map(|node| number(&sections[25], node)).collect::<Vec<_>>(),
        vec![1, 0, 1]
    );
}
