//! Codecs and scans of source rows.
use pggraph::direct_filters::RegisteredFilterColumn;
use pggraph::direct_nodes::encode_node_record;
use pggraph::node_lookup::node_lookups;
use pggraph::resolution::ENTRY_SIZE;
use pggraph::resource::{ResourceGovernor, ResourceLimits};
use pggraph::run_records::{RunRecord, StagedRun};
use pggraph::scan_codec::{
    encode_dictionary_record, encode_filter_record, encode_resolution_record,
    encode_tenant_dictionary_record, hash_pk, parse_uuid, ScannedFilterValue,
};
use pggraph::scan_rows::{SourceCell, SourceRow};
use pggraph::scan_sources::scan_persisted_sources;
use pggraph::scan_sql::{
    filter_select_expr, quote_ident, source_query, PrimaryKeySpec, RegisteredTable,
};

#[test]
fn node_codec_carries_index_oid_and_primary_key() {
    let record = encode_node_record(7, 42, "tenant:node").expect("record encodes");
    assert_eq!(record.key, 7_u32.to_be_bytes());
    assert_eq!(&record.value[0..4], &7_u32.to_le_bytes());
    assert_eq!(&record.value[4..8], &42_u32.to_le_bytes());
    assert_eq!(&record.value[8..12], &11_u32.to_le_bytes());
    assert_eq!(&record.value[12..], b"tenant:node");
}

#[test]
fn resolution_keys_sort_by_oid_hash_then_node() {
    let first = encode_resolution_record(9, 5, "A");
    let later_node = encode_resolution_record(10, 5, "A");
    let later_table = encode_resolution_record(0, 6, "A");
    assert!(first.key < later_node.key);
    assert!(later_node.key < later_table.key);
    assert_eq!(first.value.len(), ENTRY_SIZE);
}

#[test]
fn filter_keys_sort_numerically_not_by_native_endianness() {
    let low =
        encode_filter_record(2, 255, &ScannedFilterValue::Boolean(true)).expect("low record");
    let high =
        encode_filter_record(2, 256, &ScannedFilterValue::Boolean(false)).expect("high record");
    assert!(low.key < high.key);
    assert_eq!(low.value, vec![2, 1]);
    assert_eq!(high.value, vec![2, 0]);
}

#[test]
fn text_and_tenant_dictionary_keys_are_lexical_with_stable_ties() {
    let alpha = encode_tenant_dictionary_record("alpha", 9);
    let beta = encode_tenant_dictionary_record("beta", 0);
    let alpha_later = encode_tenant_dictionary_record("alpha", 10);
    assert!(alpha.key < alpha_later.key);
    assert!(alpha_later.key < beta.key);

    let text = encode_dictionary_record(3, "zeta", 8);
    assert_eq!(&text.key[..4], &[0, 0, 0, 3]);
    assert_eq!(text.value, b"zeta");
}

#[test]
fn uuid_codec_accepts_canonical_form_and_rejects_invalid_text() {
    assert_eq!(
        parse_uuid("550e8400-e29b-41d4-a716-446655440000").expect("UUID"),
        0x550e8400e29b41d4a716446655440000
    );
    assert!(parse_uuid("not-a-uuid").is_err());
}

#[test]
fn key_hashes_are_those_of_xxh3() {
    assert_eq!(hash_pk("tenant:node"), xxhash_rust::xxh3::xxh3_64(b"tenant:node"));
    assert_ne!(hash_pk("a"), hash_pk("b"));
}

#[test]
fn identifiers_are_quoted() {
    assert_eq!(quote_ident("plain"), "\"plain\"");
    assert_eq!(quote_ident("a\"b"), "\"a\"\"b\"");
}

fn records(run: &Option<StagedRun>) -> &Vec<RunRecord> {
    run.as_ref().expect("a run").records()
}

#[test]
fn sources_become_normal_runs() {
    let tables = vec![RegisteredTable {
        table_oid: 42,
        id_columns: PrimaryKeySpec { columns: vec!["id".to_string()] },
        tenant_column: Some("tenant".to_string()),
    }];
    let filters = vec![RegisteredFilterColumn {
        table_oid: 42,
        table_name: "nodes".to_string(),
        column_name: "color".to_string(),
        column_type: "text".to_string(),
    }];
    assert!(source_query(&tables[0], &filters, "\"public\".\"nodes\"").contains("\"color\""));
    let row = |key: &str, tenant: &str, color: &str| SourceRow {
        primary_key: Some(key.to_string()),
        tenant: Some(tenant.to_string()),
        filters: vec![SourceCell::Text(color.to_string())],
    };
    let rows = vec![vec![row("a", "beta", "red"), row("b", "acme", "blue")]];
    let mut governor = ResourceGovernor::new(ResourceLimits::memory_only(1 << 20));
    let runs =
        scan_persisted_sources(&tables, &rows, &vec![], &filters, &mut governor, 16, 256, 8)
            .unwrap();
    assert_eq!(runs.node_count, 2);
    assert_eq!(runs.tenanted_table_oids, vec![42]);
    assert_eq!(records(&runs.nodes).len(), 2);
    assert_eq!(records(&runs.resolution).len(), 2);
    // Tokens follow the lexical order of the texts.
    assert_eq!(records(&runs.filters)[0].value, vec![3, 1, 0, 0, 0]);
    assert_eq!(records(&runs.filters)[1].value, vec![3, 0, 0, 0, 0]);
    assert_eq!(records(&runs.filter_dictionary)[0].value, b"blue".to_vec());
    assert_eq!(records(&runs.tenant_dictionary)[0].value, b"acme".to_vec());
    // The list of tenanted tables stays reserved.
    assert_eq!(governor.memory_used(), 4);
}

#[test]
fn a_row_without_a_key_is_passed_over() {
    let tables = vec![RegisteredTable {
        table_oid: 42,
        id_columns: PrimaryKeySpec { columns: vec!["id".to_string()] },
        tenant_column: None,
    }];
    let rows = vec![vec![
        SourceRow { primary_key: None, tenant: None, filters: vec![] },
        SourceRow { primary_key: Some("a".to_string()), tenant: None, filters: vec![] },
    ]];
    let mut governor = ResourceGovernor::unlimited();
    let runs =
        scan_persisted_sources(&tables, &rows, &vec![], &vec![], &mut governor, 16, 256, 8)
            .unwrap();
    assert_eq!(runs.node_count, 1);
    assert!(runs.tenant_dictionary.is_none());
}

#[test]
fn filter_columns_are_read_in_their_domain() {
    let expression = |column_type: &str| {
        filter_select_expr(&RegisteredFilterColumn {
            table_oid: 42,
            table_name: "nodes".to_string(),
            column_name: "c".to_string(),
            column_type: column_type.to_string(),
        })
    };
    assert_eq!(expression("date"), "((\"c\")::date - DATE '1970-01-01')::bigint");
    assert_eq!(
        expression("timestamptz"),
        "(EXTRACT(EPOCH FROM (\"c\")::timestamptz) * 1000000)::bigint"
    );
    assert_eq!(expression("Boolean"), "(\"c\")::boolean");
    assert_eq!(expression("uuid"), "(\"c\")::text");
    assert_eq!(expression("numeric"), "(\"c\")::bigint");
}

#[test]
fn runs_do_not_depend_on_the_batch_size() {
    let tables = vec![RegisteredTable {
        table_oid: 42,
        id_columns: PrimaryKeySpec { columns: vec!["id".to_string()] },
        tenant_column: Some("tenant".to_string()),
    }];
    let filters = vec![RegisteredFilterColumn {
        table_oid: 42,
        table_name: "nodes".to_string(),
        column_name: "color".to_string(),
        column_type: "text".to_string(),
    }];
    let rows: Vec<Vec<SourceRow>> = vec![(0..9)
        .map(|at| SourceRow {
            primary_key: Some(format!("key-{at}")),
            tenant: Some(format!("tenant-{}", at % 3)),
            filters: vec![SourceCell::Text(format!("color-{}", (7 * at) % 4))],
        })
        .collect()];
    let scanned = |batch_size, merge_fanout| {
        let mut governor = ResourceGovernor::unlimited();
        let runs = scan_persisted_sources(
            &tables,
            &rows,
            &vec![],
            &filters,
            &mut governor,
            batch_size,
            256,
            merge_fanout,
        )
        .unwrap();
        let lists: Vec<Vec<(Vec<u8>, Vec<u8>)>> = [
            &runs.nodes,
            &runs.resolution,
            &runs.filters,
            &runs.filter_dictionary,
            &runs.tenant_tokens,
            &runs.tenant_dictionary,
        ]
        .into_iter()
        .map(|run| {
            records(run)
                .iter()
                .map(|record| (record.key.clone(), record.value.clone()))
                .collect()
        })
        .collect();
        (runs.node_count, runs.tenanted_table_oids.clone(), lists)
    };
    let whole = scanned(100, 8);
    for (batch_size, merge_fanout) in [(1, 2), (2, 3), (4, 2), (9, 16)] {
        assert_eq!(scanned(batch_size, merge_fanout), whole);
    }
}

#[test]
fn nodes_are_looked_up_under_table_and_key() {
    let table = |table_oid| RegisteredTable {
        table_oid,
        id_columns: PrimaryKeySpec { columns: vec!["id".to_string()] },
        tenant_column: None,
    };
    let row = |key: Option<&str>| SourceRow {
        primary_key: key.map(str::to_string),
        tenant: None,
        filters: vec![],
    };
    let rows = vec![vec![row(Some("a")), row(None), row(Some("b"))], vec![], vec![row(Some("a"))]];
    let lookups = node_lookups(&vec![table(7), table(8), table(9)], &rows).unwrap();
    let listed: Vec<(u32, &str, u32)> = lookups
        .iter()
        .map(|lookup| (lookup.table_oid, lookup.primary_key.as_str(), lookup.node_idx))
        .collect();
    assert_eq!(listed, vec![(7, "a", 0), (7, "b", 1), (9, "a", 2)]);
}

#[test]
fn rows_without_keys_do_not_change_the_runs() {
    let tables = vec![RegisteredTable {
        table_oid: 42,
        id_columns: PrimaryKeySpec { columns: vec!["id".to_string()] },
        tenant_column: None,
    }];
    let row = |key: Option<&str>| SourceRow {
        primary_key: key.map(str::to_string),
        tenant: None,
        filters: vec![],
    };
    let scanned = |rows: Vec<SourceRow>| {
        let mut governor = ResourceGovernor::unlimited();
        let runs = scan_persisted_sources(
            &tables,
            &vec![rows],
            &vec![],
            &vec![],
            &mut governor,
            2,
            256,
            2,
        )
        .unwrap();
        [&runs.nodes, &runs.resolution]
            .into_iter()
            .flat_map(|run| records(run).iter())
            .map(|record| (record.key.clone(), record.value.clone()))
            .collect::<Vec<_>>()
    };
    // Fetched in order of their keys, the same rows give the same runs.
    let plain = scanned(vec![row(Some("a")), row(Some("b")), row(Some("c"))]);
    assert_eq!(plain.len(), 6);
    let mixed = vec![row(None), row(Some("a")), row(Some("b")), row(None), row(Some("c"))];
    assert_eq!(scanned(mixed), plain);
}
