//! Filter columns: registration, typed predicates, and what is persisted.
use pggraph::errors::{GraphError, GraphResult};
use pggraph::filter_catalog::{
    parse_storage_kind, FILTER_CATALOG_HEADER_SIZE, FILTER_DESCRIPTOR_SIZE,
};
use pggraph::filter_index::FilterIndex;
use pggraph::filter_storage::{FilterColumnStorage, FilterStorageKind};
use pggraph::filter_value::{
    EncodedFilterValue, FilterColumnType, FilterCondition, FilterOp, PersistedFilterValue,
    UnsignedFilterOp,
};
use pggraph::mapped_bytes::MappedBytes;

const SPARSE_LOOKUP_TAG: u8 = 2;

fn mapped_text_fixture(dictionary_values: &[&str]) -> GraphResult<FilterIndex> {
    let mut dictionary = vec![0u8; (dictionary_values.len() + 1) * 8];
    let mut string_bytes = Vec::new();
    for (idx, value) in dictionary_values.iter().enumerate() {
        string_bytes.extend_from_slice(value.as_bytes());
        dictionary[(idx + 1) * 8..(idx + 2) * 8]
            .copy_from_slice(&(string_bytes.len() as u64).to_le_bytes());
    }
    dictionary.extend_from_slice(&string_bytes);
    let mut data = Vec::new();
    data.extend_from_slice(&2u32.to_le_bytes());
    data.extend_from_slice(&1u32.to_le_bytes());
    let name = b"status";
    let mut catalog = vec![0u8; FILTER_CATALOG_HEADER_SIZE + FILTER_DESCRIPTOR_SIZE];
    catalog[0..4].copy_from_slice(&1u32.to_le_bytes());
    catalog[4..8].copy_from_slice(&(FILTER_DESCRIPTOR_SIZE as u32).to_le_bytes());
    catalog[8..16].copy_from_slice(&(name.len() as u64).to_le_bytes());
    let descriptor = &mut catalog[16..80];
    descriptor[0..4].copy_from_slice(&100u32.to_le_bytes());
    descriptor[4] = FilterColumnType::Text.persisted_tag();
    descriptor[5] = SPARSE_LOOKUP_TAG;
    descriptor[6] = 4;
    descriptor[16..20].copy_from_slice(&(name.len() as u32).to_le_bytes());
    descriptor[20..24].copy_from_slice(&1u32.to_le_bytes());
    descriptor[32..40].copy_from_slice(&(data.len() as u64).to_le_bytes());
    descriptor[48..56].copy_from_slice(&(dictionary.len() as u64).to_le_bytes());
    descriptor[56..60].copy_from_slice(&(dictionary_values.len() as u32).to_le_bytes());
    catalog.extend_from_slice(name);
    let catalog_range = 0..catalog.len();
    let data_range = catalog_range.end..catalog_range.end + data.len();
    let dictionary_range = data_range.end..data_range.end + dictionary.len();
    let mut bytes = catalog;
    bytes.extend_from_slice(&data);
    bytes.extend_from_slice(&dictionary);
    FilterIndex::from_mapped_sections(
        MappedBytes::from_bytes(bytes),
        catalog_range,
        data_range,
        dictionary_range,
        4,
    )
}

#[test]
fn mapped_text_base_uses_lexical_dictionary_without_heap_materialization() {
    let index = mapped_text_fixture(&["closed", "open"]).expect("mapped filter fixture");

    assert_eq!(index.lookup_text_value(0, "closed"), Some(0));
    assert_eq!(index.lookup_text_value(0, "open"), Some(1));
    assert_eq!(index.text_value(0, 1), Some("open"));
    assert!(index.check_filter(2, &FilterOp::new(0, FilterCondition::EqToken(1))));
    assert!(index.check_filter(1, &FilterOp::new(0, FilterCondition::IsNull)));
}

#[test]
fn mapped_filter_delta_overrides_null_and_clones_without_sharing_mutation() {
    let mut index = mapped_text_fixture(&["closed", "open"]).expect("mapped filter fixture");
    let pending = index.intern_text_value(0, "pending").unwrap();
    index.set_encoded_value(0, 2, None);
    index.set_encoded_value(0, 3, Some(EncodedFilterValue::Text(pending)));
    let mut clone = index.clone();
    clone.set_encoded_value(0, 3, None);

    assert_eq!(pending, 2);
    assert!(index.check_filter(2, &FilterOp::new(0, FilterCondition::IsNull)));
    assert!(index.check_filter(3, &FilterOp::new(0, FilterCondition::EqToken(2))));
    assert!(clone.check_filter(3, &FilterOp::new(0, FilterCondition::IsNull)));
}

#[test]
fn mapped_filter_rejects_nonlexical_dictionary() {
    assert!(matches!(
        mapped_text_fixture(&["open", "closed"]),
        Err(GraphError::CorruptFile { .. })
    ));
}

#[test]
fn register_and_set_values() {
    let mut fi = FilterIndex::new();
    let col = fi.register_column(100, "amount".to_string(), 5);
    fi.set_value(col, 0, 5000);
    fi.set_value(col, 2, 15000);

    assert_eq!(fi.get_value(col, 0), 5000);
    assert_eq!(fi.get_value(col, 1), 0); // default
    assert_eq!(fi.get_value(col, 2), 15000);
}

#[test]
fn u32_max_boundary_values() {
    let mut fi = FilterIndex::new();
    fi.register_column(100, "score".to_string(), 2);
    fi.set_value(0, 0, u32::MAX);
    fi.set_value(0, 1, 0);

    let op = UnsignedFilterOp::Gte(0, u32::MAX);
    assert!(op.check(fi.get_value(0, 0))); // u32::MAX >= u32::MAX
    assert!(!op.check(fi.get_value(0, 1))); // 0 >= u32::MAX

    let op = UnsignedFilterOp::Lte(0, 0);
    assert!(!op.check(fi.get_value(0, 0))); // u32::MAX <= 0
    assert!(op.check(fi.get_value(0, 1))); // 0 <= 0
}

#[test]
fn find_column_returns_none_for_unregistered() {
    let fi = FilterIndex::new();
    assert!(fi.find_first_column_by_name("nonexistent").is_none());
}

#[test]
fn table_qualified_lookup_keeps_same_named_columns_distinct() {
    let mut index = FilterIndex::new();
    let users_status = index.register_column(101, "status".to_string(), 2);
    let companies_status = index.register_column(202, "status".to_string(), 2);

    assert_eq!(
        index.find_column_for_table(101, "status"),
        Some(users_status)
    );
    assert_eq!(
        index.find_column_for_table(202, "status"),
        Some(companies_status)
    );
}

#[test]
fn column_count_reflects_registrations() {
    let mut fi = FilterIndex::new();
    assert_eq!(fi.column_count(), 0);
    fi.register_column(100, "a".to_string(), 1);
    fi.register_column(100, "b".to_string(), 1);
    assert_eq!(fi.column_count(), 2);
}

#[test]
fn sparse_boolean_filters_preserve_null_semantics() {
    let mut fi = FilterIndex::new();
    let col = fi.register_typed_column_with_populated_count(
        100,
        "active".to_string(),
        FilterColumnType::Boolean,
        100,
        2,
    );
    fi.set_encoded_value(col, 3, Some(EncodedFilterValue::Boolean(true)));
    fi.set_encoded_value(col, 7, Some(EncodedFilterValue::Boolean(false)));

    assert_eq!(fi.storage_kind(col), Some(FilterStorageKind::SparseBool));
    assert!(fi.check_filter(3, &FilterOp::new(col, FilterCondition::EqBool(true))));
    assert!(fi.check_filter(7, &FilterOp::new(col, FilterCondition::NeqBool(true))));
    assert!(!fi.check_filter(9, &FilterOp::new(col, FilterCondition::NeqBool(true))));
    assert!(fi.check_filter(9, &FilterOp::new(col, FilterCondition::IsNull)));
    assert!(fi.check_filter(3, &FilterOp::new(col, FilterCondition::IsNotNull)));
}

#[test]
fn sparse_text_filters_do_not_treat_missing_as_neq() {
    let mut fi = FilterIndex::new();
    let col = fi.register_typed_column_with_populated_count(
        100,
        "status".to_string(),
        FilterColumnType::Text,
        100,
        2,
    );
    let open = fi.intern_text_value(col, "open").unwrap();
    let closed = fi.intern_text_value(col, "closed").unwrap();
    fi.set_encoded_value(col, 1, Some(EncodedFilterValue::Text(open)));
    fi.set_encoded_value(col, 2, Some(EncodedFilterValue::Text(closed)));

    assert_eq!(fi.storage_kind(col), Some(FilterStorageKind::SparseLookup));
    assert!(fi.check_filter(1, &FilterOp::new(col, FilterCondition::EqToken(open))));
    assert!(fi.check_filter(2, &FilterOp::new(col, FilterCondition::NeqToken(open))));
    assert!(fi.check_filter(
        1,
        &FilterOp::new(col, FilterCondition::ContainsToken("pe".to_string()))
    ));
    assert!(fi.check_filter(
        2,
        &FilterOp::new(col, FilterCondition::PrefixToken("cl".to_string()))
    ));
    assert!(!fi.check_filter(9, &FilterOp::new(col, FilterCondition::NeqToken(open))));
    assert!(fi.check_filter(9, &FilterOp::new(col, FilterCondition::IsNull)));
}

#[test]
fn sparse_numeric_filters_use_sorted_binary_lookup() {
    let mut fi = FilterIndex::new();
    let col = fi.register_typed_column_with_populated_count(
        100,
        "amount".to_string(),
        FilterColumnType::Numeric,
        100,
        3,
    );
    fi.set_encoded_value(col, 20, Some(EncodedFilterValue::Numeric(50)));
    fi.set_encoded_value(col, 3, Some(EncodedFilterValue::Numeric(10)));
    fi.set_encoded_value(col, 9, Some(EncodedFilterValue::Numeric(30)));

    assert_eq!(fi.storage_kind(col), Some(FilterStorageKind::SparseOrdered));
    assert!(fi.check_filter(9, &FilterOp::new(col, FilterCondition::GtI64(20))));
    assert!(fi.check_filter(3, &FilterOp::new(col, FilterCondition::BetweenI64(10, 30))));
    assert!(!fi.check_filter(99, &FilterOp::new(col, FilterCondition::GtI64(0))));
    assert!(fi.check_filter(99, &FilterOp::new(col, FilterCondition::IsNull)));
}

#[test]
fn sparsity_heuristic_switches_at_fifteen_percent() {
    let mut fi = FilterIndex::new();
    let sparse = fi.register_typed_column_with_populated_count(
        100,
        "sparse".to_string(),
        FilterColumnType::Numeric,
        100,
        14,
    );
    let dense = fi.register_typed_column_with_populated_count(
        100,
        "dense".to_string(),
        FilterColumnType::Numeric,
        100,
        15,
    );

    assert_eq!(
        fi.storage_kind(sparse),
        Some(FilterStorageKind::SparseOrdered)
    );
    assert_eq!(fi.storage_kind(dense), Some(FilterStorageKind::Dense));
}

#[test]
fn dense_numeric_filters_keep_indexed_loads() {
    let mut fi = FilterIndex::new();
    let col = fi.register_typed_column_with_populated_count(
        100,
        "score".to_string(),
        FilterColumnType::Numeric,
        10,
        10,
    );
    fi.set_encoded_value(col, 4, Some(EncodedFilterValue::Numeric(42)));

    assert_eq!(fi.storage_kind(col), Some(FilterStorageKind::Dense));
    assert_eq!(fi.get_value(col, 4), 42);
    assert!(fi.check_filter(4, &FilterOp::new(col, FilterCondition::EqI64(42))));
}

#[test]
fn transaction_filter_update_overrides_base_value() {
    let mut fi = FilterIndex::new();
    let col = fi.register_typed_column(100, "score".to_string(), FilterColumnType::Numeric, 10);
    fi.set_encoded_value(col, 4, Some(EncodedFilterValue::Numeric(42)));
    let update = Some(Some(EncodedFilterValue::Numeric(101)));

    assert!(fi.check_filter_with_update(
        4,
        &FilterOp::new(col, FilterCondition::GtI64(100)),
        update
    ));
    assert!(!fi.check_filter_with_update(
        4,
        &FilterOp::new(col, FilterCondition::EqI64(42)),
        update
    ));
}

#[test]
fn persisted_filter_values_restore_exact_backend_local_encodings() {
    let mut index = FilterIndex::new();
    let cases = [
        (
            FilterColumnType::Numeric,
            PersistedFilterValue::Numeric(i64::MIN + 1),
            EncodedFilterValue::Numeric(i64::MIN + 1),
        ),
        (
            FilterColumnType::Boolean,
            PersistedFilterValue::Boolean(true),
            EncodedFilterValue::Boolean(true),
        ),
        (
            FilterColumnType::Date,
            PersistedFilterValue::Date(-20_000),
            EncodedFilterValue::Date(-20_000),
        ),
        (
            FilterColumnType::Timestamptz,
            PersistedFilterValue::Timestamptz(4_102_444_800_123_456),
            EncodedFilterValue::Timestamptz(4_102_444_800_123_456),
        ),
        (
            FilterColumnType::Uuid,
            PersistedFilterValue::Uuid(0x1234_5678_90ab_cdef_1234_5678_90ab_cdef),
            EncodedFilterValue::Uuid(0x1234_5678_90ab_cdef_1234_5678_90ab_cdef),
        ),
    ];
    for (idx, (column_type, persisted, expected)) in cases.into_iter().enumerate() {
        let column = index.register_typed_column(100, format!("column_{idx}"), column_type, 1);
        index
            .apply_persisted_value(column, 0, 1, &persisted, false)
            .expect("persisted value applies");
        assert_eq!(index.persistent_value(column, 0), Some(expected));
    }

    let text_column =
        index.register_typed_column(100, "text".into(), FilterColumnType::Text, 1);
    index
        .apply_persisted_value(
            text_column,
            0,
            1,
            &PersistedFilterValue::Text("durable 🧪 filter".into()),
            false,
        )
        .expect("persisted text applies");
    let token = index
        .lookup_text_value(text_column, "durable 🧪 filter")
        .expect("text is interned in the restored backend");
    assert_eq!(
        index.persistent_value(text_column, 0),
        Some(EncodedFilterValue::Text(token))
    );

    index
        .apply_persisted_value(text_column, 0, 1, &PersistedFilterValue::Null, false)
        .expect("persisted null applies");
    assert_eq!(index.persistent_value(text_column, 0), None);
}

#[test]
fn persisted_filter_value_rejects_registered_type_mismatch() {
    let mut index = FilterIndex::new();
    let column = index.register_typed_column(100, "score".into(), FilterColumnType::Numeric, 1);

    let err = index
        .apply_persisted_value(column, 0, 1, &PersistedFilterValue::Uuid(1), false)
        .expect_err("mismatched durable type must be rejected");

    assert!(matches!(err, GraphError::CorruptFile { .. }));
}

#[test]
fn persisted_filter_value_rejects_out_of_range_dense_and_sparse_nodes() {
    let mut index = FilterIndex::new();
    let dense = index.register_typed_column_with_populated_count(
        100,
        "dense".into(),
        FilterColumnType::Numeric,
        1,
        1,
    );
    let sparse = index.register_typed_column_with_populated_count(
        100,
        "sparse".into(),
        FilterColumnType::Numeric,
        1,
        0,
    );

    for column in [dense, sparse] {
        let err = index
            .apply_persisted_value(column, 1, 1, &PersistedFilterValue::Numeric(42), false)
            .expect_err("out-of-range persisted node must be rejected");
        assert!(matches!(err, GraphError::CorruptFile { .. }));
    }
}

#[test]
fn malformed_persisted_text_dictionary_fails_closed() {
    let mut index = FilterIndex::new();
    let column = index.register_typed_column(100, "text".into(), FilterColumnType::Text, 1);
    index.text_dictionaries.pop();

    assert!(matches!(
        index.validate_persisted_layout(1),
        Err(GraphError::CorruptFile { .. })
    ));
    assert!(matches!(
        index.apply_persisted_value(
            column,
            0,
            1,
            &PersistedFilterValue::Text("value".into()),
            false,
        ),
        Err(GraphError::CorruptFile { .. })
    ));
}

#[test]
fn encoded_sections_load_back() {
    let mut index = FilterIndex::new();
    let score = index.register_typed_column(7, "score".into(), FilterColumnType::Numeric, 3);
    let label = index.register_typed_column_with_populated_count(
        7,
        "label".into(),
        FilterColumnType::Text,
        3,
        0,
    );
    index.set_encoded_value(score, 0, Some(EncodedFilterValue::Numeric(-5)));
    index.set_encoded_value(score, 2, Some(EncodedFilterValue::Numeric(9)));
    let zulu = index.intern_text_value(label, "zulu").unwrap();
    let alpha = index.intern_text_value(label, "alpha").unwrap();
    index.set_encoded_value(label, 0, Some(EncodedFilterValue::Text(zulu)));
    index.set_encoded_value(label, 1, Some(EncodedFilterValue::Text(alpha)));

    let (catalog, data, dictionaries) = index.encode_v5_sections(3).unwrap();
    let bounds = index.v5_section_size_upper_bounds(3).unwrap();
    assert!(catalog.len() <= bounds.0);
    assert!(data.len() <= bounds.1);
    assert!(dictionaries.len() <= bounds.2);
    assert!(index.v5_encoding_workspace_upper_bound(3).unwrap() > 0);
    assert!(FilterIndex::mapped_load_metadata_upper_bound(&catalog).unwrap() > 0);

    let catalog_range = 0..catalog.len();
    let data_range = catalog_range.end..catalog_range.end + data.len();
    let dictionary_range = data_range.end..data_range.end + dictionaries.len();
    let mut bytes = catalog;
    bytes.extend_from_slice(&data);
    bytes.extend_from_slice(&dictionaries);
    let loaded = FilterIndex::from_mapped_sections(
        MappedBytes::from_bytes(bytes),
        catalog_range,
        data_range,
        dictionary_range,
        3,
    )
    .unwrap();

    assert_eq!(loaded.column_count(), 2);
    assert_eq!(loaded.column(score).column_name, "score");
    assert_eq!(loaded.persistent_value(score, 0), Some(EncodedFilterValue::Numeric(-5)));
    assert_eq!(loaded.persistent_value(score, 1), None);
    assert_eq!(loaded.persistent_value(score, 2), Some(EncodedFilterValue::Numeric(9)));
    assert_eq!(loaded.lookup_text_value(label, "alpha"), Some(0));
    assert_eq!(loaded.lookup_text_value(label, "zulu"), Some(1));
    assert_eq!(loaded.persistent_value(label, 0), Some(EncodedFilterValue::Text(1)));
    assert_eq!(loaded.persistent_value(label, 1), Some(EncodedFilterValue::Text(0)));
    assert_eq!(loaded.text_value(label, 0), Some("alpha"));
}

#[test]
fn every_filter_must_hold() {
    let mut index = FilterIndex::new();
    let column = index.register_typed_column(1, "n".into(), FilterColumnType::Numeric, 2);
    index.set_encoded_value(column, 0, Some(EncodedFilterValue::Numeric(10)));
    let ops = [
        FilterOp::new(column, FilterCondition::GtI64(5)),
        FilterOp::new(column, FilterCondition::LtI64(10)),
    ];
    assert!(index.check_filters(0, &ops[..1]));
    assert!(!index.check_filters(0, &ops));
    assert!(index.check_filters(1, &[]));
}

#[test]
fn unknown_storage_tags_are_corrupt() {
    assert_eq!(parse_storage_kind(3).unwrap(), FilterStorageKind::SparseOrdered);
    match parse_storage_kind(9) {
        Err(GraphError::CorruptFile { reason }) => {
            assert_eq!(reason, "unknown filter storage kind 9")
        }
        other => panic!("expected corruption, got {:?}", other),
    }
}

#[test]
fn column_type_names_parse() {
    assert_eq!(FilterColumnType::parse("numeric"), Ok(FilterColumnType::Numeric));
    assert_eq!(FilterColumnType::parse(" UUID "), Ok(FilterColumnType::Uuid));
    assert!(FilterColumnType::parse("blob").is_err());
}

#[test]
fn a_filter_index_counts_what_it_holds() {
    let mut index = FilterIndex::new();
    let empty = index.estimated_heap_bytes();
    index.register_typed_column(1, "n".into(), FilterColumnType::Numeric, 1000);
    assert!(index.estimated_heap_bytes() > empty + 1000);
}

#[test]
fn values_beyond_a_column_are_ignored() {
    let mut index = FilterIndex::new();
    let sparse = index.register_typed_column_with_populated_count(
        1,
        "sparse".into(),
        FilterColumnType::Numeric,
        100,
        1,
    );
    let dense = index.register_typed_column(1, "dense".into(), FilterColumnType::Numeric, 100);
    for column in [sparse, dense] {
        index.set_encoded_value(column, 100, Some(EncodedFilterValue::Numeric(7)));
        assert!(index.check_filter(100, &FilterOp::new(column, FilterCondition::IsNull)));
        assert_eq!(index.get_value(column, 100), 0);
        index.set_encoded_value(column, 99, Some(EncodedFilterValue::Numeric(7)));
        assert_eq!(index.get_value(column, 99), 7);
        assert!(index.validate_persisted_layout(100).is_ok());
    }

    let mut mapped = mapped_text_fixture(&["closed", "open"]).expect("mapped filter fixture");
    mapped.set_encoded_value(0, 4, Some(EncodedFilterValue::Text(1)));
    assert!(mapped.check_filter(4, &FilterOp::new(0, FilterCondition::IsNull)));
    mapped.set_encoded_value(0, 3, Some(EncodedFilterValue::Text(1)));
    assert!(mapped.check_filter(3, &FilterOp::new(0, FilterCondition::EqToken(1))));
}

#[test]
fn equal_values_encode_to_equal_bytes() {
    let encoded = |first: &str, second: &str, populated: usize| {
        let mut index = FilterIndex::new();
        let label = index.register_typed_column_with_populated_count(
            7,
            "label".into(),
            FilterColumnType::Text,
            20,
            populated,
        );
        let score = index.register_typed_column_with_populated_count(
            7,
            "score".into(),
            FilterColumnType::Numeric,
            20,
            populated,
        );
        index.intern_text_value(label, first).unwrap();
        index.intern_text_value(label, second).unwrap();
        index.intern_text_value(label, "unused").unwrap();
        let zulu = index.lookup_text_value(label, "zulu").unwrap();
        let alpha = index.lookup_text_value(label, "alpha").unwrap();
        index.set_encoded_value(label, 3, Some(EncodedFilterValue::Text(zulu)));
        index.set_encoded_value(label, 8, Some(EncodedFilterValue::Text(alpha)));
        index.set_encoded_value(score, 8, Some(EncodedFilterValue::Numeric(-1)));
        index.encode_v5_sections(20).unwrap()
    };
    let sections = encoded("zulu", "alpha", 20);
    assert_eq!(sections, encoded("alpha", "zulu", 20));
    assert_eq!(sections, encoded("zulu", "alpha", 1));
}

#[test]
fn storage_suits_its_column_after_any_values() {
    for (column_type, value) in [
        (FilterColumnType::Numeric, EncodedFilterValue::Numeric(-3)),
        (FilterColumnType::Boolean, EncodedFilterValue::Boolean(true)),
        (FilterColumnType::Date, EncodedFilterValue::Date(9)),
        (FilterColumnType::Text, EncodedFilterValue::Text(2)),
    ] {
        for populated in [1usize, 40] {
            let mut storage = FilterColumnStorage::new_storage(column_type, 40, populated);
            assert!(storage.validate_persisted_layout(column_type, 40).is_ok());
            storage.set(39, Some(value));
            storage.set(4, Some(value));
            storage.set(39, None);
            assert!(storage.validate_persisted_layout(column_type, 40).is_ok());
            assert_eq!(storage.value(4), Some(value));
            assert_eq!(storage.value(39), None);
        }
    }
    let storage = FilterColumnStorage::new_storage(FilterColumnType::Numeric, 40, 40);
    assert!(storage.validate_persisted_layout(FilterColumnType::Numeric, 39).is_err());
}

#[test]
fn projected_values_are_kept_beyond_the_column() {
    let mut index = FilterIndex::new();
    let column = index.register_typed_column_with_populated_count(
        1,
        "n".into(),
        FilterColumnType::Numeric,
        100,
        1,
    );
    index
        .apply_persisted_value(column, 100, 101, &PersistedFilterValue::Numeric(7), false)
        .unwrap();
    assert_eq!(index.get_value(column, 100), 7);
}

#[test]
fn texts_of_a_column_beside_an_artifact_read_back() {
    let mut index = mapped_text_fixture(&["closed", "open"]).expect("mapped filter fixture");
    let column = index.register_typed_column(100, "note".into(), FilterColumnType::Text, 4);
    let first = index.intern_text_value(column, "alpha").unwrap();
    let second = index.intern_text_value(column, "beta").unwrap();
    assert_eq!((first, second), (0, 1));
    assert_eq!(index.intern_text_value(column, "alpha").unwrap(), first);
    assert_eq!(index.text_value(column, first), Some("alpha"));
    assert_eq!(index.text_value(column, second), Some("beta"));
    assert_eq!(index.text_value(column, 2), None);
    assert_eq!(index.text_value(column + 1, 0), None);
    assert_eq!(index.lookup_text_value(column, "beta"), Some(second));
    index.set_encoded_value(column, 1, Some(EncodedFilterValue::Text(second)));
    let holds = |condition| index.check_filter(1, &FilterOp::new(column, condition));
    assert!(holds(FilterCondition::PrefixToken("be".to_string())));
    assert!(holds(FilterCondition::ContainsToken("et".to_string())));
    assert!(!holds(FilterCondition::PrefixToken("al".to_string())));
}
