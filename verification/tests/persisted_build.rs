//! Artifacts that are assembled from staged runs.
use pggraph::direct_filters::RegisteredFilterColumn;
use pggraph::filter_index::FilterIndex;
use pggraph::filter_value::{FilterCondition, FilterOp};
use pggraph::mapped_bytes::MappedBytes;
use pggraph::node_store::{MmapNodeArrayParts, MmapNodeArrays, NodeStore};
use pggraph::persisted_build::{
    write_semantic_artifact, DirectArtifactMetadata, ProjectionMode, SemanticDirectBuild,
    SECTION_COUNT,
};
use pggraph::prepared_artifact::{write_prepared_artifact, DirectBuildArtifact, DirectSection};
use pggraph::resource::{ResourceGovernor, ResourceLimits};
use pggraph::run_records::{RunRecord, StagedRun};
use pggraph::scan_codec::hash_pk;

fn stage(records: Vec<RunRecord>) -> StagedRun {
    StagedRun::from_sorted(records).expect("records are sorted")
}

/// Sections one after the other, each at a multiple of eight.
fn lay_out(sections: &[Vec<u8>]) -> (MappedBytes, Vec<std::ops::Range<usize>>) {
    let mut bytes = Vec::new();
    let mut ranges = Vec::new();
    for section in sections {
        while bytes.len() % 8 != 0 {
            bytes.push(0);
        }
        ranges.push(bytes.len()..bytes.len() + section.len());
        bytes.extend_from_slice(section);
    }
    (MappedBytes::from_bytes(bytes), ranges)
}

fn load_nodes(sections: &[Vec<u8>], node_count: u32) -> NodeStore {
    let (mmap, ranges) = lay_out(&sections[..4]);
    NodeStore::from_mmap(
        MmapNodeArrays::new(MmapNodeArrayParts {
            mmap,
            active_range: ranges[0].clone(),
            oid_range: ranges[1].clone(),
            pk_offsets_range: ranges[2].clone(),
            pk_bytes_range: ranges[3].clone(),
            node_count,
        })
        .expect("node sections are valid"),
    )
}

#[test]
fn writes_minimal_valid_v6_without_owned_engine() {
    let zero_u32 = 0u32.to_le_bytes();
    let zero_u64 = 0u64.to_le_bytes();
    let filter_catalog = [
        zero_u32.as_slice(),
        64u32.to_le_bytes().as_slice(),
        zero_u64.as_slice(),
    ]
    .concat();
    let one_u32 = 1u32.to_le_bytes();
    let registry = [one_u32.as_slice(), zero_u64.as_slice(), zero_u64.as_slice()].concat();
    let identity_zero = [0u8; 16];
    let tenant_dictionary = [zero_u32.as_slice(), zero_u64.as_slice()].concat();
    let resolution_run = stage(vec![RunRecord::new(Vec::new(), zero_u32.to_vec())]);
    let sections = vec![
        DirectSection::Empty,
        DirectSection::Empty,
        DirectSection::Bytes(&zero_u64),
        DirectSection::Empty,
        DirectSection::Run(&resolution_run),
        DirectSection::Empty,
        DirectSection::Empty,
        DirectSection::Empty,
        DirectSection::Empty,
        DirectSection::Empty,
        DirectSection::Bytes(&zero_u32),
        DirectSection::Empty,
        DirectSection::Empty,
        DirectSection::Empty,
        DirectSection::Empty,
        DirectSection::Empty,
        DirectSection::Bytes(&zero_u32),
        DirectSection::Bytes(&filter_catalog),
        DirectSection::Empty,
        DirectSection::Empty,
        DirectSection::Bytes(&registry),
        DirectSection::Bytes(&identity_zero),
        DirectSection::Empty,
        DirectSection::Empty,
        DirectSection::Bytes(&tenant_dictionary),
        DirectSection::Empty,
    ];
    let artifact = DirectBuildArtifact {
        metadata: DirectArtifactMetadata {
            node_count: 0,
            forward_edge_count: 0,
            inbound_edge_count: 0,
            has_forward_weights: false,
            has_inbound_weights: false,
            has_unidirectional_edges: false,
            applied_sync_id: 0,
            projection_mode: ProjectionMode::CsrReadonly,
        },
        sections,
    };

    let written = write_prepared_artifact(&artifact).expect("direct artifact writes");
    assert_eq!(written.sections.len(), SECTION_COUNT);
    assert_eq!(written.sections[4], zero_u32.to_vec());
    assert_eq!(written.section_lengths[17], 16);
    assert_eq!(written.metadata.forward_edge_count, 0);
    assert_eq!(load_nodes(&written.sections, 0).node_count(), 0);
}

#[test]
fn semantic_assembly_streams_nodes_csr_registry_and_identities() {
    let mut governor = ResourceGovernor::new(ResourceLimits::memory_only(256 * 1024));
    let node = |index: u32, key: &str| {
        let mut value = Vec::new();
        value.extend_from_slice(&index.to_le_bytes());
        value.extend_from_slice(&42_u32.to_le_bytes());
        value.extend_from_slice(&(key.len() as u32).to_le_bytes());
        value.extend_from_slice(key.as_bytes());
        RunRecord::new(index.to_be_bytes().to_vec(), value)
    };
    let nodes = stage(vec![node(0, "a"), node(1, "b")]);
    let mut resolution_records = [(0_u32, "a"), (1_u32, "b")]
        .into_iter()
        .map(|(node_idx, key)| {
            let hash = hash_pk(key);
            let mut order = Vec::new();
            order.extend_from_slice(&42_u32.to_be_bytes());
            order.extend_from_slice(&hash.to_be_bytes());
            order.extend_from_slice(&node_idx.to_be_bytes());
            let mut value = Vec::new();
            value.extend_from_slice(&42_u32.to_le_bytes());
            value.extend_from_slice(&hash.to_le_bytes());
            value.extend_from_slice(&node_idx.to_le_bytes());
            RunRecord::new(order, value)
        })
        .collect::<Vec<_>>();
    resolution_records.sort_unstable();
    let resolution = stage(resolution_records);
    let edge = |source: u32, target: u32| {
        let mut key = Vec::new();
        key.extend_from_slice(&source.to_be_bytes());
        key.extend_from_slice(&target.to_be_bytes());
        key.extend_from_slice(&[1, 0]);
        key.extend_from_slice(&1_u32.to_be_bytes());
        let mut value = Vec::new();
        value.extend_from_slice(&target.to_le_bytes());
        value.extend_from_slice(&[1, 0]);
        value.extend_from_slice(&5_u32.to_le_bytes());
        value.extend_from_slice(&1_u32.to_le_bytes());
        RunRecord::new(key, value)
    };
    let forward = stage(vec![edge(0, 1)]);
    let inbound = stage(vec![edge(1, 0)]);
    let mut identity_value = Vec::new();
    identity_value.extend_from_slice(&7_u64.to_le_bytes());
    identity_value.extend_from_slice(&4_u32.to_le_bytes());
    identity_value.extend_from_slice(b"edge");
    let identities = stage(
        vec![RunRecord::new(1_u32.to_be_bytes().to_vec(), identity_value)],
    );
    let filter_record = |ordinal: u32, node_idx: u32, tag: u8, payload: &[u8]| {
        let mut key = Vec::new();
        key.extend_from_slice(&ordinal.to_be_bytes());
        key.extend_from_slice(&node_idx.to_be_bytes());
        let mut value = vec![tag];
        value.extend_from_slice(payload);
        RunRecord::new(key, value)
    };
    let uuid = 0x550e8400e29b41d4a716446655440000_u128;
    let filters = stage(
        vec![
            filter_record(0, 0, 1, &(-7_i64).to_le_bytes()),
            filter_record(1, 0, 2, &[1]),
            filter_record(2, 0, 3, &1_u32.to_le_bytes()),
            filter_record(2, 1, 3, &0_u32.to_le_bytes()),
            filter_record(3, 0, 4, &12_i64.to_le_bytes()),
            filter_record(4, 0, 5, &99_i64.to_le_bytes()),
            filter_record(5, 0, 6, &uuid.to_le_bytes()),
        ],
    );
    let dictionary_record = |token: u32, value: &str| {
        let mut key = Vec::new();
        key.extend_from_slice(&2_u32.to_be_bytes());
        key.extend_from_slice(&token.to_be_bytes());
        RunRecord::new(key, value.as_bytes().to_vec())
    };
    let filter_dictionary = stage(
        vec![dictionary_record(0, "blue"), dictionary_record(1, "red")],
    );
    let mut tenant_key = b"acme\0".to_vec();
    tenant_key.extend_from_slice(&0_u32.to_be_bytes());
    let tenant_dictionary = stage(
        vec![RunRecord::new(tenant_key, b"acme".to_vec())],
    );
    let tenant_tokens = stage(
        vec![RunRecord::new(
            0_u32.to_be_bytes().to_vec(),
            1_u32.to_le_bytes().to_vec(),
        )],
    );
    let filter_columns = [
        ("score", "numeric"),
        ("active", "boolean"),
        ("color", "text"),
        ("day", "date"),
        ("seen", "timestamptz"),
        ("owner", "uuid"),
    ]
    .into_iter()
    .map(|(column_name, column_type)| RegisteredFilterColumn {
        table_oid: 42,
        table_name: "nodes".to_owned(),
        column_name: column_name.to_owned(),
        column_type: column_type.to_owned(),
    })
    .collect::<Vec<_>>();
    let registry = vec![String::new(), "KNOWS".to_owned()];
    let tenanted = vec![42];
    let build = SemanticDirectBuild {
        node_count: 2,
        forward_edge_count: 1,
        inbound_edge_count: 1,
        has_forward_weights: true,
        has_inbound_weights: true,
        has_unidirectional_edges: true,
        applied_sync_id: 13,
        projection_mode: ProjectionMode::CsrReadonly,
        nodes: Some(&nodes),
        forward_edges: Some(&forward),
        inbound_edges: Some(&inbound),
        resolution: Some(&resolution),
        filters: Some(&filters),
        filter_dictionary: Some(&filter_dictionary),
        relationship_identities: Some(&identities),
        tenant_tokens: Some(&tenant_tokens),
        tenant_dictionary: Some(&tenant_dictionary),
        filter_columns: &filter_columns,
        edge_type_registry: &registry,
        tenanted_table_oids: &tenanted,
        max_record_bytes: 256,
    };

    let written = write_semantic_artifact(&build, &mut governor).expect("semantic artifact writes");
    let sections = &written.sections;
    let nodes_loaded = load_nodes(sections, 2);
    assert_eq!(nodes_loaded.primary_key(0), Some("a"));
    assert_eq!(nodes_loaded.primary_key(1), Some("b"));
    assert_eq!(nodes_loaded.table_oid(1), Some(42));
    assert_eq!(sections[4], [0u32, 1, 1].map(u32::to_le_bytes).concat());
    assert_eq!(sections[5], 1u32.to_le_bytes().to_vec());
    assert_eq!(sections[6], vec![1]);
    assert_eq!(sections[10], [0u32, 0, 1].map(u32::to_le_bytes).concat());
    assert_eq!(sections[11], 0u32.to_le_bytes().to_vec());
    assert_eq!(sections[12], vec![1]);
    assert_eq!(sections[8], 5u32.to_le_bytes().to_vec());
    assert_eq!(
        sections[20],
        [
            2u32.to_le_bytes().to_vec(),
            0u64.to_le_bytes().to_vec(),
            0u64.to_le_bytes().to_vec(),
            5u64.to_le_bytes().to_vec(),
            b"KNOWS".to_vec(),
        ]
        .concat()
    );
    assert_eq!(sections[22], b"edge".to_vec());
    assert_eq!(sections[21][16..24], 7u64.to_le_bytes());
    assert!(written.metadata.has_unidirectional_edges);
    assert_eq!(written.metadata.applied_sync_id, 13);
    let (mapped, ranges) = lay_out(&sections[17..20]);
    let filter_index = FilterIndex::from_mapped_sections(
        mapped,
        ranges[0].clone(),
        ranges[1].clone(),
        ranges[2].clone(),
        2,
    )
    .expect("filter sections load");
    assert!(filter_index
        .check_filter(0, &FilterOp::new(0, FilterCondition::EqI64(-7))));
    assert!(filter_index
        .check_filter(0, &FilterOp::new(1, FilterCondition::EqBool(true))));
    let blue = filter_index
        .lookup_text_value(2, "blue")
        .expect("text dictionary maps blue");
    assert!(filter_index
        .check_filter(1, &FilterOp::new(2, FilterCondition::EqToken(blue))));
    assert!(filter_index
        .check_filter(0, &FilterOp::new(3, FilterCondition::EqI64(12))));
    assert!(filter_index
        .check_filter(0, &FilterOp::new(4, FilterCondition::EqI64(99))));
    assert!(filter_index
        .check_filter(0, &FilterOp::new(5, FilterCondition::EqUuid(uuid))));
    assert!(filter_index
        .check_filter(1, &FilterOp::new(0, FilterCondition::IsNull)));
    assert_eq!(sections[23], 42u32.to_le_bytes().to_vec());
    assert_eq!(
        sections[24],
        [
            1u32.to_le_bytes().to_vec(),
            0u64.to_le_bytes().to_vec(),
            4u64.to_le_bytes().to_vec(),
            b"acme".to_vec(),
        ]
        .concat()
    );
    assert_eq!(sections[25], [1u32, 0].map(u32::to_le_bytes).concat());
    assert_eq!(governor.memory_used(), 0);
}

#[test]
fn semantic_assembly_rejects_non_dense_node_codec_before_publication() {
    let mut governor = ResourceGovernor::new(ResourceLimits::memory_only(64 * 1024));
    let mut invalid_value = Vec::new();
    invalid_value.extend_from_slice(&1_u32.to_le_bytes());
    invalid_value.extend_from_slice(&42_u32.to_le_bytes());
    invalid_value.extend_from_slice(&1_u32.to_le_bytes());
    invalid_value.push(b'x');
    let node_run = stage(vec![RunRecord::new(0_u32.to_be_bytes().to_vec(), invalid_value)]);
    let registry = vec![String::new()];
    let filter_columns = Vec::new();
    let tenanted = Vec::new();
    let build = SemanticDirectBuild {
        node_count: 1,
        forward_edge_count: 0,
        inbound_edge_count: 0,
        has_forward_weights: false,
        has_inbound_weights: false,
        has_unidirectional_edges: false,
        applied_sync_id: 0,
        projection_mode: ProjectionMode::CsrReadonly,
        nodes: Some(&node_run),
        forward_edges: None,
        inbound_edges: None,
        resolution: None,
        filters: None,
        filter_dictionary: None,
        relationship_identities: None,
        tenant_tokens: None,
        tenant_dictionary: None,
        filter_columns: &filter_columns,
        edge_type_registry: &registry,
        tenanted_table_oids: &tenanted,
        max_record_bytes: 64,
    };
    assert!(write_semantic_artifact(&build, &mut governor).is_err());
}
