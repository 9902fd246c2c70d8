//! Node lifecycle, tombstones, storage statistics, and arrays that are read
//! from an artifact.
use pggraph::mapped_bytes::MappedBytes;
use pggraph::node_store::{MmapNodeArrayParts, MmapNodeArrays, NodeStore};

fn copy(parts: &MmapNodeArrayParts) -> MmapNodeArrayParts {
    MmapNodeArrayParts {
        mmap: parts.mmap.share(),
        active_range: parts.active_range.clone(),
        oid_range: parts.oid_range.clone(),
        pk_offsets_range: parts.pk_offsets_range.clone(),
        pk_bytes_range: parts.pk_bytes_range.clone(),
        node_count: parts.node_count,
    }
}

fn align_up(value: usize, alignment: usize) -> usize {
    value.next_multiple_of(alignment)
}

fn mapped_node_parts(
    active: &[u8],
    oids: &[u32],
    offsets: &[u64],
    primary_key_bytes: &[u8],
) -> MmapNodeArrayParts {
    let active_range = 0..active.len();
    let oid_start = align_up(active_range.end, std::mem::align_of::<u32>());
    let oid_range = oid_start..oid_start + std::mem::size_of_val(oids);
    let offsets_start = align_up(oid_range.end, std::mem::align_of::<u64>());
    let pk_offsets_range = offsets_start..offsets_start + std::mem::size_of_val(offsets);
    let pk_bytes_range = pk_offsets_range.end..pk_offsets_range.end + primary_key_bytes.len();
    let mut mapping = vec![0u8; pk_bytes_range.end.max(1)];
    mapping[active_range.clone()].copy_from_slice(active);
    for (chunk, value) in mapping[oid_range.clone()].chunks_exact_mut(4).zip(oids) {
        chunk.copy_from_slice(&value.to_le_bytes());
    }
    for (chunk, value) in mapping[pk_offsets_range.clone()]
        .chunks_exact_mut(8)
        .zip(offsets)
    {
        chunk.copy_from_slice(&value.to_le_bytes());
    }
    mapping[pk_bytes_range.clone()].copy_from_slice(primary_key_bytes);
    MmapNodeArrayParts {
        mmap: MappedBytes::from_bytes(mapping),
        active_range,
        oid_range,
        pk_offsets_range,
        pk_bytes_range,
        node_count: oids.len() as u32,
    }
}

#[test]
fn add_and_retrieve_node() {
    let mut store = NodeStore::new();
    let idx = store.add_node(12345, "PK-001".to_string());
    assert_eq!(idx, 0);
    assert_eq!(store.node_count(), 1);
    assert!(store.is_active(0));
    assert_eq!(store.table_oid(0), Some(12345));
    assert_eq!(store.primary_key(0), Some("PK-001"));
}

#[test]
fn deactivate_tombstones_node() {
    let mut store = NodeStore::new();
    store.add_node(1, "A".to_string());
    assert!(store.is_active(0));
    store.deactivate(0);
    assert!(!store.is_active(0));
}

#[test]
fn multiple_nodes_sequential_indices() {
    let mut store = NodeStore::new();
    let a = store.add_node(1, "A".to_string());
    let b = store.add_node(2, "B".to_string());
    let c = store.add_node(3, "C".to_string());
    assert_eq!(a, 0);
    assert_eq!(b, 1);
    assert_eq!(c, 2);
    assert_eq!(store.node_count(), 3);
}

#[test]
fn active_count_excludes_tombstones() {
    let mut store = NodeStore::new();
    store.add_node(1, "A".to_string());
    store.add_node(1, "B".to_string());
    store.add_node(1, "C".to_string());
    assert_eq!(store.active_count(), 3);

    store.deactivate(1); // Tombstone B
    assert_eq!(store.node_count(), 3); // Still 3 slots
    assert_eq!(store.active_count(), 2); // Only 2 active
}

#[test]
fn empty_store_has_zero_counts() {
    let store = NodeStore::new();
    assert_eq!(store.node_count(), 0);
    assert_eq!(store.active_count(), 0);
}

#[test]
fn nodes_from_different_tables_coexist() {
    let mut store = NodeStore::new();
    store.add_node(100, "user-1".to_string());
    store.add_node(200, "order-1".to_string());
    store.add_node(300, "product-1".to_string());

    assert_eq!(store.table_oid(0), Some(100));
    assert_eq!(store.table_oid(1), Some(200));
    assert_eq!(store.table_oid(2), Some(300));
}

#[test]
fn primary_keys_support_special_characters() {
    let mut store = NodeStore::new();
    store.add_node(1, "pk with spaces".to_string());
    store.add_node(1, "pk-with-dashes".to_string());
    store.add_node(1, "pk_with_🦀_emoji".to_string());
    store.add_node(1, "".to_string()); // Empty PK

    assert_eq!(store.primary_key(0), Some("pk with spaces"));
    assert_eq!(store.primary_key(1), Some("pk-with-dashes"));
    assert_eq!(store.primary_key(2), Some("pk_with_🦀_emoji"));
    assert_eq!(store.primary_key(3), Some(""));
}

#[test]
fn deactivate_already_inactive_is_safe() {
    let mut store = NodeStore::new();
    store.add_node(1, "X".to_string());
    store.deactivate(0);
    assert!(!store.is_active(0));

    // Deactivate again — should not panic
    store.deactivate(0);
    assert!(!store.is_active(0));
}

#[test]
fn out_of_range_active_checks_are_safe() {
    let mut store = NodeStore::new();
    store.add_node(1, "X".to_string());

    assert!(!store.is_active(1));
    assert!(!store.is_active(u32::MAX));
}

#[test]
fn mmap_metadata_lookups_reject_out_of_range_nodes() {
    let active = [1u8];
    let oids = [42u32];
    let pk_offsets = [0u64, 1u64];
    let pk_bytes = *b"X";
    let arrays = MmapNodeArrays::new(mapped_node_parts(&active, &oids, &pk_offsets, &pk_bytes))
        .expect("valid mapped node fixture");
    let store = NodeStore::from_mmap(arrays);

    assert_eq!(store.table_oid(0), Some(42));
    assert_eq!(store.primary_key(0), Some("X"));
    assert_eq!(store.table_oid(1), None);
    assert_eq!(store.primary_key(1), None);
    assert_eq!(store.table_oid(u32::MAX), None);
    assert_eq!(store.primary_key(u32::MAX), None);
    assert!(store.is_active(0));
    assert!(!store.is_active(1));
    assert_eq!(store.active_count(), 1);
    assert_eq!(store.is_active_bytes(), vec![1]);
    assert_eq!(store.table_oids_slice(), vec![42]);

    let owned = store.to_owned_store();
    assert!(!owned.is_mmap_backed());
    assert_eq!(owned.table_oid(0), Some(42));
    assert_eq!(owned.primary_key(0), Some("X"));
    assert!(owned.is_active(0));
}

#[test]
fn deactivate_out_of_range_is_noop() {
    let mut store = NodeStore::new();
    store.add_node(1, "X".to_string());

    store.deactivate(99);

    assert_eq!(store.node_count(), 1);
    assert_eq!(store.active_count(), 1);
    assert!(store.is_active(0));
}

#[test]
fn with_capacity_creates_empty_store() {
    let store = NodeStore::with_capacity(100);
    assert_eq!(store.node_count(), 0);
    assert_eq!(store.active_count(), 0);
}

#[test]
fn table_oids_slice_returns_correct_data() {
    let mut store = NodeStore::new();
    store.add_node(10, "A".to_string());
    store.add_node(20, "B".to_string());
    let oids = store.table_oids_slice();
    assert_eq!(oids, vec![10, 20]);
}

#[test]
fn is_active_bytes_roundtrips_state() {
    let mut store = NodeStore::new();
    for i in 0..10u32 {
        store.add_node(1, format!("N{}", i));
    }
    store.deactivate(3);
    store.deactivate(7);
    let bytes = store.is_active_bytes();
    assert!(!bytes.is_empty());
    // Verify deactivated nodes have their bits unset
    assert!(!store.is_active(3));
    assert!(!store.is_active(7));
    assert!(store.is_active(0));
}

#[test]
fn mmap_node_arrays_validate_region_bounds_and_alignment() {
    let valid = mapped_node_parts(&[1], &[42], &[0, 0], &[]);
    assert!(MmapNodeArrays::new(copy(&valid)).is_some());
    assert!(MmapNodeArrays::new(MmapNodeArrayParts {
        oid_range: 1..5,
        ..copy(&valid)
    })
    .is_none());
    assert!(MmapNodeArrays::new(MmapNodeArrayParts {
        active_range: 0..2,
        ..copy(&valid)
    })
    .is_none());
    assert!(MmapNodeArrays::new(MmapNodeArrayParts {
        pk_bytes_range: valid.mmap.len()..valid.mmap.len() + 1,
        ..valid
    })
    .is_none());
}

#[test]
fn mmap_node_store_owns_mapping_after_constructor_inputs_drop() {
    let store = {
        let arrays = MmapNodeArrays::new(mapped_node_parts(&[1], &[42], &[0, 1], b"X"))
            .expect("valid mapped node fixture");
        NodeStore::from_mmap(arrays)
    };
    assert_eq!(store.table_oid(0), Some(42));
    assert_eq!(store.primary_key(0), Some("X"));
}

#[test]
fn mmap_node_arrays_reject_invalid_primary_key_layout() {
    let active = [1u8];
    let oids = [42u32];
    let valid_offsets = [0u64, 1];
    let valid_bytes = *b"X";
    assert!(MmapNodeArrays::new(mapped_node_parts(
        &active,
        &oids,
        &valid_offsets,
        &valid_bytes
    ))
    .is_some());

    let nonzero_start = [1u64, 1];
    assert!(MmapNodeArrays::new(mapped_node_parts(
        &active,
        &oids,
        &nonzero_start,
        &valid_bytes
    ))
    .is_none());

    let bad_terminal = [0u64, 0];
    assert!(MmapNodeArrays::new(mapped_node_parts(
        &active,
        &oids,
        &bad_terminal,
        &valid_bytes
    ))
    .is_none());

    let invalid_utf8 = [0xffu8];
    assert!(MmapNodeArrays::new(mapped_node_parts(
        &active,
        &oids,
        &valid_offsets,
        &invalid_utf8
    ))
    .is_none());
}

#[test]
fn bulk_add_1000_nodes() {
    let mut store = NodeStore::with_capacity(1000);
    for i in 0..1000u32 {
        let idx = store.add_node(i % 10, format!("pk-{}", i));
        assert_eq!(idx, i);
    }
    assert_eq!(store.node_count(), 1000);
    assert_eq!(store.active_count(), 1000);
    assert_eq!(store.primary_key(999), Some("pk-999"));
}

#[test]
fn adding_to_arrays_of_an_artifact_is_refused() {
    let arrays = MmapNodeArrays::new(mapped_node_parts(&[1], &[42], &[0, 1], b"X")).unwrap();
    let mut store = NodeStore::from_mmap(arrays);
    assert!(store.try_add_node(1, "late".to_string()).is_err());
    assert_eq!(store.node_count(), 1);
    let mut owned = NodeStore::new();
    assert_eq!(owned.try_add_node(1, "late".to_string()).unwrap(), 0);
}

#[test]
fn packed_bits_list_live_nodes_from_the_lowest_bit() {
    let mut store = NodeStore::new();
    for i in 0..10u32 {
        store.add_node(1, format!("N{}", i));
    }
    store.deactivate(3);
    store.deactivate(7);
    let bytes = store.is_active_bytes();
    assert_eq!(bytes[..2], [0b0111_0111, 0b0000_0011]);
    assert!(bytes[2..].iter().all(|byte| *byte == 0));
}

#[test]
fn longest_key_counts_bytes() {
    let mut store = NodeStore::new();
    assert_eq!(store.max_primary_key_bytes(), 0);
    store.add_node(1, "four".to_string());
    store.add_node(1, "\u{1F980}\u{1F980}".to_string());
    assert_eq!(store.max_primary_key_bytes(), 8);
}

#[test]
fn arrays_of_an_artifact_count_as_mapped() {
    let arrays = MmapNodeArrays::new(mapped_node_parts(&[1], &[42], &[0, 1], b"X")).unwrap();
    let store = NodeStore::from_mmap(arrays);
    assert_eq!(store.estimated_mmap_bytes(), 1 + 4 + 16 + 1);
    assert_eq!(store.estimated_heap_bytes(), 0);
    assert!(store.to_owned_store().estimated_heap_bytes() >= 1 + 4 + 1);
}
