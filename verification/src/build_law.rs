//! Reading the sections of a directly built artifact gives back what the runs
//! of the build say.
use vstd::prelude::*;
use vstd::utf8::{decode_utf8, encode_utf8, encode_utf8_decode_utf8, encode_utf8_valid_utf8};

use crate::codec::{
    law_le_read_gives_back_write, le_bytes, lemma_be_len, lemma_le_bound, lemma_le_len,
    lemma_radix_values,
};
use crate::direct_edges::{
    csr_of, edge_of, edge_valid, edge_weight, edges_before, edges_of, edges_valid,
    law_edge_record_reads_back, law_row_holds_the_nodes_edges, lemma_edges_before_bound,
    number_parts, offset_parts, sources_ordered, CsrView, DecodedEdge,
};
use crate::direct_filters::{
    filters_fit, filters_valid, lemma_run_image_valid, run_images,
    RegisteredFilterColumn,
};
use crate::direct_nodes::{
    active_bitmap, law_every_node_is_active, law_node_record_reads_back, node_key, node_keys,
    node_table, node_tables, node_valid, nodes_valid,
};
use crate::direct_sections::{
    counted_list, identities_valid, identity_descriptors, identity_key, identity_keys,
    identity_mapping, identity_parts, label_bytes, node_token, record_values, resolution_bytes,
    resolution_valid, tenant_tokens_valid, token_at, token_parts, word_parts,
};
use crate::filter_catalog::{
    catalog_count, column_meta, column_place, place_texts, place_value, sections_valid,
};
use crate::filter_column::word;
use crate::filter_image::{
    catalog_of, data_of, dictionaries_of, images_fit, law_sections_read_back,
};
use crate::node_lookup::{finds_node, finds_nodes, NodeLookup};
use crate::node_store::{MmapNodeArrayParts, NodeView};
use crate::parts::{end_of, end_table, joined, law_part_reads_back, law_table_reads_back};
use crate::raw_edges::{
    edge_records, edge_runs_of, forward_list, mirrored_all, raw_of, PersistedEdgeRuns,
};
use crate::resolution::{entry_records, finalizes, lemma_finalized, ResolutionEntry};
use crate::run_records::{sorted_copy, RecordView};
use crate::scan_codec::key_hash;
use crate::scan_rows::{all_resolution, rows_valid, source_key, SourceNode};
use crate::scan_sources::{owned_view, source_runs_of, PersistedSourceRuns};
use crate::scan_sql::{RegisteredEdge, RegisteredTable};

verus! {

/// Parts of one width end at its multiples.
proof fn lemma_even_ends(parts: Seq<Seq<u8>>, width: nat, count: int)
    requires
        0 <= count <= parts.len(),
        forall|i: int| 0 <= i < parts.len() ==> (#[trigger] parts[i]).len() == width,
    ensures
        end_of(parts, count) == width * count,
    decreases count,
{
    if count > 0 {
        lemma_even_ends(parts, width, count - 1);
        assert(parts.take(count).drop_last() =~= parts.take(count - 1));
        assert(width * count == width * (count - 1) + width) by (nonlinear_arith);
    } else {
        assert(parts.take(0) =~= Seq::<Seq<u8>>::empty());
    }
}

/// The node that a record describes.
pub open spec fn node_of(record: RecordView) -> NodeView {
    NodeView { active: true, table_oid: node_table(record), key: decode_utf8(node_key(record)) }
}

/// Whether ranges of an artifact hold the node sections of a run.
pub open spec fn holds_nodes(parts: MmapNodeArrayParts, records: Seq<RecordView>) -> bool {
    let count = parts.node_count as nat;
    &&& parts.holds(parts.active_range)
    &&& parts.holds(parts.oid_range)
    &&& parts.holds(parts.pk_offsets_range)
    &&& parts.holds(parts.pk_bytes_range)
    &&& parts.oid_range.start % 4 == 0
    &&& parts.pk_offsets_range.start % 8 == 0
    &&& parts.section(parts.active_range) == active_bitmap(count)
    &&& parts.section(parts.oid_range) == joined(node_tables(records))
    &&& parts.section(parts.pk_offsets_range) == end_table(node_keys(records), count + 1)
    &&& parts.section(parts.pk_bytes_range) == joined(node_keys(records))
}

/// Node sections that were built from a run are accepted, and give back the
/// nodes of the run, all of them live.
pub proof fn law_built_nodes_read_back(parts: MmapNodeArrayParts, records: Seq<RecordView>)
    requires
        nodes_valid(records, parts.node_count as nat),
        holds_nodes(parts, records),
    ensures
        parts.valid(),
        parts.nodes() == Seq::new(records.len(), |i: int| node_of(records[i])),
{
    let count = parts.node_count as nat;
    let keys = node_keys(records);
    let tables = node_tables(records);
    assert forall|i: int| 0 <= i < tables.len() implies (#[trigger] tables[i]).len() == 4 by {
        lemma_le_len(node_table(records[i]) as nat, 4);
    }
    lemma_even_ends(tables, 4, count as int);
    assert(tables.take(count as int) =~= tables);
    crate::parts::lemma_table_len(keys, count + 1);
    assert(parts.section(parts.active_range).len() == parts.active_range.end
        - parts.active_range.start);
    assert(parts.section(parts.oid_range).len() == parts.oid_range.end - parts.oid_range.start);
    assert(parts.section(parts.pk_offsets_range).len() == parts.pk_offsets_range.end
        - parts.pk_offsets_range.start);
    assert(active_bitmap(count).len() == (count + 7) / 8);
    assert(joined(tables).len() == 4 * count);
    assert(parts.shape_valid());
    assert forall|at: int| 0 <= at <= count implies #[trigger] parts.offset(at) == end_of(
        keys,
        at,
    ) by {
        law_table_reads_back(keys, count + 1, at);
    }
    assert(keys.take(0) =~= Seq::<Seq<u8>>::empty());
    assert(keys.take(count as int) =~= keys);
    assert(parts.offset(0) == 0);
    assert(parts.offset(count as int) == joined(keys).len());
    assert forall|i: int| 0 <= i < count implies #[trigger] parts.key_valid(i) && parts.key_bytes(
        i,
    ) == keys[i] by {
        law_part_reads_back(keys, i);
        assert(parts.offset(i) == end_of(keys, i));
        assert(parts.offset(i + 1) == end_of(keys, i + 1));
        assert(node_valid(records[i], i));
    }
    assert forall|i: int| 0 <= i < count implies #[trigger] parts.node(i) == node_of(records[i]) by {
        assert(parts.key_valid(i));
        law_every_node_is_active(count, i);
        law_part_reads_back(tables, i);
        lemma_even_ends(tables, 4, i);
        lemma_even_ends(tables, 4, i + 1);
        lemma_radix_values();
        law_le_read_gives_back_write(node_table(records[i]) as nat, 4);
    }
    assert(parts.nodes() =~= Seq::new(records.len(), |i: int| node_of(records[i])));
}

/// Whether no table has two columns of one name.
pub open spec fn names_differ(columns: Seq<RegisteredFilterColumn>) -> bool {
    forall|i: int, j: int|
        0 <= i < j < columns.len() ==> (#[trigger] columns[i]).table_oid != (
        #[trigger] columns[j]).table_oid || columns[i].column_name@ != columns[j].column_name@
}

/// Filter sections that were built from runs are accepted, and give back each
/// column's description, each node's value and each column's texts.
pub proof fn law_built_filters_read_back(
    columns: Seq<RegisteredFilterColumn>,
    values: Seq<RecordView>,
    texts: Seq<RecordView>,
    nodes: nat,
)
    requires
        filters_valid(columns, values, texts, nodes),
        filters_fit(columns, texts),
        names_differ(columns),
        nodes <= u32::MAX,
        images_fit(run_images(columns, values, texts, nodes)),
    ensures
        ({
            let images = run_images(columns, values, texts, nodes);
            let catalog = catalog_of(images);
            let data = data_of(images, images.len());
            let dictionaries = dictionaries_of(images, images.len());
            &&& sections_valid(catalog, data, dictionaries, nodes)
            &&& catalog_count(catalog) == columns.len()
            &&& forall|column: int|
                #![trigger images[column]]
                0 <= column < columns.len() ==> {
                    let place = column_place(catalog, column, 0, 0);
                    &&& column_meta(catalog, column) == images[column].meta
                    &&& forall|node: int|
                        0 <= node < nodes ==> #[trigger] place_value(data, place, nodes, node)
                            == images[column].values[node]
                    &&& place.column_type is Text ==> place_texts(dictionaries, place)
                        == images[column].texts
                }
        }),
{
    let images = run_images(columns, values, texts, nodes);
    assert forall|i: int| 0 <= i < images.len() implies crate::filter_image::image_valid(
        #[trigger] images[i],
        nodes,
    ) by {
        assert(encode_utf8(columns[i].column_name@).len() <= u32::MAX);
        lemma_run_image_valid(columns, values, texts, nodes, i);
    }
    assert forall|i: int, j: int| 0 <= i < j < images.len() implies {
        let left = (#[trigger] images[i]).meta;
        let right = (#[trigger] images[j]).meta;
        left.table_oid != right.table_oid || left.name != right.name
    } by {
        assert(columns[i].table_oid != columns[j].table_oid || columns[i].column_name@
            != columns[j].column_name@);
    }
    law_sections_read_back(images, nodes);
}

/// A resolution section that was built from the sorted records of entries is a
/// valid index that holds these entries, and no others, in order.
pub proof fn law_built_resolution_reads_back(
    records: Seq<RecordView>,
    entries: Seq<ResolutionEntry>,
)
    requires
        sorted_copy(records, entry_records(entries)),
        records.len() <= u32::MAX,
    ensures
        finalizes(resolution_bytes(records), entries),
{
    let values = record_values(records);
    let bytes = resolution_bytes(records);
    assert forall|i: int| 0 <= i < values.len() implies (#[trigger] values[i]).len() == 16 by {
        lemma_record_width(records, entries, i);
    }
    lemma_even_ends(values, 16, values.len() as int);
    assert(values.take(values.len() as int) =~= values);
    lemma_le_len(records.len(), 4);
    assert forall|i: int| 0 <= i < records.len() implies bytes.subrange(4 + 16 * i, 20 + 16 * i)
        == (#[trigger] records[i]).value by {
        law_part_reads_back(values, i);
        lemma_even_ends(values, 16, i);
        lemma_even_ends(values, 16, i + 1);
        assert(bytes.subrange(4 + 16 * i, 20 + 16 * i) =~= joined(values).subrange(
            16 * i,
            16 * i + 16,
        ));
        assert(values[i] == records[i].value);
    }
    lemma_finalized(bytes, records, entries);
}

/// The value of an entry's record has a fixed width.
proof fn lemma_record_width(
    records: Seq<RecordView>,
    entries: Seq<ResolutionEntry>,
    at: int,
)
    requires
        sorted_copy(records, entry_records(entries)),
        0 <= at < records.len(),
    ensures
        records[at].key.len() == 16,
        records[at].value.len() == 16,
{
    broadcast use vstd::seq_lib::group_to_multiset_ensures;

    let list = entry_records(entries);
    assert(records.contains(records[at]));
    assert(records.to_multiset().contains(records[at]));
    assert(list.contains(records[at]));
    let k = choose|k: int| 0 <= k < list.len() && list[k] == records[at];
    lemma_le_len(entries[k].table_oid as nat, 4);
    lemma_le_len(entries[k].pk_hash as nat, 8);
    lemma_le_len(entries[k].node_idx as nat, 4);
    lemma_be_len(entries[k].table_oid as nat, 4);
    lemma_be_len(entries[k].pk_hash as nat, 8);
    lemma_be_len(entries[k].node_idx as nat, 4);
}

/// The resolution entries of scanned rows: each row's table, key hash and node.
pub open spec fn source_entries(nodes: Seq<SourceNode>) -> Seq<ResolutionEntry> {
    Seq::new(
        nodes.len(),
        |i: int|
            ResolutionEntry {
                table_oid: nodes[i].table.table_oid,
                pk_hash: key_hash(source_key(nodes[i])),
                node_idx: i as u32,
            },
    )
}

/// What is scanned of tables can be built and read back: the node run is valid
/// and tells each row's table and key, and the resolution section holds an
/// entry for each row under its table and key hash.
pub proof fn law_scanned_rows_can_be_found(
    runs: PersistedSourceRuns,
    tables: Seq<RegisteredTable>,
    nodes: Seq<SourceNode>,
    edges: Seq<RegisteredEdge>,
    filters: Seq<RegisteredFilterColumn>,
)
    requires
        source_runs_of(runs, tables, nodes, edges, filters),
        rows_valid(nodes, filters),
        nodes.len() <= u32::MAX,
    ensures
        nodes_valid(owned_view(runs.nodes), nodes.len()),
        resolution_valid(owned_view(runs.resolution), nodes.len()),
        forall|i: int|
            0 <= i < nodes.len() ==> #[trigger] node_of(owned_view(runs.nodes)[i]) == (NodeView {
                active: true,
                table_oid: nodes[i].table.table_oid,
                key: nodes[i].row.primary_key->Some_0@,
            }),
        finalizes(resolution_bytes(owned_view(runs.resolution)), source_entries(nodes)),
{
    let built = owned_view(runs.nodes);
    let records = owned_view(runs.resolution);
    let entries = source_entries(nodes);
    assert forall|i: int| 0 <= i < nodes.len() implies node_valid(#[trigger] built[i], i)
        && node_of(built[i]) == (NodeView {
        active: true,
        table_oid: nodes[i].table.table_oid,
        key: nodes[i].row.primary_key->Some_0@,
    }) by {
        let text = nodes[i].row.primary_key->Some_0@;
        assert(crate::scan_rows::row_valid(nodes[i], filters));
        encode_utf8_valid_utf8(text);
        encode_utf8_decode_utf8(text);
        law_node_record_reads_back(i as nat, nodes[i].table.table_oid, source_key(nodes[i]));
    }
    assert(entry_records(entries) =~= all_resolution(nodes));
    assert(records.len() == nodes.len()) by {
        broadcast use vstd::seq_lib::group_to_multiset_ensures;

        assert(records.to_multiset().len() == all_resolution(nodes).to_multiset().len());
    }
    assert forall|i: int| 0 <= i < records.len() implies (#[trigger] records[i]).key.len() == 16
        && records[i].value.len() == 16 by {
        lemma_record_width(records, entries, i);
    }
    law_built_resolution_reads_back(records, entries);
}

/// Where relationships look nodes up, each number is that of the built node with
/// the same table and key.
pub proof fn law_looked_up_nodes_are_built(
    lookups: Seq<NodeLookup>,
    runs: PersistedSourceRuns,
    tables: Seq<RegisteredTable>,
    nodes: Seq<SourceNode>,
    edges: Seq<RegisteredEdge>,
    filters: Seq<RegisteredFilterColumn>,
)
    requires
        finds_nodes(lookups, nodes),
        source_runs_of(runs, tables, nodes, edges, filters),
        rows_valid(nodes, filters),
        nodes.len() <= u32::MAX,
    ensures
        lookups.len() == owned_view(runs.nodes).len(),
        forall|i: int|
            0 <= i < lookups.len() ==> {
                let lookup = #[trigger] lookups[i];
                node_of(owned_view(runs.nodes)[lookup.node_idx as int]) == (NodeView {
                    active: true,
                    table_oid: lookup.table_oid,
                    key: lookup.primary_key@,
                })
            },
{
    law_scanned_rows_can_be_found(runs, tables, nodes, edges, filters);
    assert forall|i: int| 0 <= i < lookups.len() implies {
        let lookup = #[trigger] lookups[i];
        node_of(owned_view(runs.nodes)[lookup.node_idx as int]) == (NodeView {
            active: true,
            table_oid: lookup.table_oid,
            key: lookup.primary_key@,
        })
    } by {
        assert(finds_node(lookups[i], nodes[i], i));
        assert(node_of(owned_view(runs.nodes)[i]).key == nodes[i].row.primary_key->Some_0@);
    }
}

/// Whether records are those of edges between nodes, and of no others.
pub open spec fn holds_edges(
    records: Seq<RecordView>,
    edges: Seq<DecodedEdge>,
    nodes: nat,
) -> bool {
    &&& edges_valid(records, nodes, edges.len())
    &&& forall|edge: DecodedEdge| #[trigger]
        edges_of(records).contains(edge) <==> edges.contains(edge)
}

/// A sorted copy of edge records holds the edges.
proof fn lemma_sorted_edges(records: Seq<RecordView>, edges: Seq<DecodedEdge>, nodes: nat)
    requires
        sorted_copy(records, edge_records(edges)),
        forall|i: int|
            0 <= i < edges.len() ==> (#[trigger] edges[i]).source < nodes && edges[i].target < nodes
                && edges[i].schema_reversed <= 1,
    ensures
        holds_edges(records, edges, nodes),
{
    broadcast use vstd::seq_lib::group_to_multiset_ensures;

    let list = edge_records(edges);
    assert(records.len() == edges.len()) by {
        assert(records.to_multiset().len() == list.to_multiset().len());
    }
    assert forall|i: int| 0 <= i < records.len() implies edge_valid(#[trigger] records[i])
        && edges.contains(edge_of(records[i])) && edge_of(records[i]).source < nodes && edge_of(
        records[i],
    ).target < nodes by {
        assert(records.contains(records[i]));
        assert(records.to_multiset().contains(records[i]));
        assert(list.contains(records[i]));
        let k = choose|k: int| 0 <= k < list.len() && list[k] == records[i];
        law_edge_record_reads_back(edges[k]);
        assert(edges[k] == edge_of(records[i]));
    }
    let held = edges_of(records);
    assert forall|edge: DecodedEdge| #[trigger] held.contains(edge) <==> edges.contains(edge) by {
        if held.contains(edge) {
            let i = choose|i: int| 0 <= i < held.len() && held[i] == edge;
            assert(edges.contains(edge_of(records[i])));
        }
        if edges.contains(edge) {
            let k = choose|k: int| 0 <= k < edges.len() && edges[k] == edge;
            assert(list.contains(list[k]));
            assert(list.to_multiset().contains(list[k]));
            assert(records.contains(list[k]));
            let i = choose|i: int| 0 <= i < records.len() && records[i] == list[k];
            law_edge_record_reads_back(edge);
            assert(held[i] == edge);
        }
    }
}

/// Oriented edges join the nodes of their relationships.
proof fn lemma_oriented_bounds(records: Seq<RecordView>, nodes: nat, count: nat)
    requires
        count <= records.len(),
        forall|i: int|
            0 <= i < records.len() ==> raw_of(#[trigger] records[i]).source < nodes && raw_of(
                records[i],
            ).target < nodes,
    ensures
        forall|i: int|
            0 <= i < forward_list(records, count).len() ==> {
                let edge = #[trigger] forward_list(records, count)[i];
                edge.source < nodes && edge.target < nodes && edge.schema_reversed <= 1
            },
    decreases count,
{
    if count > 0 {
        lemma_oriented_bounds(records, nodes, (count - 1) as nat);
        assert(raw_of(records[count - 1]).source < nodes);
        let rest = forward_list(records, (count - 1) as nat);
        let all = forward_list(records, count);
        assert forall|i: int| 0 <= i < all.len() implies {
            let edge = #[trigger] all[i];
            edge.source < nodes && edge.target < nodes && edge.schema_reversed <= 1
        } by {
            if i < rest.len() {
                assert(all[i] == rest[i]);
            }
        }
    }
}

/// What is scanned of relationships between nodes can be built: the run of
/// edges holds the oriented edges, and the inbound run the same edges seen from
/// their other ends.
pub proof fn law_scanned_edges_can_be_built(
    runs: PersistedEdgeRuns,
    raw: Seq<RecordView>,
    nodes: nat,
)
    requires
        edge_runs_of(runs, raw),
        forall|i: int|
            0 <= i < raw.len() ==> raw_of(#[trigger] raw[i]).source < nodes && raw_of(
                raw[i],
            ).target < nodes,
    ensures
        ({
            let edges = forward_list(raw, raw.len());
            &&& holds_edges(owned_view(runs.forward), edges, nodes)
            &&& holds_edges(owned_view(runs.inbound), mirrored_all(edges), nodes)
            &&& runs.forward_edge_count == edges.len()
            &&& runs.inbound_edge_count == edges.len()
        }),
{
    let edges = forward_list(raw, raw.len());
    let back = mirrored_all(edges);
    lemma_oriented_bounds(raw, nodes, raw.len());
    lemma_sorted_edges(owned_view(runs.forward), edges, nodes);
    assert forall|i: int| 0 <= i < back.len() implies (#[trigger] back[i]).source < nodes
        && back[i].target < nodes && back[i].schema_reversed <= 1 by {
        assert(edges[i].source < nodes);
    }
    lemma_sorted_edges(owned_view(runs.inbound), back, nodes);
}

/// Four-byte numbers laid end to end read back.
proof fn lemma_words_read_back(parts: Seq<Seq<u8>>, numbers: Seq<nat>)
    requires
        parts.len() == numbers.len(),
        forall|i: int|
            0 <= i < parts.len() ==> #[trigger] parts[i] == le_bytes(numbers[i], 4) && numbers[i]
                <= u32::MAX,
    ensures
        joined(parts).len() == 4 * numbers.len(),
        forall|i: int|
            0 <= i < numbers.len() ==> word(joined(parts), 4 * i, 4) == #[trigger] numbers[i],
{
    let bytes = joined(parts);
    assert forall|i: int| 0 <= i < parts.len() implies (#[trigger] parts[i]).len() == 4 by {
        lemma_le_len(numbers[i], 4);
    }
    lemma_even_ends(parts, 4, parts.len() as int);
    assert(parts.take(parts.len() as int) =~= parts);
    assert forall|i: int| 0 <= i < numbers.len() implies word(bytes, 4 * i, 4)
        == #[trigger] numbers[i] by {
        assert(parts[i] == le_bytes(numbers[i], 4));
        lemma_even_ends(parts, 4, i);
        lemma_even_ends(parts, 4, i + 1);
        law_part_reads_back(parts, i);
        lemma_radix_values();
        law_le_read_gives_back_write(numbers[i], 4);
    }
}

/// The offset of a node's edges in adjacency sections.
pub open spec fn row_start(sections: CsrView, node: int) -> nat {
    word(sections.offsets, 4 * node, 4)
}

/// Whether adjacency sections hold edges: one after another, each with its
/// fields, those of a node between its offset and the next node's.
pub open spec fn csr_holds(
    sections: CsrView,
    edges: Seq<DecodedEdge>,
    nodes: nat,
    weighted: bool,
) -> bool {
    &&& sections.types.len() == edges.len()
    &&& forall|i: int|
        0 <= i < edges.len() ==> {
            let edge = #[trigger] edges[i];
            &&& word(sections.targets, 4 * i, 4) == edge.target
            &&& sections.types[i] == edge.type_id
            &&& sections.reversed[i] == edge.schema_reversed
            &&& weighted ==> word(sections.weights, 4 * i, 4) == edge_weight(edge)
            &&& word(sections.identities, 4 * i, 4) == edge.relationship_id
        }
    &&& forall|i: int, node: int|
        0 <= i < edges.len() && 0 <= node < nodes ==> (#[trigger] row_start(sections, node) <= i
            < row_start(sections, node + 1) <==> (#[trigger] edges[i]).source == node)
}

/// One number per edge reads back.
proof fn lemma_edge_fields(edges: Seq<DecodedEdge>, field: spec_fn(DecodedEdge) -> u32)
    ensures
        forall|i: int|
            0 <= i < edges.len() ==> word(joined(number_parts(edges, field)), 4 * i, 4) == field(
                #[trigger] edges[i],
            ),
{
    let numbers = Seq::new(edges.len(), |i: int| field(edges[i]) as nat);
    lemma_words_read_back(number_parts(edges, field), numbers);
    assert forall|i: int| 0 <= i < edges.len() implies word(
        joined(number_parts(edges, field)),
        4 * i,
        4,
    ) == field(#[trigger] edges[i]) by {
        assert(numbers[i] == field(edges[i]));
    }
}

/// The offset of a node's edges is the number of edges of the nodes before it.
proof fn lemma_row_start(edges: Seq<DecodedEdge>, nodes: nat, weighted: bool, node: int)
    requires
        edges.len() <= u32::MAX,
        0 <= node <= nodes,
    ensures
        row_start(csr_of(edges, nodes, weighted), node) == edges_before(edges, node),
{
    let offsets = Seq::new(nodes + 1, |node: int| edges_before(edges, node));
    assert forall|at: int| 0 <= at < offsets.len() implies #[trigger] offsets[at]
        <= u32::MAX by {
        lemma_edges_before_bound(edges, at);
    }
    lemma_words_read_back(offset_parts(edges, nodes), offsets);
    assert(offsets[node] == edges_before(edges, node));
}

/// Adjacency sections that were built from edges hold these edges, and no
/// others.
pub proof fn law_built_edges_read_back(edges: Seq<DecodedEdge>, nodes: nat, weighted: bool)
    requires
        sources_ordered(edges),
        edges.len() <= u32::MAX,
    ensures
        csr_holds(csr_of(edges, nodes, weighted), edges, nodes, weighted),
{
    let sections = csr_of(edges, nodes, weighted);
    lemma_edge_fields(edges, |edge: DecodedEdge| edge.target);
    lemma_edge_fields(edges, |edge: DecodedEdge| edge_weight(edge));
    lemma_edge_fields(edges, |edge: DecodedEdge| edge.relationship_id);
    assert forall|i: int| 0 <= i < edges.len() implies {
        let edge = #[trigger] edges[i];
        &&& word(sections.targets, 4 * i, 4) == edge.target
        &&& sections.types[i] == edge.type_id
        &&& sections.reversed[i] == edge.schema_reversed
        &&& weighted ==> word(sections.weights, 4 * i, 4) == edge_weight(edge)
        &&& word(sections.identities, 4 * i, 4) == edge.relationship_id
    } by {}
    assert forall|i: int, node: int| 0 <= i < edges.len() && 0 <= node < nodes implies (
    #[trigger] row_start(sections, node) <= i < row_start(sections, node + 1) <==> (
    #[trigger] edges[i]).source == node) by {
        law_row_holds_the_nodes_edges(edges, node, i);
        lemma_row_start(edges, nodes, weighted, node);
        lemma_row_start(edges, nodes, weighted, node + 1);
    }
}

/// The byte string that a counted list holds at a place.
pub open spec fn counted_part(bytes: Seq<u8>, at: int) -> Seq<u8> {
    let strings = 4 + 8 * (word(bytes, 0, 4) as int + 1);
    bytes.subrange(strings + word(bytes, 4 + 8 * at, 8), strings + word(bytes, 12 + 8 * at, 8))
}

/// A counted list gives back its number of byte strings and each of them.
pub proof fn law_counted_list_reads_back(parts: Seq<Seq<u8>>)
    requires
        parts.len() <= u32::MAX,
        joined(parts).len() <= u64::MAX,
    ensures
        word(counted_list(parts), 0, 4) == parts.len(),
        forall|at: int|
            0 <= at < parts.len() ==> counted_part(counted_list(parts), at) == #[trigger] parts[at],
{
    let bytes = counted_list(parts);
    let table = end_table(parts, parts.len() + 1);
    let strings = 4 + 8 * (parts.len() as int + 1);
    lemma_le_len(parts.len(), 4);
    crate::parts::lemma_table_len(parts, parts.len() + 1);
    lemma_radix_values();
    law_le_read_gives_back_write(parts.len(), 4);
    assert(bytes.subrange(0, 4) =~= le_bytes(parts.len(), 4));
    assert forall|at: int| 0 <= at < parts.len() implies counted_part(bytes, at)
        == #[trigger] parts[at] by {
        law_table_reads_back(parts, parts.len() + 1, at);
        law_table_reads_back(parts, parts.len() + 1, at + 1);
        assert(bytes.subrange(4 + 8 * at, 12 + 8 * at) =~= table.subrange(8 * at, 8 * at + 8));
        assert(bytes.subrange(12 + 8 * at, 20 + 8 * at) =~= table.subrange(
            8 * (at + 1),
            8 * (at + 1) + 8,
        ));
        law_part_reads_back(parts, at);
        assert(bytes.subrange(strings + end_of(parts, at), strings + end_of(parts, at + 1))
            =~= joined(parts).subrange(end_of(parts, at) as int, end_of(parts, at + 1) as int));
    }
}

/// The label that a registry section holds at a place.
pub open spec fn registry_label(bytes: Seq<u8>, at: int) -> Seq<char> {
    decode_utf8(counted_part(bytes, at))
}

/// A written edge type registry gives back its labels, in their order.
pub proof fn law_built_registry_reads_back(labels: Seq<String>, at: int)
    requires
        labels.len() <= u32::MAX,
        joined(label_bytes(labels)).len() <= u64::MAX,
        0 <= at < labels.len(),
    ensures
        word(counted_list(label_bytes(labels)), 0, 4) == labels.len(),
        registry_label(counted_list(label_bytes(labels)), at) == labels[at]@,
{
    law_counted_list_reads_back(label_bytes(labels));
    assert(label_bytes(labels)[at] == encode_utf8(labels[at]@));
    encode_utf8_decode_utf8(labels[at]@);
}

/// The mapping and the source key that identity sections hold of an identity.
pub open spec fn identity_at(descriptors: Seq<u8>, keys: Seq<u8>, at: int) -> (nat, Seq<u8>) {
    (
        word(descriptors, 16 * at + 16, 8),
        keys.subrange(
            word(descriptors, 16 * at + 8, 8) as int,
            word(descriptors, 16 * at + 24, 8) as int,
        ),
    )
}

/// Written relationship identities give back each identity's mapping and source
/// key.
pub proof fn law_built_identities_read_back(records: Seq<RecordView>, at: int)
    requires
        identities_valid(records),
        joined(identity_keys(records)).len() <= u64::MAX,
        0 <= at < records.len(),
    ensures
        identity_at(identity_descriptors(records), joined(identity_keys(records)), at) == (
            identity_mapping(records[at]) as nat,
            identity_key(records[at]),
        ),
{
    let descriptors = identity_descriptors(records);
    let keys = identity_keys(records);
    lemma_identity_entry(records, at);
    if at > 0 {
        lemma_identity_entry(records, at - 1);
    } else {
        let none = Seq::new(16, |i: int| 0u8);
        assert(keys.take(0) =~= Seq::<Seq<u8>>::empty());
        assert(descriptors.subrange(8, 16) =~= le_bytes(0, 8)) by {
            reveal_with_fuel(crate::codec::le_bytes, 9);
            lemma_le_len(0, 8);
        }
        lemma_radix_values();
        law_le_read_gives_back_write(0, 8);
    }
    law_part_reads_back(keys, at);
    assert(keys[at] == identity_key(records[at]));
}

/// An identity's entry among the descriptors.
proof fn lemma_identity_entry(records: Seq<RecordView>, at: int)
    requires
        joined(identity_keys(records)).len() <= u64::MAX,
        0 <= at < records.len(),
    ensures
        word(identity_descriptors(records), 16 * at + 16, 8) == identity_mapping(records[at]),
        word(identity_descriptors(records), 16 * at + 24, 8) == end_of(
            identity_keys(records),
            at + 1,
        ),
{
    let descriptors = identity_descriptors(records);
    let keys = identity_keys(records);
    let parts = identity_parts(records);
    let mapping = identity_mapping(records[at]) as nat;
    let end = end_of(keys, at + 1);
    assert forall|i: int| 0 <= i < parts.len() implies (#[trigger] parts[i]).len() == 16 by {
        lemma_le_len(identity_mapping(records[i]) as nat, 8);
        lemma_le_len(end_of(keys, i + 1), 8);
    }
    lemma_even_ends(parts, 16, at);
    lemma_even_ends(parts, 16, at + 1);
    law_part_reads_back(parts, at);
    law_part_reads_back(keys, at);
    lemma_le_len(mapping, 8);
    lemma_le_len(end, 8);
    assert(parts[at] == le_bytes(mapping, 8) + le_bytes(end, 8));
    assert(parts[at].subrange(0, 8) =~= le_bytes(mapping, 8));
    assert(parts[at].subrange(8, 16) =~= le_bytes(end, 8));
    assert(descriptors.subrange(16 * at + 16, 16 * at + 24) =~= parts[at].subrange(0, 8));
    assert(descriptors.subrange(16 * at + 24, 16 * at + 32) =~= parts[at].subrange(8, 16));
    lemma_radix_values();
    law_le_read_gives_back_write(mapping, 8);
    law_le_read_gives_back_write(end, 8);
}

/// Written tenanted tables read back, each in its place.
pub proof fn law_built_tenanted_tables_read_back(oids: Seq<u32>, at: int)
    requires
        0 <= at < oids.len(),
    ensures
        joined(word_parts(oids)).len() == 4 * oids.len(),
        word(joined(word_parts(oids)), 4 * at, 4) == oids[at],
{
    let numbers = Seq::new(oids.len(), |i: int| oids[i] as nat);
    lemma_words_read_back(word_parts(oids), numbers);
    assert(numbers[at] == oids[at]);
}

/// Written tenant tokens read back: each node's token, which is zero for a node
/// without a tenant.
pub proof fn law_built_tenant_tokens_read_back(tokens: Seq<RecordView>, nodes: nat, node: int)
    requires
        tenant_tokens_valid(tokens, nodes),
        0 <= node < nodes,
    ensures
        word(joined(token_parts(tokens, nodes)), 4 * node, 4) == node_token(tokens, node),
{
    let numbers = Seq::new(nodes, |node: int| node_token(tokens, node));
    assert forall|node: int| 0 <= node < nodes implies #[trigger] numbers[node] <= u32::MAX by {
        if exists|at: int| token_at(tokens, at, node) {
            let found = choose|at: int| token_at(tokens, at, node);
            assert(tokens[found].value.len() == 4);
            lemma_radix_values();
            lemma_le_bound(tokens[found].value.subrange(0, 4));
        }
    }
    lemma_words_read_back(token_parts(tokens, nodes), numbers);
    assert(numbers[node] == node_token(tokens, node));
}

/// A written resolution section gives back the number of its records and the
/// value of each.
pub proof fn law_resolution_section_reads_back(records: Seq<RecordView>, nodes: nat)
    requires
        resolution_valid(records, nodes),
        nodes <= u32::MAX,
    ensures
        word(resolution_bytes(records), 0, 4) == nodes,
        forall|i: int|
            0 <= i < nodes ==> resolution_bytes(records).subrange(4 + 16 * i, 20 + 16 * i) == (
            #[trigger] records[i]).value,
{
    let values = record_values(records);
    let bytes = resolution_bytes(records);
    assert forall|i: int| 0 <= i < values.len() implies (#[trigger] values[i]).len() == 16 by {
        assert(records[i].value.len() == 16);
    }
    lemma_le_len(records.len(), 4);
    lemma_radix_values();
    law_le_read_gives_back_write(records.len(), 4);
    assert(bytes.subrange(0, 4) =~= le_bytes(records.len(), 4));
    assert forall|i: int| 0 <= i < nodes implies bytes.subrange(4 + 16 * i, 20 + 16 * i) == (
    #[trigger] records[i]).value by {
        law_part_reads_back(values, i);
        lemma_even_ends(values, 16, i);
        lemma_even_ends(values, 16, i + 1);
        assert(bytes.subrange(4 + 16 * i, 20 + 16 * i) =~= joined(values).subrange(
            16 * i,
            16 * i + 16,
        ));
        assert(values[i] == records[i].value);
    }
}

} // verus!
