//! What scanned tables become: every row with a key is a node, in order, with its
//! filter values and its tenant.
use vstd::prelude::*;
use vstd::utf8::{encode_utf8, encode_utf8_decode_utf8};

use crate::codec::{
    be_bytes, be_value, law_be_read_gives_back_write, law_le_read_gives_back_write, lemma_be_len,
    lemma_le_len, lemma_lex_irreflexive, lemma_lex_total, lemma_lex_transitive,
    lemma_radix_values, lex_less,
};
use crate::direct_filters::{
    column_domain, column_texts, column_values, filters_valid, is_row, row_column, row_item,
    row_value, run_image, tagged_value, RegisteredFilterColumn,
};
use crate::direct_sections::{node_token, record_values, token_at, without_repeats};
use crate::filter_image::ColumnImage;
use crate::filter_value::{EncodedFilterValue, FilterColumnType};
use crate::run_records::{record_less, records_ordered, sorted_copy, RecordView};
use crate::scan_codec::{
    dictionary_record, filter_record, hex_value, law_filter_record_reads_back, lemma_pair_key,
    tenant_record, without_dashes, ScannedFilterValue,
};
use crate::scan_law::lemma_sorted_copy_unique;
use crate::scan_rows::{
    all_tenants, all_texts, all_values, cell_valid, node_filters, node_value, row_valid, rows_valid,
    table_nodes, text_records, value_records, SourceCell, SourceNode, SourceRow,
};
use crate::scan_sources::{
    owned_view, raw_node, raw_ordinal, scan_nodes, source_runs_of, tenant_fresh, tenant_names,
    tenant_runs_of, tenant_token, tenant_values, text_fresh, text_runs_of, text_token,
    token_texts, token_values, PersistedSourceRuns,
};
use crate::scan_sql::{filters_of_table, RegisteredEdge, RegisteredTable};
use crate::segment_law::comes_later;

verus! {

/// Whether a place is that of a row with a key.
pub open spec fn keyed_row(rows: Seq<Vec<SourceRow>>, tables: nat, place: (int, int)) -> bool {
    &&& 0 <= place.0 < tables
    &&& 0 <= place.1 < rows[place.0]@.len()
    &&& rows[place.0]@[place.1].primary_key is Some
}

/// Whether nodes are the rows with keys, at their places, in order.
pub open spec fn nodes_are_rows(
    nodes: Seq<SourceNode>,
    tables: Seq<RegisteredTable>,
    rows: Seq<Vec<SourceRow>>,
    count: nat,
    places: Seq<(int, int)>,
) -> bool {
    &&& places.len() == nodes.len()
    &&& forall|i: int|
        0 <= i < places.len() ==> {
            let place = #[trigger] places[i];
            &&& keyed_row(rows, count, place)
            &&& nodes[i].table == tables[place.0]
            &&& nodes[i].row == rows[place.0]@[place.1]
        }
    &&& forall|i: int, j: int|
        0 <= i < j < places.len() ==> {
            let (left, right) = (#[trigger] places[i], #[trigger] places[j]);
            comes_later(left.0, left.1, right.0, right.1)
        }
    &&& forall|place: (int, int)| #[trigger]
        keyed_row(rows, count, place) ==> places.contains(place)
}

proof fn lemma_table_places(
    tables: Seq<RegisteredTable>,
    rows: Seq<Vec<SourceRow>>,
    at: int,
    count: nat,
) -> (places: Seq<(int, int)>)
    requires
        0 <= at < tables.len(),
        rows.len() == tables.len(),
        count <= rows[at]@.len(),
    ensures
        ({
            let nodes = table_nodes(tables[at], rows[at]@, count);
            &&& places.len() == nodes.len()
            &&& forall|i: int|
                0 <= i < places.len() ==> {
                    let place = #[trigger] places[i];
                    &&& place.0 == at && 0 <= place.1 < count
                    &&& rows[at]@[place.1].primary_key is Some
                    &&& nodes[i].table == tables[at]
                    &&& nodes[i].row == rows[at]@[place.1]
                }
            &&& forall|i: int, j: int|
                0 <= i < j < places.len() ==> (#[trigger] places[i]).1 < (#[trigger] places[j]).1
            &&& forall|row: int|
                0 <= row < count && (#[trigger] rows[at]@[row]).primary_key is Some
                    ==> places.contains((at, row))
        }),
    decreases count,
{
    if count == 0 {
        Seq::empty()
    } else {
        let shorter = lemma_table_places(tables, rows, at, (count - 1) as nat);
        if rows[at]@[count - 1].primary_key is Some {
            let places = shorter.push((at, count - 1));
            assert forall|row: int|
                0 <= row < count && (
                #[trigger] rows[at]@[row]).primary_key is Some implies places.contains(
                (at, row),
            ) by {
                if row < count - 1 {
                    let i = choose|i: int| 0 <= i < shorter.len() && shorter[i] == (at, row);
                    assert(places[i] == (at, row));
                } else {
                    assert(places[shorter.len() as int] == (at, row));
                }
            }
            places
        } else {
            shorter
        }
    }
}

proof fn lemma_scan_places(
    tables: Seq<RegisteredTable>,
    rows: Seq<Vec<SourceRow>>,
    count: nat,
) -> (places: Seq<(int, int)>)
    requires
        count <= tables.len(),
        rows.len() == tables.len(),
    ensures
        nodes_are_rows(scan_nodes(tables, rows, count), tables, rows, count, places),
    decreases count,
{
    if count == 0 {
        Seq::empty()
    } else {
        let less = (count - 1) as nat;
        let shorter = lemma_scan_places(tables, rows, less);
        let added = lemma_table_places(tables, rows, count - 1, rows[count - 1]@.len());
        let places = shorter + added;
        let nodes = scan_nodes(tables, rows, count);
        assert forall|i: int| 0 <= i < places.len() implies {
            let place = #[trigger] places[i];
            &&& keyed_row(rows, count, place)
            &&& nodes[i].table == tables[place.0]
            &&& nodes[i].row == rows[place.0]@[place.1]
        } by {
            if i < shorter.len() {
                assert(keyed_row(rows, less, shorter[i]));
            } else {
                assert(places[i] == added[i - shorter.len()]);
            }
        }
        assert forall|i: int, j: int| 0 <= i < j < places.len() implies {
            let (left, right) = (#[trigger] places[i], #[trigger] places[j]);
            comes_later(left.0, left.1, right.0, right.1)
        } by {
            if j < shorter.len() {
                assert(places[i] == shorter[i] && places[j] == shorter[j]);
            } else {
                assert(places[j] == added[j - shorter.len()]);
                if i < shorter.len() {
                    assert(keyed_row(rows, less, shorter[i]));
                } else {
                    assert(places[i] == added[i - shorter.len()]);
                }
            }
        }
        assert forall|place: (int, int)| #[trigger]
            keyed_row(rows, count, place) implies places.contains(place) by {
            if place.0 < less {
                assert(keyed_row(rows, less, place));
                let i = choose|i: int| 0 <= i < shorter.len() && shorter[i] == place;
                assert(places[i] == place);
            } else {
                assert(rows[count - 1]@[place.1].primary_key is Some);
                assert(added.contains((count - 1, place.1)));
                let i = choose|i: int| 0 <= i < added.len() && added[i] == (count - 1, place.1);
                assert(places[shorter.len() + i] == place);
            }
        }
        places
    }
}

/// Scanned nodes are the rows that have a key, each once, table by table and row
/// by row.
pub proof fn law_rows_with_keys_become_nodes(
    tables: Seq<RegisteredTable>,
    rows: Seq<Vec<SourceRow>>,
)
    requires
        rows.len() == tables.len(),
    ensures
        exists|places: Seq<(int, int)>| #[trigger]
            nodes_are_rows(
                scan_nodes(tables, rows, tables.len()),
                tables,
                rows,
                tables.len(),
                places,
            ),
{
    let places = lemma_scan_places(tables, rows, tables.len());
}

/// How many of the first columns are a table's.
pub open spec fn columns_before(
    filters: Seq<RegisteredFilterColumn>,
    table: u32,
    column: nat,
) -> nat
    decreases column,
{
    if column == 0 {
        0
    } else {
        columns_before(filters, table, (column - 1) as nat) + if filters[column - 1].table_oid
            == table {
            1nat
        } else {
            0nat
        }
    }
}

proof fn lemma_columns_of_table(filters: Seq<RegisteredFilterColumn>, table: u32, count: nat)
    requires
        count <= filters.len(),
    ensures
        ({
            let positions = filters_of_table(filters, table, count);
            &&& positions.len() == columns_before(filters, table, count)
            &&& forall|j: int|
                0 <= j < positions.len() ==> {
                    &&& 0 <= #[trigger] positions[j] < count
                    &&& filters[positions[j]].table_oid == table
                    &&& columns_before(filters, table, positions[j] as nat) == j
                }
            &&& forall|column: nat|
                column < count && filters[column as int].table_oid == table ==> {
                    &&& (#[trigger] columns_before(filters, table, column)) < positions.len()
                    &&& positions[columns_before(filters, table, column) as int] == column
                }
        }),
    decreases count,
{
    if count > 0 {
        lemma_columns_of_table(filters, table, (count - 1) as nat);
    }
}

/// Whether a column tells a fetched value of a node: no value for `NULL`, a
/// number or a truth as it is in the column's domain, a UUID as its number, and a
/// text by its token.
pub open spec fn image_tells(image: ColumnImage, node: int, cell: SourceCell) -> bool {
    let held = image.values[node];
    match cell {
        SourceCell::Null => held is None,
        SourceCell::Boolean(flag) => held == Some(EncodedFilterValue::Boolean(flag)),
        SourceCell::Integer(number) => match image.meta.column_type {
            FilterColumnType::Date => held == Some(EncodedFilterValue::Date(number)),
            FilterColumnType::Timestamptz => held == Some(
                EncodedFilterValue::Timestamptz(number),
            ),
            FilterColumnType::Numeric => held == Some(EncodedFilterValue::Numeric(number)),
            _ => false,
        },
        SourceCell::Text(text) => match image.meta.column_type {
            FilterColumnType::Uuid => held matches Some(EncodedFilterValue::Uuid(uuid)) && uuid
                == hex_value(without_dashes(encode_utf8(text@))) as u128,
            FilterColumnType::Text => held matches Some(EncodedFilterValue::Text(token)) && token
                < image.texts.len() && image.texts[token as int] == text@,
            _ => false,
        },
    }
}

proof fn lemma_copy_holds(records: Seq<RecordView>, list: Seq<RecordView>, record: RecordView)
    requires
        sorted_copy(records, list),
    ensures
        records.contains(record) <==> list.contains(record),
{
    broadcast use vstd::seq_lib::group_to_multiset_ensures;

    assert(records.contains(record) <==> records.to_multiset().contains(record));
    assert(list.contains(record) <==> list.to_multiset().contains(record));
}

/// A value of a node has its record.
proof fn lemma_value_recorded(
    node: SourceNode,
    filters: Seq<RegisteredFilterColumn>,
    index: nat,
    count: nat,
    at: int,
)
    requires
        0 <= at < count,
        node_value(node, filters, at) is Some,
    ensures
        match node_value(node, filters, at)->Some_0 {
            ScannedFilterValue::Text(text) => text_records(
                node,
                filters,
                index,
                count,
            ).contains(
                dictionary_record(
                    node_filters(node, filters)[at] as nat,
                    encode_utf8(text@),
                    index,
                ),
            ),
            value => value_records(node, filters, index, count).contains(
                filter_record(node_filters(node, filters)[at] as nat, index, value),
            ),
        },
    decreases count,
{
    let less = (count - 1) as nat;
    let values = value_records(node, filters, index, less);
    let texts = text_records(node, filters, index, less);
    let all_v = value_records(node, filters, index, count);
    let all_t = text_records(node, filters, index, count);
    let column = node_filters(node, filters)[at] as nat;
    if at == count - 1 {
        match node_value(node, filters, at)->Some_0 {
            ScannedFilterValue::Text(text) => {
                assert(all_t[texts.len() as int] == dictionary_record(
                    column,
                    encode_utf8(text@),
                    index,
                ));
            },
            value => {
                assert(all_v[values.len() as int] == filter_record(column, index, value));
            },
        }
    } else {
        lemma_value_recorded(node, filters, index, less, at);
        match node_value(node, filters, at)->Some_0 {
            ScannedFilterValue::Text(text) => {
                let record = dictionary_record(column, encode_utf8(text@), index);
                let i = choose|i: int| 0 <= i < texts.len() && texts[i] == record;
                assert(all_t[i] == record);
            },
            value => {
                let record = filter_record(column, index, value);
                let i = choose|i: int| 0 <= i < values.len() && values[i] == record;
                assert(all_v[i] == record);
            },
        }
    }
}

/// A record of a node is that of one of its values.
proof fn lemma_recorded_value(
    node: SourceNode,
    filters: Seq<RegisteredFilterColumn>,
    index: nat,
    count: nat,
    record: RecordView,
) -> (at: int)
    requires
        value_records(node, filters, index, count).contains(record),
    ensures
        0 <= at < count,
        node_value(node, filters, at) is Some,
        !(node_value(node, filters, at)->Some_0 is Text),
        record == filter_record(
            node_filters(node, filters)[at] as nat,
            index,
            node_value(node, filters, at)->Some_0,
        ),
    decreases count,
{
    let all = value_records(node, filters, index, count);
    let i = choose|i: int| 0 <= i < all.len() && all[i] == record;
    let shorter = value_records(node, filters, index, (count - 1) as nat);
    if i < shorter.len() {
        assert(shorter[i] == record);
        lemma_recorded_value(node, filters, index, (count - 1) as nat, record)
    } else {
        count - 1
    }
}

/// A text record of a node is that of one of its texts.
proof fn lemma_recorded_text(
    node: SourceNode,
    filters: Seq<RegisteredFilterColumn>,
    index: nat,
    count: nat,
    record: RecordView,
) -> (at: int)
    requires
        text_records(node, filters, index, count).contains(record),
    ensures
        0 <= at < count,
        node_value(node, filters, at) matches Some(ScannedFilterValue::Text(text)) && record
            == dictionary_record(
            node_filters(node, filters)[at] as nat,
            encode_utf8(text@),
            index,
        ),
    decreases count,
{
    let all = text_records(node, filters, index, count);
    let i = choose|i: int| 0 <= i < all.len() && all[i] == record;
    let shorter = text_records(node, filters, index, (count - 1) as nat);
    if i < shorter.len() {
        assert(shorter[i] == record);
        lemma_recorded_text(node, filters, index, (count - 1) as nat, record)
    } else {
        count - 1
    }
}

/// The records of all nodes hold those of each.
proof fn lemma_node_recorded(
    nodes: Seq<SourceNode>,
    filters: Seq<RegisteredFilterColumn>,
    node: int,
    record: RecordView,
)
    requires
        0 <= node < nodes.len(),
    ensures
        ({
            let count = node_filters(nodes[node], filters).len();
            &&& value_records(nodes[node], filters, node as nat, count).contains(record)
                ==> all_values(nodes, filters).contains(record)
            &&& text_records(nodes[node], filters, node as nat, count).contains(record)
                ==> all_texts(nodes, filters).contains(record)
        }),
    decreases nodes.len(),
{
    let last = nodes.last();
    let count = node_filters(last, filters).len();
    let index = (nodes.len() - 1) as nat;
    let values = all_values(nodes.drop_last(), filters);
    let texts = all_texts(nodes.drop_last(), filters);
    let own_values = value_records(last, filters, index, count);
    let own_texts = text_records(last, filters, index, count);
    if node < nodes.len() - 1 {
        lemma_node_recorded(nodes.drop_last(), filters, node, record);
        if values.contains(record) {
            let i = choose|i: int| 0 <= i < values.len() && values[i] == record;
            assert(all_values(nodes, filters)[i] == record);
        }
        if texts.contains(record) {
            let i = choose|i: int| 0 <= i < texts.len() && texts[i] == record;
            assert(all_texts(nodes, filters)[i] == record);
        }
    } else {
        if own_values.contains(record) {
            let i = choose|i: int| 0 <= i < own_values.len() && own_values[i] == record;
            assert(all_values(nodes, filters)[values.len() + i] == record);
        }
        if own_texts.contains(record) {
            let i = choose|i: int| 0 <= i < own_texts.len() && own_texts[i] == record;
            assert(all_texts(nodes, filters)[texts.len() + i] == record);
        }
    }
}

/// A record of all nodes is one of some node.
proof fn lemma_recorded_node(
    nodes: Seq<SourceNode>,
    filters: Seq<RegisteredFilterColumn>,
    record: RecordView,
    text: bool,
) -> (node: int)
    requires
        if text {
            all_texts(nodes, filters).contains(record)
        } else {
            all_values(nodes, filters).contains(record)
        },
    ensures
        0 <= node < nodes.len(),
        ({
            let count = node_filters(nodes[node], filters).len();
            if text {
                text_records(nodes[node], filters, node as nat, count).contains(record)
            } else {
                value_records(nodes[node], filters, node as nat, count).contains(record)
            }
        }),
    decreases nodes.len(),
{
    let all = if text {
        all_texts(nodes, filters)
    } else {
        all_values(nodes, filters)
    };
    let shorter = if text {
        all_texts(nodes.drop_last(), filters)
    } else {
        all_values(nodes.drop_last(), filters)
    };
    let i = choose|i: int| 0 <= i < all.len() && all[i] == record;
    if i < shorter.len() {
        assert(shorter[i] == record);
        lemma_recorded_node(nodes.drop_last(), filters, record, text)
    } else {
        let count = node_filters(nodes.last(), filters).len();
        let index = (nodes.len() - 1) as nat;
        if text {
            let own = text_records(nodes.last(), filters, index, count);
            assert(own[i - shorter.len()] == record);
        } else {
            let own = value_records(nodes.last(), filters, index, count);
            assert(own[i - shorter.len()] == record);
        }
        nodes.len() - 1
    }
}

/// A staged text tells its column and node.
proof fn lemma_raw_text(ordinal: nat, text: Seq<u8>, node: nat)
    requires
        ordinal <= u32::MAX,
        node <= u32::MAX,
    ensures
        raw_ordinal(dictionary_record(ordinal, text, node)) == ordinal,
        raw_node(dictionary_record(ordinal, text, node)) == node,
{
    let key = dictionary_record(ordinal, text, node).key;
    lemma_radix_values();
    lemma_be_len(ordinal, 4);
    lemma_be_len(node, 4);
    law_be_read_gives_back_write(ordinal, 4);
    law_be_read_gives_back_write(node, 4);
    assert(key.subrange(0, 4) =~= be_bytes(ordinal, 4));
    assert(key.subrange(key.len() - 4, key.len() as int) =~= be_bytes(node, 4));
}

/// The dictionary record of a staged text.
spec fn token_record(raw: Seq<RecordView>, at: int) -> RecordView {
    RecordView {
        key: be_bytes(raw_ordinal(raw[at]), 4) + be_bytes(text_token(raw, at as nat), 4),
        value: raw[at].value,
    }
}

proof fn lemma_token_recorded(raw: Seq<RecordView>, count: nat, at: int)
    requires
        0 <= at < count <= raw.len(),
    ensures
        token_texts(raw, count).contains(token_record(raw, at)),
    decreases count, at,
{
    let shorter = token_texts(raw, (count - 1) as nat);
    let all = token_texts(raw, count);
    if text_fresh(raw, at) {
        if at == count - 1 {
            assert(all[shorter.len() as int] == token_record(raw, at));
        } else {
            lemma_token_recorded(raw, (count - 1) as nat, at);
            let i = choose|i: int| 0 <= i < shorter.len() && shorter[i] == token_record(raw, at);
            assert(all[i] == token_record(raw, at));
        }
    } else {
        lemma_token_recorded(raw, count, at - 1);
        assert(token_record(raw, at - 1) == token_record(raw, at));
    }
}

/// A dictionary record stands among its column's values where its token says.
proof fn lemma_column_value(records: Seq<RecordView>, column: int, at: int)
    requires
        0 <= at < records.len(),
        row_column(records[at]) == column,
    ensures
        column_values(records.take(at), column).len() < column_values(records, column).len(),
        column_values(records, column)[column_values(records.take(at), column).len() as int]
            == records[at].value,
    decreases records.len(),
{
    let shorter = records.drop_last();
    if at == records.len() - 1 {
        assert(records.take(at) =~= shorter);
    } else {
        lemma_column_value(shorter, column, at);
        assert(shorter.take(at) =~= records.take(at));
    }
}

/// The value that a record gives is the one that is read.
proof fn lemma_row_read(
    records: Seq<RecordView>,
    column_type: FilterColumnType,
    column: int,
    node: int,
    at: int,
)
    requires
        is_row(records, at, column, node),
        forall|i: int, j: int|
            0 <= i < j < records.len() ==> be_value((#[trigger] records[i]).key) < be_value(
                (#[trigger] records[j]).key,
            ),
    ensures
        row_value(records, column_type, column, node) == Some(
            tagged_value(column_type, records[at].value),
        ),
{
    let other = choose|other: int| is_row(records, other, column, node);
    assert(is_row(records, other, column, node));
    assert(be_value(records[at].key) == column * 0x1_0000_0000 + node) by (nonlinear_arith)
        requires
            be_value(records[at].key) as int / 0x1_0000_0000 == column,
            be_value(records[at].key) as int % 0x1_0000_0000 == node,
    ;
    assert(be_value(records[other].key) == column * 0x1_0000_0000 + node) by (nonlinear_arith)
        requires
            be_value(records[other].key) as int / 0x1_0000_0000 == column,
            be_value(records[other].key) as int % 0x1_0000_0000 == node,
    ;
    if at < other {
        assert(be_value(records[at].key) < be_value(records[other].key));
    }
    if other < at {
        assert(be_value(records[other].key) < be_value(records[at].key));
    }
}

/// A key of two numbers tells both.
proof fn lemma_pair_read(left: nat, right: nat, value: Seq<u8>)
    requires
        left <= u32::MAX,
        right <= u32::MAX,
    ensures
        ({
            let record = RecordView { key: be_bytes(left, 4) + be_bytes(right, 4), value };
            row_column(record) == left && row_item(record) == right
        }),
{
    lemma_pair_key(left, right);
    let whole = (left * 0x1_0000_0000 + right) as int;
    assert(whole / 0x1_0000_0000 == left && whole % 0x1_0000_0000 == right) by (nonlinear_arith)
        requires
            whole == left * 0x1_0000_0000 + right,
            0 <= right < 0x1_0000_0000,
            0 <= left,
    ;
}

/// A filter record tells a value of the node and column that it is for.
proof fn lemma_row_origin(
    raw: Seq<RecordView>,
    nodes: Seq<SourceNode>,
    filters: Seq<RegisteredFilterColumn>,
    records: Seq<RecordView>,
    dictionary: Seq<RecordView>,
    place: int,
) -> (from: (int, int))
    requires
        text_runs_of(
            raw,
            all_texts(nodes, filters),
            all_values(nodes, filters),
            records,
            dictionary,
        ),
        rows_valid(nodes, filters),
        nodes.len() <= u32::MAX,
        0 <= place < records.len(),
    ensures
        0 <= from.0 < nodes.len(),
        0 <= from.1 < node_filters(nodes[from.0], filters).len(),
        node_value(nodes[from.0], filters, from.1) is Some,
        row_item(records[place]) == from.0,
        row_column(records[place]) == node_filters(nodes[from.0], filters)[from.1],
{
    let record = records[place];
    let values = all_values(nodes, filters);
    let tokens = token_values(raw, raw.len());
    lemma_copy_holds(records, values + tokens, record);
    let i = choose|i: int| 0 <= i < (values + tokens).len() && (values + tokens)[i] == record;
    if i < values.len() {
        assert(values[i] == record);
        let node = lemma_recorded_node(nodes, filters, record, false);
        let count = node_filters(nodes[node], filters).len();
        let at = lemma_recorded_value(nodes[node], filters, node as nat, count, record);
        assert(row_valid(nodes[node], filters));
        lemma_columns_of_table(filters, nodes[node].table.table_oid, filters.len());
        let column = node_filters(nodes[node], filters)[at];
        lemma_pair_read(column as nat, node as nat, record.value);
        (node, at)
    } else {
        let k = i - values.len();
        assert(tokens[k] == record);
        lemma_copy_holds(raw, all_texts(nodes, filters), raw[k]);
        let node = lemma_recorded_node(nodes, filters, raw[k], true);
        let count = node_filters(nodes[node], filters).len();
        let at = lemma_recorded_text(nodes[node], filters, node as nat, count, raw[k]);
        assert(row_valid(nodes[node], filters));
        lemma_columns_of_table(filters, nodes[node].table.table_oid, filters.len());
        let column = node_filters(nodes[node], filters)[at];
        lemma_raw_text(column as nat, raw[k].value, node as nat);
        lemma_pair_read(column as nat, node as nat, record.value);
        (node, at)
    }
}

/// A staged text of a node is told by its token.
proof fn lemma_text_told(
    raw: Seq<RecordView>,
    nodes: Seq<SourceNode>,
    filters: Seq<RegisteredFilterColumn>,
    records: Seq<RecordView>,
    dictionary: Seq<RecordView>,
    node: int,
    at: int,
)
    requires
        text_runs_of(
            raw,
            all_texts(nodes, filters),
            all_values(nodes, filters),
            records,
            dictionary,
        ),
        rows_valid(nodes, filters),
        nodes.len() <= u32::MAX,
        filters_valid(filters, records, dictionary, nodes.len()),
        0 <= node < nodes.len(),
        0 <= at < node_filters(nodes[node], filters).len(),
        node_value(nodes[node], filters, at) matches Some(ScannedFilterValue::Text(_)),
        column_domain(filters[node_filters(nodes[node], filters)[at]]) == Some(
            FilterColumnType::Text,
        ),
    ensures
        ({
            let column = node_filters(nodes[node], filters)[at];
            let text = node_value(nodes[node], filters, at)->Some_0->Text_0;
            row_value(records, FilterColumnType::Text, column, node) matches Some(
                EncodedFilterValue::Text(token),
            ) && token < column_texts(dictionary, column).len() && column_texts(
                dictionary,
                column,
            )[token as int] == text@
        }),
{
    let column = node_filters(nodes[node], filters)[at];
    let text = node_value(nodes[node], filters, at)->Some_0->Text_0;
    let texts = all_texts(nodes, filters);
    let count = node_filters(nodes[node], filters).len();
    assert(row_valid(nodes[node], filters));
    lemma_columns_of_table(filters, nodes[node].table.table_oid, filters.len());
    let staged = dictionary_record(column as nat, encode_utf8(text@), node as nat);
    lemma_value_recorded(nodes[node], filters, node as nat, count, at);
    lemma_node_recorded(nodes, filters, node, staged);
    lemma_copy_holds(raw, texts, staged);
    let k = choose|k: int| 0 <= k < raw.len() && raw[k] == staged;
    lemma_raw_text(column as nat, encode_utf8(text@), node as nat);
    let token = text_token(raw, k as nat);
    assert(raw[k].key.len() >= 9);
    let value = ScannedFilterValue::TextToken(token as u32);
    let record = filter_record(column as nat, node as nat, value);
    let tokens = token_values(raw, raw.len());
    let values = all_values(nodes, filters);
    assert(tokens[k] == record);
    assert((values + tokens)[values.len() + k] == record);
    lemma_copy_holds(records, values + tokens, record);
    let place = choose|place: int| 0 <= place < records.len() && records[place] == record;
    law_filter_record_reads_back(column as u32, node as u32, value, FilterColumnType::Text);
    lemma_row_read(records, FilterColumnType::Text, column, node, place);
    lemma_token_recorded(raw, raw.len(), k);
    let entry = token_record(raw, k);
    lemma_copy_holds(dictionary, token_texts(raw, raw.len()), entry);
    let p = choose|p: int| 0 <= p < dictionary.len() && dictionary[p] == entry;
    lemma_pair_read(column as nat, token, entry.value);
    assert(crate::direct_filters::text_valid(
        dictionary,
        crate::direct_filters::domains_of(filters),
        p,
    ));
    lemma_column_value(dictionary, column, p);
    encode_utf8_decode_utf8(text@);
}

/// Runs of scanned tables tell each node's filter values: in each column of the
/// node's table the fetched value at the column's place among them, and in every
/// other column none.
#[verifier::spinoff_prover]
#[verifier::rlimit(60)]
pub proof fn law_scanned_rows_tell_filter_values(
    runs: PersistedSourceRuns,
    tables: Seq<RegisteredTable>,
    nodes: Seq<SourceNode>,
    edges: Seq<RegisteredEdge>,
    filters: Seq<RegisteredFilterColumn>,
    node: int,
    column: int,
)
    requires
        source_runs_of(runs, tables, nodes, edges, filters),
        rows_valid(nodes, filters),
        filters_valid(
            filters,
            owned_view(runs.filters),
            owned_view(runs.filter_dictionary),
            nodes.len(),
        ),
        nodes.len() <= u32::MAX,
        0 <= node < nodes.len(),
        0 <= column < filters.len(),
    ensures
        ({
            let image = run_image(
                filters,
                owned_view(runs.filters),
                owned_view(runs.filter_dictionary),
                nodes.len(),
                column,
            );
            let table = nodes[node].table.table_oid;
            if filters[column].table_oid == table {
                image_tells(
                    image,
                    node,
                    nodes[node].row.filters@[columns_before(
                        filters,
                        table,
                        column as nat,
                    ) as int],
                )
            } else {
                image.values[node] is None
            }
        }),
{
    let records = owned_view(runs.filters);
    let dictionary = owned_view(runs.filter_dictionary);
    let domain = column_domain(filters[column])->Some_0;
    let table = nodes[node].table.table_oid;
    let raw = choose|raw: Seq<RecordView>| #[trigger]
        text_runs_of(
            raw,
            all_texts(nodes, filters),
            all_values(nodes, filters),
            records,
            dictionary,
        );
    assert(row_valid(nodes[node], filters));
    lemma_columns_of_table(filters, table, filters.len());
    let positions = node_filters(nodes[node], filters);
    let at = columns_before(filters, table, column as nat) as int;
    assert(column_domain(filters[column]) is Some);
    if filters[column].table_oid == table {
        assert(positions[at] == column);
        let cell = nodes[node].row.filters@[at];
        assert(cell_valid(cell, domain));
        match node_value(nodes[node], filters, at) {
            Some(ScannedFilterValue::Text(_)) => {
                lemma_text_told(raw, nodes, filters, records, dictionary, node, at);
            },
            Some(value) => {
                let record = filter_record(column as nat, node as nat, value);
                let values = all_values(nodes, filters);
                let all = values + token_values(raw, raw.len());
                lemma_value_recorded(nodes[node], filters, node as nat, positions.len(), at);
                lemma_node_recorded(nodes, filters, node, record);
                let i = choose|i: int| 0 <= i < values.len() && values[i] == record;
                assert(all[i] == record);
                lemma_copy_holds(records, all, record);
                let place = choose|place: int|
                    0 <= place < records.len() && records[place] == record;
                law_filter_record_reads_back(column as u32, node as u32, value, domain);
                lemma_row_read(records, domain, column, node, place);
            },
            None => {},
        }
    }
    if filters[column].table_oid != table || node_value(nodes[node], filters, at) is None {
        if exists|place: int| is_row(records, place, column, node) {
            let place = choose|place: int| is_row(records, place, column, node);
            let from = lemma_row_origin(raw, nodes, filters, records, dictionary, place);
            assert(positions[from.1] == column);
            assert(columns_before(filters, table, positions[from.1] as nat) == from.1);
        }
    }
}

/// Whether a byte string holds no zero.
pub open spec fn without_zeros(bytes: Seq<u8>) -> bool {
    forall|i: int| 0 <= i < bytes.len() ==> #[trigger] bytes[i] != 0
}

/// Byte strings without zeros sort as they do with a zero and more behind them.
proof fn lemma_ended_order(left: Seq<u8>, right: Seq<u8>, left_rest: Seq<u8>, right_rest: Seq<u8>)
    requires
        without_zeros(left),
        without_zeros(right),
        lex_less(left, right),
    ensures
        lex_less(left + seq![0u8] + left_rest, right + seq![0u8] + right_rest),
    decreases left.len(),
{
    let whole_left = left + seq![0u8] + left_rest;
    let whole_right = right + seq![0u8] + right_rest;
    assert(whole_right[0] == right[0]);
    assert(right[0] != 0);
    if left.len() == 0 {
        assert(whole_left[0] == 0);
    } else {
        assert(whole_left[0] == left[0]);
        if left[0] == right[0] {
            assert forall|i: int| 0 <= i < left.len() - 1 implies #[trigger] left.drop_first()[i]
                != 0 by {
                assert(left[i + 1] != 0);
            }
            assert forall|i: int| 0 <= i < right.len() - 1 implies #[trigger] right.drop_first()[i]
                != 0 by {
                assert(right[i + 1] != 0);
            }
            lemma_ended_order(left.drop_first(), right.drop_first(), left_rest, right_rest);
            assert(whole_left.drop_first() =~= left.drop_first() + seq![0u8] + left_rest);
            assert(whole_right.drop_first() =~= right.drop_first() + seq![0u8] + right_rest);
        }
    }
}

/// The tenant that a node has.
pub open spec fn tenant_of(node: SourceNode) -> Option<Seq<u8>> {
    match node.row.tenant {
        Some(tenant) => if node.table.tenant_column is Some {
            Some(encode_utf8(tenant@))
        } else {
            None
        },
        None => None,
    }
}

/// A node with a tenant has its record, and each record is that of such a node.
proof fn lemma_tenant_recorded(nodes: Seq<SourceNode>, node: int)
    requires
        0 <= node < nodes.len(),
        tenant_of(nodes[node]) is Some,
    ensures
        all_tenants(nodes).contains(
            tenant_record(tenant_of(nodes[node])->Some_0, node as nat),
        ),
    decreases nodes.len(),
{
    let shorter = all_tenants(nodes.drop_last());
    let record = tenant_record(tenant_of(nodes[node])->Some_0, node as nat);
    if node == nodes.len() - 1 {
        assert(all_tenants(nodes)[shorter.len() as int] == record);
    } else {
        lemma_tenant_recorded(nodes.drop_last(), node);
        let i = choose|i: int| 0 <= i < shorter.len() && shorter[i] == record;
        assert(all_tenants(nodes)[i] == record);
    }
}

proof fn lemma_recorded_tenant(nodes: Seq<SourceNode>, record: RecordView) -> (node: int)
    requires
        all_tenants(nodes).contains(record),
    ensures
        0 <= node < nodes.len(),
        tenant_of(nodes[node]) is Some,
        record == tenant_record(tenant_of(nodes[node])->Some_0, node as nat),
    decreases nodes.len(),
{
    let all = all_tenants(nodes);
    let shorter = all_tenants(nodes.drop_last());
    let i = choose|i: int| 0 <= i < all.len() && all[i] == record;
    if i < shorter.len() {
        assert(shorter[i] == record);
        lemma_recorded_tenant(nodes.drop_last(), record)
    } else {
        nodes.len() - 1
    }
}

/// A staged tenant tells its node.
proof fn lemma_raw_tenant(tenant: Seq<u8>, node: nat)
    requires
        node <= u32::MAX,
    ensures
        raw_node(tenant_record(tenant, node)) == node,
{
    let key = tenant_record(tenant, node).key;
    lemma_radix_values();
    lemma_be_len(node, 4);
    law_be_read_gives_back_write(node, 4);
    assert(key.subrange(key.len() - 4, key.len() as int) =~= be_bytes(node, 4));
}

/// Names are counted by tokens, and rise.
proof fn lemma_names_rise(raw: Seq<RecordView>, count: nat)
    requires
        count <= raw.len(),
        forall|i: int| 0 < i < raw.len() ==> raw[i - 1].value == (#[trigger] raw[i]).value
            || lex_less(raw[i - 1].value, raw[i].value),
    ensures
        ({
            let names = tenant_names(raw, count);
            &&& count > 0 ==> names.len() == tenant_token(raw, (count - 1) as nat)
            &&& count > 0 ==> names.len() > 0 && names.last().value == raw[count - 1].value
            &&& forall|i: int| 0 <= i < names.len() ==> (#[trigger] names[i]).key == names[i].value
            &&& forall|i: int, j: int|
                0 <= i < j < names.len() ==> lex_less(
                    (#[trigger] names[i]).value,
                    (#[trigger] names[j]).value,
                )
        }),
    decreases count,
{
    if count > 0 {
        let shorter = tenant_names(raw, (count - 1) as nat);
        lemma_names_rise(raw, (count - 1) as nat);
        let names = tenant_names(raw, count);
        if count > 1 && tenant_fresh(raw, count - 1) {
            assert(lex_less(raw[count - 2].value, raw[count - 1].value));
            assert forall|i: int, j: int| 0 <= i < j < names.len() implies lex_less(
                (#[trigger] names[i]).value,
                (#[trigger] names[j]).value,
            ) by {
                if j == shorter.len() {
                    if i < shorter.len() - 1 {
                        assert(lex_less(shorter[i].value, shorter[shorter.len() - 1].value));
                        lemma_lex_transitive(
                            shorter[i].value,
                            shorter.last().value,
                            raw[count - 1].value,
                        );
                    } else {
                        assert(names[i] == shorter.last());
                    }
                } else {
                    assert(lex_less(shorter[i].value, shorter[j].value));
                }
            }
        }
    }
}

/// Names do not change when more come.
proof fn lemma_names_stay(raw: Seq<RecordView>, small: nat, large: nat)
    requires
        small <= large <= raw.len(),
    ensures
        tenant_names(raw, small).len() <= tenant_names(raw, large).len(),
        forall|i: int|
            0 <= i < tenant_names(raw, small).len() ==> #[trigger] tenant_names(raw, large)[i]
                == tenant_names(raw, small)[i],
    decreases large,
{
    if small < large {
        lemma_names_stay(raw, small, (large - 1) as nat);
    }
}

/// A list that rises repeats nothing.
proof fn lemma_rising_unrepeated(list: Seq<Seq<u8>>)
    requires
        forall|i: int, j: int|
            0 <= i < j < list.len() ==> lex_less(#[trigger] list[i], #[trigger] list[j]),
    ensures
        without_repeats(list) == list,
    decreases list.len(),
{
    if list.len() > 0 {
        let shorter = list.drop_last();
        assert forall|i: int, j: int| 0 <= i < j < shorter.len() implies lex_less(
            #[trigger] shorter[i],
            #[trigger] shorter[j],
        ) by {
            assert(lex_less(list[i], list[j]));
        }
        lemma_rising_unrepeated(shorter);
        if list.len() > 1 {
            assert(lex_less(list[list.len() - 2], list[list.len() - 1]));
            lemma_lex_irreflexive(list.last());
        }
        assert(shorter.push(list.last()) =~= list);
    }
}

/// Staged tenants without zeros are grouped, and the groups rise.
proof fn lemma_tenants_grouped(raw: Seq<RecordView>, nodes: Seq<SourceNode>)
    requires
        sorted_copy(raw, all_tenants(nodes)),
        forall|i: int|
            0 <= i < nodes.len() ==> (tenant_of(#[trigger] nodes[i]) matches Some(tenant)
                ==> without_zeros(tenant)),
    ensures
        forall|i: int| 0 < i < raw.len() ==> raw[i - 1].value == (#[trigger] raw[i]).value
            || lex_less(raw[i - 1].value, raw[i].value),
{
    assert forall|i: int| 0 < i < raw.len() implies raw[i - 1].value == (#[trigger] raw[i]).value
        || lex_less(raw[i - 1].value, raw[i].value) by {
        let (left, right) = (raw[i - 1], raw[i]);
        lemma_copy_holds(raw, all_tenants(nodes), left);
        lemma_copy_holds(raw, all_tenants(nodes), right);
        let a = lemma_recorded_tenant(nodes, left);
        let b = lemma_recorded_tenant(nodes, right);
        assert(without_zeros(tenant_of(nodes[a])->Some_0));
        assert(without_zeros(tenant_of(nodes[b])->Some_0));
        lemma_lex_total(left.value, right.value);
        if lex_less(right.value, left.value) {
            lemma_ended_order(
                right.value,
                left.value,
                be_bytes(b as nat, 4),
                be_bytes(a as nat, 4),
            );
            assert(crate::run_records::record_less(right, left));
        }
    }
}

/// Runs of scanned tables tell each node's tenant: a node whose table has a
/// tenant column and whose row has a tenant has the token, counted from one, of
/// that tenant in the dictionary, and every other node has none. Tenants are
/// texts without zero bytes.
#[verifier::spinoff_prover]
pub proof fn law_scanned_rows_tell_tenants(
    runs: PersistedSourceRuns,
    tables: Seq<RegisteredTable>,
    nodes: Seq<SourceNode>,
    edges: Seq<RegisteredEdge>,
    filters: Seq<RegisteredFilterColumn>,
    node: int,
)
    requires
        source_runs_of(runs, tables, nodes, edges, filters),
        nodes.len() <= u32::MAX,
        forall|i: int|
            0 <= i < nodes.len() ==> (tenant_of(#[trigger] nodes[i]) matches Some(tenant)
                ==> without_zeros(tenant)),
        0 <= node < nodes.len(),
    ensures
        ({
            let token = node_token(owned_view(runs.tenant_tokens), node);
            let names = without_repeats(record_values(owned_view(runs.tenant_dictionary)));
            match tenant_of(nodes[node]) {
                Some(tenant) => 1 <= token <= names.len() && names[token - 1] == tenant,
                None => token == 0,
            }
        }),
{
    let tokens = owned_view(runs.tenant_tokens);
    let dictionary = owned_view(runs.tenant_dictionary);
    let raw = choose|raw: Seq<RecordView>| #[trigger]
        tenant_runs_of(raw, all_tenants(nodes), tokens, dictionary);
    let list = tenant_values(raw, raw.len());
    let names = tenant_names(raw, raw.len());
    lemma_tenants_grouped(raw, nodes);
    lemma_names_rise(raw, raw.len());
    assert(records_ordered(names)) by {
        assert forall|i: int, j: int| 0 <= i < j < names.len() implies !record_less(
            #[trigger] names[j],
            #[trigger] names[i],
        ) by {
            assert(lex_less(names[i].value, names[j].value));
            lemma_lex_irreflexive(names[i].value);
            if lex_less(names[j].value, names[i].value) {
                lemma_lex_transitive(names[i].value, names[j].value, names[i].value);
            }
        }
    }
    lemma_sorted_copy_unique(dictionary, names, names);
    let values = record_values(dictionary);
    assert forall|i: int, j: int| 0 <= i < j < values.len() implies lex_less(
        #[trigger] values[i],
        #[trigger] values[j],
    ) by {
        assert(lex_less(names[i].value, names[j].value));
    }
    lemma_rising_unrepeated(values);
    if exists|at: int| token_at(tokens, at, node) {
        let at = choose|at: int| token_at(tokens, at, node);
        lemma_copy_holds(tokens, list, tokens[at]);
        let k = choose|k: int| 0 <= k < list.len() && list[k] == tokens[at];
        lemma_copy_holds(raw, all_tenants(nodes), raw[k]);
        let from = lemma_recorded_tenant(nodes, raw[k]);
        lemma_raw_tenant(raw[k].value, from as nat);
        lemma_radix_values();
        law_be_read_gives_back_write(from as nat, 4);
        assert(from == node);
        let token = tenant_token(raw, k as nat);
        assert(raw[k].key.len() >= 5);
        law_le_read_gives_back_write(token, 4);
        lemma_le_len(token, 4);
        assert(tokens[at].value.subrange(0, 4) =~= tokens[at].value);
        lemma_names_rise(raw, (k + 1) as nat);
        lemma_names_stay(raw, (k + 1) as nat, raw.len());
        assert(tenant_names(raw, (k + 1) as nat).last() == names[token - 1]);
        assert(values[token - 1] == names[token - 1].value);
    } else if tenant_of(nodes[node]) is Some {
        let staged = tenant_record(tenant_of(nodes[node])->Some_0, node as nat);
        lemma_tenant_recorded(nodes, node);
        lemma_copy_holds(raw, all_tenants(nodes), staged);
        let k = choose|k: int| 0 <= k < raw.len() && raw[k] == staged;
        lemma_raw_tenant(staged.value, node as nat);
        assert(list.contains(list[k]));
        lemma_copy_holds(tokens, list, list[k]);
        let at = choose|at: int| 0 <= at < tokens.len() && tokens[at] == list[k];
        lemma_radix_values();
        law_be_read_gives_back_write(node as nat, 4);
        assert(token_at(tokens, at, node));
    }
}

/// The tables whose nodes have tenants are those that name a tenant column, and a
/// graph has weights, or edges that lead one way only, if a relationship does.
pub proof fn law_scan_knows_its_catalog(
    runs: PersistedSourceRuns,
    tables: Seq<RegisteredTable>,
    nodes: Seq<SourceNode>,
    edges: Seq<RegisteredEdge>,
    filters: Seq<RegisteredFilterColumn>,
    table: int,
    edge: int,
    oid: u32,
)
    requires
        source_runs_of(runs, tables, nodes, edges, filters),
        0 <= table < tables.len(),
        0 <= edge < edges.len(),
    ensures
        tables[table].tenant_column is Some ==> runs.tenanted_table_oids@.contains(
            tables[table].table_oid,
        ),
        (forall|i: int|
            0 <= i < tables.len() && (#[trigger] tables[i]).table_oid == oid
                ==> tables[i].tenant_column is None) ==> !runs.tenanted_table_oids@.contains(oid),
        edges[edge].weight_column is Some ==> runs.has_forward_weights,
        !edges[edge].bidirectional ==> runs.has_unidirectional_edges,
        (forall|i: int| 0 <= i < edges.len() ==> (#[trigger] edges[i]).weight_column is None)
            ==> !runs.has_forward_weights,
        (forall|i: int| 0 <= i < edges.len() ==> (#[trigger] edges[i]).bidirectional)
            ==> !runs.has_unidirectional_edges,
        runs.node_count == nodes.len(),
{
    if tables[table].tenant_column is Some {
        assert(crate::scan_sources::tenanted(tables, tables[table].table_oid));
    }
}

} // verus!
