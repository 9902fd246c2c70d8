//! Scans of the same rows give the same runs, however the rows are stored and
//! batched.
use vstd::prelude::*;
use vstd::relations::{sorted_by, total_ordering};

use crate::direct_filters::RegisteredFilterColumn;
use crate::direct_sections::strictly_sorted;
use crate::raw_edges::PersistedEdgeRuns;
use crate::run_records::{lemma_record_order, record_less, sorted_copy, RecordView};
use crate::scan_edges::{edge_scan_of, label_views, EdgeRow};
use crate::scan_rows::{
    all_nodes, all_resolution, all_tenants, all_texts, all_values, node_filters, row_valid,
    rows_valid, source_key, table_nodes, text_records, value_records, RowView, SourceNode,
    SourceRow,
};
use crate::scan_sources::{
    owned_view, scan_nodes, source_runs_of, tenant_runs_of, tenanted, text_runs_of,
    PersistedSourceRuns,
};
use crate::scan_sql::{RegisteredEdge, RegisteredTable};

verus! {

/// A list has one sorted copy.
pub proof fn lemma_sorted_copy_unique(
    left: Seq<RecordView>,
    right: Seq<RecordView>,
    list: Seq<RecordView>,
)
    requires
        sorted_copy(left, list),
        sorted_copy(right, list),
    ensures
        left == right,
{
    let before = |a: RecordView, b: RecordView| !record_less(b, a);
    assert(total_ordering(before)) by {
        assert forall|a: RecordView| #[trigger] before(a, a) by {
            lemma_record_order(a, a, a);
        }
        assert forall|a: RecordView, b: RecordView| #[trigger] before(a, b) && #[trigger] before(
            b,
            a,
        ) implies a == b by {
            lemma_record_order(a, b, a);
        }
        assert forall|a: RecordView, b: RecordView, c: RecordView| #[trigger] before(a, b)
            && #[trigger] before(b, c) implies before(a, c) by {
            lemma_record_order(a, b, c);
        }
        assert forall|a: RecordView, b: RecordView| #[trigger] before(a, b) || #[trigger] before(
            b,
            a,
        ) by {
            lemma_record_order(a, b, a);
        }
    }
    assert(sorted_by(left, before));
    assert(sorted_by(right, before));
    vstd::seq_lib::lemma_sorted_unique(left, right, before);
}

/// A strictly sorted list is determined by what it holds.
proof fn lemma_strictly_sorted_unique(left: Seq<u32>, right: Seq<u32>)
    requires
        strictly_sorted(left),
        strictly_sorted(right),
        forall|item: u32| #[trigger] left.contains(item) <==> right.contains(item),
    ensures
        left == right,
    decreases left.len(),
{
    if left.len() == 0 {
        if right.len() > 0 {
            assert(right.contains(right[0]));
            assert(left.contains(right[0]));
        }
        assert(left =~= right);
    } else {
        assert(left.contains(left.last()));
        assert(right.contains(left.last()));
        assert(right.contains(right.last()));
        assert(left.contains(right.last()));
        let in_right = choose|i: int| 0 <= i < right.len() && right[i] == left.last();
        let in_left = choose|i: int| 0 <= i < left.len() && left[i] == right.last();
        assert(left.last() == right.last());
        let less = left.drop_last();
        let fewer = right.drop_last();
        assert forall|item: u32| #[trigger] less.contains(item) <==> fewer.contains(item) by {
            if less.contains(item) {
                let i = choose|i: int| 0 <= i < less.len() && less[i] == item;
                assert(left[i] == item && item < left.last());
                assert(left.contains(item));
                let j = choose|j: int| 0 <= j < right.len() && right[j] == item;
                assert(fewer[j] == item);
            }
            if fewer.contains(item) {
                let i = choose|i: int| 0 <= i < fewer.len() && fewer[i] == item;
                assert(right[i] == item && item < right.last());
                assert(right.contains(item));
                assert(left.contains(item));
                let j = choose|j: int| 0 <= j < left.len() && left[j] == item;
                assert(less[j] == item);
            }
        }
        lemma_strictly_sorted_unique(less, fewer);
        assert(left =~= less.push(left.last()));
        assert(right =~= fewer.push(right.last()));
    }
}

/// Whether two scans of sources gave the same runs, record by record.
pub open spec fn same_source_runs(left: PersistedSourceRuns, right: PersistedSourceRuns) -> bool {
    &&& left.node_count == right.node_count
    &&& left.tenanted_table_oids@ == right.tenanted_table_oids@
    &&& left.has_forward_weights == right.has_forward_weights
    &&& left.has_unidirectional_edges == right.has_unidirectional_edges
    &&& owned_view(left.nodes) == owned_view(right.nodes)
    &&& owned_view(left.resolution) == owned_view(right.resolution)
    &&& owned_view(left.filters) == owned_view(right.filters)
    &&& owned_view(left.filter_dictionary) == owned_view(right.filter_dictionary)
    &&& owned_view(left.tenant_tokens) == owned_view(right.tenant_tokens)
    &&& owned_view(left.tenant_dictionary) == owned_view(right.tenant_dictionary)
}

/// Two scans of the same rows, each with its own batch size and merge fanout,
/// give the same runs.
pub proof fn law_source_runs_are_batch_independent(
    left: PersistedSourceRuns,
    right: PersistedSourceRuns,
    tables: Seq<RegisteredTable>,
    nodes: Seq<SourceNode>,
    edges: Seq<RegisteredEdge>,
    filters: Seq<RegisteredFilterColumn>,
)
    requires
        source_runs_of(left, tables, nodes, edges, filters),
        source_runs_of(right, tables, nodes, edges, filters),
    ensures
        same_source_runs(left, right),
{
    lemma_sorted_copy_unique(
        owned_view(left.resolution),
        owned_view(right.resolution),
        all_resolution(nodes),
    );
    let texts = all_texts(nodes, filters);
    let values = all_values(nodes, filters);
    let raw = choose|raw: Seq<RecordView>| #[trigger]
        text_runs_of(
            raw,
            texts,
            values,
            owned_view(left.filters),
            owned_view(left.filter_dictionary),
        );
    let other = choose|raw: Seq<RecordView>| #[trigger]
        text_runs_of(
            raw,
            texts,
            values,
            owned_view(right.filters),
            owned_view(right.filter_dictionary),
        );
    lemma_sorted_copy_unique(raw, other, texts);
    lemma_sorted_copy_unique(
        owned_view(left.filters),
        owned_view(right.filters),
        values + crate::scan_sources::token_values(raw, raw.len()),
    );
    lemma_sorted_copy_unique(
        owned_view(left.filter_dictionary),
        owned_view(right.filter_dictionary),
        crate::scan_sources::token_texts(raw, raw.len()),
    );
    let tenants = all_tenants(nodes);
    let raw = choose|raw: Seq<RecordView>| #[trigger]
        tenant_runs_of(
            raw,
            tenants,
            owned_view(left.tenant_tokens),
            owned_view(left.tenant_dictionary),
        );
    let other = choose|raw: Seq<RecordView>| #[trigger]
        tenant_runs_of(
            raw,
            tenants,
            owned_view(right.tenant_tokens),
            owned_view(right.tenant_dictionary),
        );
    lemma_sorted_copy_unique(raw, other, tenants);
    lemma_sorted_copy_unique(
        owned_view(left.tenant_tokens),
        owned_view(right.tenant_tokens),
        crate::scan_sources::tenant_values(raw, raw.len()),
    );
    lemma_sorted_copy_unique(
        owned_view(left.tenant_dictionary),
        owned_view(right.tenant_dictionary),
        crate::scan_sources::tenant_names(raw, raw.len()),
    );
    assert forall|oid: u32| #[trigger] left.tenanted_table_oids@.contains(oid)
        <==> right.tenanted_table_oids@.contains(oid) by {
        assert(left.tenanted_table_oids@.contains(oid) <==> tenanted(tables, oid));
        assert(right.tenanted_table_oids@.contains(oid) <==> tenanted(tables, oid));
    }
    lemma_strictly_sorted_unique(left.tenanted_table_oids@, right.tenanted_table_oids@);
}

/// Whether nodes come of the same tables and of rows that hold the same.
pub open spec fn same_nodes(left: Seq<SourceNode>, right: Seq<SourceNode>) -> bool {
    &&& left.len() == right.len()
    &&& forall|i: int|
        0 <= i < left.len() ==> (#[trigger] left[i]).table == right[i].table && left[i].row@
            == right[i].row@
}

proof fn lemma_same_records(
    left: SourceNode,
    right: SourceNode,
    filters: Seq<RegisteredFilterColumn>,
    index: nat,
    count: nat,
)
    requires
        left.table == right.table,
        left.row@ == right.row@,
        count <= left.row.filters@.len(),
    ensures
        value_records(left, filters, index, count) == value_records(right, filters, index, count),
        text_records(left, filters, index, count) == text_records(right, filters, index, count),
    decreases count,
{
    if count > 0 {
        lemma_same_records(left, right, filters, index, (count - 1) as nat);
        let at = count - 1;
        assert(left.row@.filters.len() == left.row.filters@.len());
        assert(right.row@.filters.len() == right.row.filters@.len());
        assert(left.row@.filters[at] == left.row.filters@[at]@);
        assert(right.row@.filters[at] == right.row.filters@[at]@);
    }
}

proof fn lemma_same_lists(
    left: Seq<SourceNode>,
    right: Seq<SourceNode>,
    filters: Seq<RegisteredFilterColumn>,
)
    requires
        same_nodes(left, right),
        rows_valid(left, filters),
    ensures
        all_values(left, filters) == all_values(right, filters),
        all_texts(left, filters) == all_texts(right, filters),
        all_tenants(left) == all_tenants(right),
    decreases left.len(),
{
    if left.len() > 0 {
        let (less, fewer) = (left.drop_last(), right.drop_last());
        assert forall|i: int| 0 <= i < less.len() implies (#[trigger] less[i]).table
            == fewer[i].table && less[i].row@ == fewer[i].row@ by {
            assert(left[i].row@ == right[i].row@);
        }
        assert forall|i: int| 0 <= i < less.len() implies row_valid(
            #[trigger] less[i],
            filters,
        ) by {
            assert(row_valid(left[i], filters));
        }
        lemma_same_lists(less, fewer, filters);
        let last = left.len() - 1;
        assert(row_valid(left[last], filters));
        assert(left[last].row@ == right[last].row@);
        lemma_same_records(
            left[last],
            right[last],
            filters,
            last as nat,
            node_filters(left[last], filters).len(),
        );
    }
}

/// The rows of a table that have a key.
pub open spec fn keyed_rows(rows: Seq<SourceRow>, count: nat) -> Seq<RowView>
    decreases count,
{
    if count == 0 {
        Seq::empty()
    } else if rows[count - 1].primary_key is Some {
        keyed_rows(rows, (count - 1) as nat).push(rows[count - 1]@)
    } else {
        keyed_rows(rows, (count - 1) as nat)
    }
}

/// Whether rows with keys stand in increasing order of their keys.
pub open spec fn ascending(
    rows: Seq<RowView>,
    before: spec_fn(Seq<char>, Seq<char>) -> bool,
) -> bool {
    forall|i: int, j: int|
        0 <= i < j < rows.len() ==> before(
            (#[trigger] rows[i]).key->Some_0,
            (#[trigger] rows[j]).key->Some_0,
        )
}

/// Whether an order is strict.
pub open spec fn strict_order(before: spec_fn(Seq<char>, Seq<char>) -> bool) -> bool {
    &&& forall|a: Seq<char>| !#[trigger] before(a, a)
    &&& forall|a: Seq<char>, b: Seq<char>, c: Seq<char>| #[trigger]
        before(a, b) && #[trigger] before(b, c) ==> before(a, c)
}

/// Rows in increasing order are determined by which rows they are.
proof fn lemma_ascending_unique(
    left: Seq<RowView>,
    right: Seq<RowView>,
    before: spec_fn(Seq<char>, Seq<char>) -> bool,
)
    requires
        strict_order(before),
        ascending(left, before),
        ascending(right, before),
        forall|row: RowView| #[trigger] left.contains(row) <==> right.contains(row),
    ensures
        left == right,
    decreases left.len(),
{
    if left.len() == 0 {
        if right.len() > 0 {
            assert(right.contains(right[0]));
            assert(left.contains(right[0]));
        }
        assert(left =~= right);
    } else {
        assert(left.contains(left.last()));
        assert(right.contains(left.last()));
        assert(right.contains(right.last()));
        assert(left.contains(right.last()));
        let in_right = choose|i: int| 0 <= i < right.len() && right[i] == left.last();
        let in_left = choose|i: int| 0 <= i < left.len() && left[i] == right.last();
        let (l, r) = (left.last().key->Some_0, right.last().key->Some_0);
        if in_right < right.len() - 1 {
            assert(before(right[in_right].key->Some_0, right[right.len() - 1].key->Some_0));
            assert(before(l, r));
            if in_left < left.len() - 1 {
                assert(before(left[in_left].key->Some_0, left[left.len() - 1].key->Some_0));
                assert(before(r, l));
            }
            assert(before(l, l));
        }
        assert(left.last() == right.last());
        let less = left.drop_last();
        let fewer = right.drop_last();
        assert(ascending(less, before)) by {
            assert forall|i: int, j: int| 0 <= i < j < less.len() implies before(
                (#[trigger] less[i]).key->Some_0,
                (#[trigger] less[j]).key->Some_0,
            ) by {
                assert(before(left[i].key->Some_0, left[j].key->Some_0));
            }
        }
        assert(ascending(fewer, before)) by {
            assert forall|i: int, j: int| 0 <= i < j < fewer.len() implies before(
                (#[trigger] fewer[i]).key->Some_0,
                (#[trigger] fewer[j]).key->Some_0,
            ) by {
                assert(before(right[i].key->Some_0, right[j].key->Some_0));
            }
        }
        assert forall|row: RowView| #[trigger] less.contains(row) <==> fewer.contains(row) by {
            if less.contains(row) {
                let i = choose|i: int| 0 <= i < less.len() && less[i] == row;
                assert(before(left[i].key->Some_0, left[left.len() - 1].key->Some_0));
                assert(left[i] == row);
                assert(left.contains(row));
                assert(right.contains(row));
                let j = choose|j: int| 0 <= j < right.len() && right[j] == row;
                assert(fewer[j] == row);
            }
            if fewer.contains(row) {
                let i = choose|i: int| 0 <= i < fewer.len() && fewer[i] == row;
                assert(before(right[i].key->Some_0, right[right.len() - 1].key->Some_0));
                assert(right[i] == row);
                assert(right.contains(row));
                assert(left.contains(row));
                let j = choose|j: int| 0 <= j < left.len() && left[j] == row;
                assert(less[j] == row);
            }
        }
        lemma_ascending_unique(less, fewer, before);
        assert(left =~= less.push(left.last()));
        assert(right =~= fewer.push(right.last()));
    }
}

/// The nodes of a table are its rows with keys.
proof fn lemma_keyed_nodes(table: RegisteredTable, rows: Seq<SourceRow>, count: nat)
    ensures
        table_nodes(table, rows, count).len() == keyed_rows(rows, count).len(),
        forall|i: int|
            0 <= i < keyed_rows(rows, count).len() ==> {
                let node = #[trigger] table_nodes(table, rows, count)[i];
                node.table == table && node.row@ == keyed_rows(rows, count)[i]
            },
    decreases count,
{
    if count > 0 {
        lemma_keyed_nodes(table, rows, (count - 1) as nat);
    }
}

/// Whether the rows of two fetches of a table hold the same, each in increasing
/// order of the keys, whatever that order is. Rows without a key do not matter.
pub open spec fn same_rows(
    left: Seq<SourceRow>,
    right: Seq<SourceRow>,
    before: spec_fn(Seq<char>, Seq<char>) -> bool,
) -> bool {
    let (some, others) = (keyed_rows(left, left.len()), keyed_rows(right, right.len()));
    &&& ascending(some, before)
    &&& ascending(others, before)
    &&& forall|row: RowView| #[trigger] some.contains(row) <==> others.contains(row)
}

proof fn lemma_same_scan(
    tables: Seq<RegisteredTable>,
    rows: Seq<Vec<SourceRow>>,
    others: Seq<Vec<SourceRow>>,
    before: spec_fn(Seq<char>, Seq<char>) -> bool,
    count: nat,
)
    requires
        count <= tables.len(),
        rows.len() == tables.len(),
        others.len() == tables.len(),
        strict_order(before),
        forall|i: int|
            0 <= i < tables.len() ==> same_rows((#[trigger] rows[i])@, others[i]@, before),
    ensures
        same_nodes(scan_nodes(tables, rows, count), scan_nodes(tables, others, count)),
    decreases count,
{
    if count > 0 {
        let at = count - 1;
        lemma_same_scan(tables, rows, others, before, at as nat);
        let (own, other) = (rows[at]@, others[at]@);
        assert(same_rows(own, other, before));
        lemma_ascending_unique(
            keyed_rows(own, own.len()),
            keyed_rows(other, other.len()),
            before,
        );
        lemma_keyed_nodes(tables[at], own, own.len());
        lemma_keyed_nodes(tables[at], other, other.len());
        let (left, right) = (scan_nodes(tables, rows, count), scan_nodes(tables, others, count));
        let (first, second) = (
            scan_nodes(tables, rows, at as nat),
            scan_nodes(tables, others, at as nat),
        );
        let (more, rest) = (
            table_nodes(tables[at], own, own.len()),
            table_nodes(tables[at], other, other.len()),
        );
        assert forall|i: int| 0 <= i < left.len() implies (#[trigger] left[i]).table
            == right[i].table && left[i].row@ == right[i].row@ by {
            if i < first.len() {
                assert(left[i] == first[i] && right[i] == second[i]);
            } else {
                let k = i - first.len();
                assert(left[i] == more[k] && right[i] == rest[k]);
            }
        }
    }
}

/// Two scans of tables that hold the same rows, fetched in increasing order of
/// their keys, give the same runs: in whatever order the rows are stored, and
/// whatever the batch sizes and merge fanouts.
pub proof fn law_equal_rows_give_equal_runs(
    left: PersistedSourceRuns,
    right: PersistedSourceRuns,
    tables: Seq<RegisteredTable>,
    rows: Seq<Vec<SourceRow>>,
    others: Seq<Vec<SourceRow>>,
    edges: Seq<RegisteredEdge>,
    filters: Seq<RegisteredFilterColumn>,
    before: spec_fn(Seq<char>, Seq<char>) -> bool,
)
    requires
        rows.len() == tables.len(),
        others.len() == tables.len(),
        strict_order(before),
        forall|i: int|
            0 <= i < tables.len() ==> same_rows((#[trigger] rows[i])@, others[i]@, before),
        rows_valid(scan_nodes(tables, rows, tables.len()), filters),
        source_runs_of(left, tables, scan_nodes(tables, rows, tables.len()), edges, filters),
        source_runs_of(right, tables, scan_nodes(tables, others, tables.len()), edges, filters),
    ensures
        same_source_runs(left, right),
{
    let nodes = scan_nodes(tables, rows, tables.len());
    let copies = scan_nodes(tables, others, tables.len());
    lemma_same_scan(tables, rows, others, before, tables.len());
    lemma_same_lists(nodes, copies, filters);
    assert forall|i: int| 0 <= i < nodes.len() implies source_key(#[trigger] nodes[i])
        == source_key(copies[i]) && nodes[i].table == copies[i].table by {
        assert(nodes[i].row@ == copies[i].row@);
        lemma_node_has_key(tables, rows, tables.len(), i);
        lemma_node_has_key(tables, others, tables.len(), i);
    }
    assert(all_nodes(nodes) =~= all_nodes(copies));
    assert(all_resolution(nodes) =~= all_resolution(copies));
    assert(source_runs_of(right, tables, nodes, edges, filters));
    law_source_runs_are_batch_independent(left, right, tables, nodes, edges, filters);
}

/// A row that became a node has a key.
proof fn lemma_node_has_key(
    tables: Seq<RegisteredTable>,
    rows: Seq<Vec<SourceRow>>,
    count: nat,
    at: int,
)
    requires
        0 <= at < scan_nodes(tables, rows, count).len(),
    ensures
        scan_nodes(tables, rows, count)[at].row.primary_key is Some,
    decreases count,
{
    if count > 0 {
        let rest = scan_nodes(tables, rows, (count - 1) as nat);
        if at < rest.len() {
            lemma_node_has_key(tables, rows, (count - 1) as nat, at);
        } else {
            let own = rows[count - 1]@;
            lemma_row_has_key(tables[count - 1], own, own.len(), at - rest.len());
        }
    }
}

proof fn lemma_row_has_key(table: RegisteredTable, rows: Seq<SourceRow>, count: nat, at: int)
    requires
        0 <= at < table_nodes(table, rows, count).len(),
    ensures
        table_nodes(table, rows, count)[at].row.primary_key is Some,
    decreases count,
{
    if count > 0 && at < table_nodes(table, rows, (count - 1) as nat).len() {
        lemma_row_has_key(table, rows, (count - 1) as nat, at);
    }
}

/// Whether two scans of relationships gave the same runs, record by record, and
/// the same edge types.
pub open spec fn same_edge_runs(left: PersistedEdgeRuns, right: PersistedEdgeRuns) -> bool {
    &&& owned_view(left.forward) == owned_view(right.forward)
    &&& owned_view(left.inbound) == owned_view(right.inbound)
    &&& owned_view(left.identities) == owned_view(right.identities)
    &&& label_views(left.edge_type_registry@) == label_views(right.edge_type_registry@)
    &&& left.forward_edge_count == right.forward_edge_count
    &&& left.inbound_edge_count == right.inbound_edge_count
}

/// Two scans of the same relationship rows, each with its own batch size and
/// merge fanout, give the same runs.
pub proof fn law_edge_runs_are_batch_independent(
    left: PersistedEdgeRuns,
    right: PersistedEdgeRuns,
    raw: Seq<RecordView>,
    other: Seq<RecordView>,
    edges: Seq<RegisteredEdge>,
    rows: Seq<Vec<EdgeRow>>,
)
    requires
        edge_scan_of(left, raw, edges, rows),
        edge_scan_of(right, other, edges, rows),
    ensures
        same_edge_runs(left, right),
{
    lemma_sorted_copy_unique(raw, other, crate::scan_edges::edges_raw(edges, rows));
    let list = crate::raw_edges::forward_list(raw, raw.len());
    lemma_sorted_copy_unique(
        owned_view(left.forward),
        owned_view(right.forward),
        crate::raw_edges::edge_records(list),
    );
    lemma_sorted_copy_unique(
        owned_view(left.inbound),
        owned_view(right.inbound),
        crate::raw_edges::edge_records(crate::raw_edges::mirrored_all(list)),
    );
    lemma_sorted_copy_unique(
        owned_view(left.identities),
        owned_view(right.identities),
        crate::raw_edges::identity_list(raw, raw.len()),
    );
}

} // verus!
