//! Scanning of source rows: ordered runs of nodes, resolution entries, filter
//! values, texts and tenants.
use vstd::prelude::*;
use vstd::utf8::encode_utf8;

use crate::codec::{
    be_bytes, bytes_equal, law_be_order_is_numeric, le_bytes, lemma_be_len, lemma_radix_values,
    lex_less, push_be, push_bytes, push_le, read_be,
};
use crate::direct_edges::big_word;
use crate::direct_filters::RegisteredFilterColumn;
use crate::direct_sections::strictly_sorted;
use crate::errors::{corrupt, internal, ErrorView, GraphResult};
use crate::resource::{limit_error, GovernorView, ResourceGovernor, ResourceKind, ResourcePhase};
use crate::run_records::{
    keys_ordered, record_views, run_view, sorted_copy, RecordView, RunRecord, StagedRun,
};
use crate::scan_codec::{encode_filter_record, filter_record, ScannedFilterValue};
use crate::scan_rows::{
    all_nodes, all_resolution, all_tenants, all_texts, all_values, lemma_views_push, node_filters,
    row_valid, rows_valid, table_domains_valid, table_nodes, text_records, SourceNode, SourceRow,
    SourceScan,
};
use crate::scan_sql::{RegisteredEdge, RegisteredTable};

verus! {

/// The column of a staged text.
pub open spec fn raw_ordinal(record: RecordView) -> nat {
    big_word(record.key, 0, 4)
}

/// The node of a staged text or tenant: the last four bytes of the key.
pub open spec fn raw_node(record: RecordView) -> nat {
    big_word(record.key, record.key.len() - 4, 4)
}

/// Whether a staged text differs from the one before it.
pub open spec fn text_fresh(raw: Seq<RecordView>, at: int) -> bool {
    at == 0 || raw_ordinal(raw[at - 1]) != raw_ordinal(raw[at]) || raw[at - 1].value
        != raw[at].value
}

/// The token of a staged text: texts of a column are counted from zero.
pub open spec fn text_token(raw: Seq<RecordView>, at: nat) -> nat
    decreases at,
{
    if at == 0 || raw_ordinal(raw[at - 1]) != raw_ordinal(raw[at as int]) {
        0
    } else if text_fresh(raw, at as int) {
        text_token(raw, (at - 1) as nat) + 1
    } else {
        text_token(raw, (at - 1) as nat)
    }
}

/// Whether staged texts can be given tokens.
pub open spec fn texts_normal(raw: Seq<RecordView>) -> bool {
    forall|i: int|
        0 <= i < raw.len() ==> (#[trigger] raw[i]).key.len() >= 9 && text_token(raw, i as nat)
            <= u32::MAX
}

/// The dictionary records of the first staged texts: column, token and text.
pub open spec fn token_texts(raw: Seq<RecordView>, count: nat) -> Seq<RecordView>
    decreases count,
{
    if count == 0 {
        Seq::empty()
    } else {
        let rest = token_texts(raw, (count - 1) as nat);
        if text_fresh(raw, count - 1) {
            rest.push(
                RecordView {
                    key: be_bytes(raw_ordinal(raw[count - 1]), 4) + be_bytes(
                        text_token(raw, (count - 1) as nat),
                        4,
                    ),
                    value: raw[count - 1].value,
                },
            )
        } else {
            rest
        }
    }
}

/// The filter records of staged texts: each node has its text's token.
pub open spec fn token_values(raw: Seq<RecordView>, count: nat) -> Seq<RecordView> {
    Seq::new(
        count,
        |i: int|
            filter_record(
                raw_ordinal(raw[i]),
                raw_node(raw[i]),
                ScannedFilterValue::TextToken(text_token(raw, i as nat) as u32),
            ),
    )
}

/// Gives staged texts tokens. Returns the dictionary records and the filter
/// records.
#[verifier::spinoff_prover]
#[verifier::rlimit(60)]
pub fn normalize_text_filters(raw: Option<&StagedRun>) -> (result: GraphResult<
    (Vec<RunRecord>, Vec<RunRecord>),
>)
    ensures
        match result {
            Ok((dictionary, values)) => {
                let all = run_view(raw);
                &&& texts_normal(all)
                &&& record_views(dictionary@) == token_texts(all, all.len())
                &&& record_views(values@) == token_values(all, all.len())
            },
            Err(error) => {
                let all = run_view(raw);
                ||| error@ == ErrorView::CorruptFile("text dictionary key is truncated"@)
                    && exists|i: int| 0 <= i < all.len() && (#[trigger] all[i]).key.len() < 9
                ||| error@ == ErrorView::Internal("text filter dictionary exceeds u32 tokens"@)
                    && exists|i: nat| i < all.len() && #[trigger] text_token(all, i) > u32::MAX
            },
        },
{
    let mut dictionary: Vec<RunRecord> = Vec::new();
    let mut values: Vec<RunRecord> = Vec::new();
    let ghost all = run_view(raw);
    proof {
        assert(record_views(dictionary@) =~= token_texts(all, 0));
        assert(record_views(values@) =~= token_values(all, 0));
    }
    let staged: &StagedRun = match raw {
        Some(staged) => staged,
        None => return Ok((dictionary, values)),
    };
    let records: &Vec<RunRecord> = staged.records();
    let mut token: u32 = 0;
    let mut last_ordinal: u32 = 0;
    let mut at: usize = 0;
    while at < records.len()
        invariant
            at <= records@.len() == all.len(),
            all == run_view(raw),
            record_views(records@) == all,
            at > 0 ==> last_ordinal == raw_ordinal(all[at - 1]),
            at > 0 ==> token == text_token(all, (at - 1) as nat),
            forall|i: int|
                0 <= i < at ==> (#[trigger] all[i]).key.len() >= 9 && text_token(all, i as nat)
                    <= u32::MAX,
            record_views(dictionary@) == token_texts(all, at as nat),
            record_views(values@) == token_values(all, at as nat),
        decreases records@.len() - at,
    {
        assert(all[at as int] == records@[at as int]@);
        let record: &RunRecord = &records[at];
        let length: usize = record.key.len();
        if length < 9 {
            assert(all[at as int].key.len() < 9);
            return Err(corrupt("text dictionary key is truncated"));
        }
        proof {
            lemma_radix_values();
        }
        let ordinal: u32 = read_be(record.key.as_slice(), 0, 4) as u32;
        let node: u32 = read_be(record.key.as_slice(), length - 4, 4) as u32;
        assert(ordinal == raw_ordinal(all[at as int]));
        assert(node == raw_node(all[at as int]));
        let same_column: bool = at > 0 && last_ordinal == ordinal;
        let mut fresh: bool = true;
        if same_column {
            assert(all[at - 1] == records@[at - 1]@);
            fresh = !bytes_equal(records[at - 1].value.as_slice(), record.value.as_slice());
        }
        assert(fresh == text_fresh(all, at as int));
        if !same_column {
            token = 0;
        } else if fresh {
            if token == u32::MAX {
                assert(text_token(all, at as nat) > u32::MAX);
                assert(all[at as int].key.len() >= 9);
                return Err(internal("text filter dictionary exceeds u32 tokens"));
            }
            token = token + 1;
        }
        assert(token == text_token(all, at as nat));
        if fresh {
            let mut key: Vec<u8> = Vec::new();
            push_be(&mut key, ordinal as u128, 4);
            push_be(&mut key, token as u128, 4);
            let mut text: Vec<u8> = Vec::new();
            push_bytes(&mut text, record.value.as_slice());
            proof {
                assert(key@ =~= be_bytes(ordinal as nat, 4) + be_bytes(token as nat, 4));
                assert(text@ =~= all[at as int].value);
            }
            let entry: RunRecord = RunRecord::new(key, text);
            proof {
                lemma_views_push(dictionary@, entry);
            }
            dictionary.push(entry);
        }
        let value: RunRecord = match encode_filter_record(
            ordinal,
            node,
            &ScannedFilterValue::TextToken(token),
        ) {
            Ok(record) => record,
            Err(error) => return Err(error),
        };
        proof {
            lemma_views_push(values@, value);
            assert(token_values(all, (at + 1) as nat) =~= token_values(all, at as nat).push(
                value@,
            ));
        }
        values.push(value);
        last_ordinal = ordinal;
        at = at + 1;
    }
    Ok((dictionary, values))
}

/// Whether a staged tenant differs from the one before it.
pub open spec fn tenant_fresh(raw: Seq<RecordView>, at: int) -> bool {
    at == 0 || raw[at - 1].value != raw[at].value
}

/// The token of a staged tenant: tenants are counted from one.
pub open spec fn tenant_token(raw: Seq<RecordView>, at: nat) -> nat
    decreases at,
{
    if at == 0 {
        1
    } else if tenant_fresh(raw, at as int) {
        tenant_token(raw, (at - 1) as nat) + 1
    } else {
        tenant_token(raw, (at - 1) as nat)
    }
}

/// Whether staged tenants can be given tokens.
pub open spec fn tenants_normal(raw: Seq<RecordView>) -> bool {
    forall|i: int|
        0 <= i < raw.len() ==> (#[trigger] raw[i]).key.len() >= 5 && tenant_token(raw, i as nat)
            <= u32::MAX
}

/// The distinct tenants among the first staged ones.
pub open spec fn tenant_names(raw: Seq<RecordView>, count: nat) -> Seq<RecordView>
    decreases count,
{
    if count == 0 {
        Seq::empty()
    } else {
        let rest = tenant_names(raw, (count - 1) as nat);
        if tenant_fresh(raw, count - 1) {
            rest.push(RecordView { key: raw[count - 1].value, value: raw[count - 1].value })
        } else {
            rest
        }
    }
}

/// The tenant token of each node that has a tenant.
pub open spec fn tenant_values(raw: Seq<RecordView>, count: nat) -> Seq<RecordView> {
    Seq::new(
        count,
        |i: int|
            RecordView {
                key: be_bytes(raw_node(raw[i]), 4),
                value: le_bytes(tenant_token(raw, i as nat), 4),
            },
    )
}

/// Gives staged tenants tokens. Returns the dictionary records and the token
/// records.
pub fn normalize_tenant_tokens(raw: Option<&StagedRun>) -> (result: GraphResult<
    (Vec<RunRecord>, Vec<RunRecord>),
>)
    ensures
        match result {
            Ok((dictionary, values)) => {
                let all = run_view(raw);
                &&& tenants_normal(all)
                &&& record_views(dictionary@) == tenant_names(all, all.len())
                &&& record_views(values@) == tenant_values(all, all.len())
            },
            Err(error) => {
                let all = run_view(raw);
                ||| error@ == ErrorView::CorruptFile("tenant dictionary key is truncated"@)
                    && exists|i: int| 0 <= i < all.len() && (#[trigger] all[i]).key.len() < 5
                ||| error@ == ErrorView::Internal("tenant dictionary exceeds u32 tokens"@)
                    && exists|i: nat| i < all.len() && #[trigger] tenant_token(all, i) > u32::MAX
            },
        },
{
    let mut dictionary: Vec<RunRecord> = Vec::new();
    let mut values: Vec<RunRecord> = Vec::new();
    let ghost all = run_view(raw);
    proof {
        assert(record_views(dictionary@) =~= tenant_names(all, 0));
        assert(record_views(values@) =~= tenant_values(all, 0));
    }
    let staged: &StagedRun = match raw {
        Some(staged) => staged,
        None => return Ok((dictionary, values)),
    };
    let records: &Vec<RunRecord> = staged.records();
    let mut token: u32 = 0;
    let mut at: usize = 0;
    while at < records.len()
        invariant
            at <= records@.len() == all.len(),
            all == run_view(raw),
            record_views(records@) == all,
            at == 0 ==> token == 0,
            at > 0 ==> token == tenant_token(all, (at - 1) as nat),
            forall|i: int|
                0 <= i < at ==> (#[trigger] all[i]).key.len() >= 5 && tenant_token(all, i as nat)
                    <= u32::MAX,
            record_views(dictionary@) == tenant_names(all, at as nat),
            record_views(values@) == tenant_values(all, at as nat),
        decreases records@.len() - at,
    {
        assert(all[at as int] == records@[at as int]@);
        let record: &RunRecord = &records[at];
        let length: usize = record.key.len();
        if length < 5 {
            assert(all[at as int].key.len() < 5);
            return Err(corrupt("tenant dictionary key is truncated"));
        }
        proof {
            lemma_radix_values();
        }
        let mut fresh: bool = true;
        if at > 0 {
            assert(all[at - 1] == records@[at - 1]@);
            fresh = !bytes_equal(records[at - 1].value.as_slice(), record.value.as_slice());
        }
        assert(fresh == tenant_fresh(all, at as int));
        if fresh {
            if token == u32::MAX {
                assert(tenant_token(all, at as nat) > u32::MAX);
                assert(all[at as int].key.len() >= 5);
                return Err(internal("tenant dictionary exceeds u32 tokens"));
            }
            token = token + 1;
            let mut key: Vec<u8> = Vec::new();
            push_bytes(&mut key, record.value.as_slice());
            let mut name: Vec<u8> = Vec::new();
            push_bytes(&mut name, record.value.as_slice());
            proof {
                assert(key@ =~= all[at as int].value);
                assert(name@ =~= all[at as int].value);
            }
            let entry: RunRecord = RunRecord::new(key, name);
            proof {
                lemma_views_push(dictionary@, entry);
            }
            dictionary.push(entry);
        }
        assert(token == tenant_token(all, at as nat));
        let node: u32 = read_be(record.key.as_slice(), length - 4, 4) as u32;
        assert(node == raw_node(all[at as int]));
        let mut key: Vec<u8> = Vec::new();
        push_be(&mut key, node as u128, 4);
        let mut value: Vec<u8> = Vec::new();
        push_le(&mut value, token as u128, 4);
        proof {
            assert(key@ =~= be_bytes(node as nat, 4));
            assert(value@ =~= le_bytes(token as nat, 4));
        }
        let entry: RunRecord = RunRecord::new(key, value);
        proof {
            lemma_views_push(values@, entry);
            assert(tenant_values(all, (at + 1) as nat) =~= tenant_values(all, at as nat).push(
                entry@,
            ));
        }
        values.push(entry);
        at = at + 1;
    }
    Ok((dictionary, values))
}

/// Bytes of the first names.
pub open spec fn names_bytes(names: Seq<String>, count: nat) -> nat
    decreases count,
{
    if count == 0 {
        0
    } else {
        names_bytes(names, (count - 1) as nat) + encode_utf8(names[count - 1]@).len()
    }
}

/// Bytes of the first filter columns' names.
pub open spec fn filter_names_bytes(filters: Seq<RegisteredFilterColumn>, count: nat) -> nat
    decreases count,
{
    if count == 0 {
        0
    } else {
        filter_names_bytes(filters, (count - 1) as nat) + encode_utf8(
            filters[count - 1].column_name@,
        ).len()
    }
}

/// Bytes that a table's query and catalog take while its rows are scanned.
pub open spec fn table_workspace(
    table: RegisteredTable,
    filters: Seq<RegisteredFilterColumn>,
) -> nat {
    let identifiers = names_bytes(
        table.id_columns.columns@,
        table.id_columns.columns@.len(),
    ) + filter_names_bytes(filters, filters.len()) + match table.tenant_column {
        Some(column) => encode_utf8(column@).len(),
        None => 0,
    };
    filters.len() * vstd::layout::size_of::<(usize, &RegisteredFilterColumn)>() + 128
        * filters.len() + 6 * identifiers + 1024 + 512
}

proof fn lemma_names_grow(names: Seq<String>, small: nat, large: nat)
    requires
        small <= large,
    ensures
        names_bytes(names, small) <= names_bytes(names, large),
    decreases large,
{
    if small < large {
        lemma_names_grow(names, small, (large - 1) as nat);
    }
}

proof fn lemma_filter_names_grow(filters: Seq<RegisteredFilterColumn>, small: nat, large: nat)
    requires
        small <= large,
    ensures
        filter_names_bytes(filters, small) <= filter_names_bytes(filters, large),
    decreases large,
{
    if small < large {
        lemma_filter_names_grow(filters, small, (large - 1) as nat);
    }
}

/// Bytes that a table's query and catalog take while its rows are scanned, if
/// they can be counted.
fn table_workspace_bytes(table: &RegisteredTable, filters: &Vec<RegisteredFilterColumn>) -> (bytes: Option<
    u64,
>)
    ensures
        match bytes {
            Some(bytes) => bytes == table_workspace(*table, filters@),
            None => table_workspace(*table, filters@) > u64::MAX,
        },
{
    let columns: &Vec<String> = &table.id_columns.columns;
    let mut identifiers: u64 = 0;
    let mut at: usize = 0;
    let count: usize = filters.len();
    let each: usize = core::mem::size_of::<(usize, &RegisteredFilterColumn)>();
    proof {
        assert(count * each <= 0xffff_ffff_ffff_ffff * 0xffff_ffff_ffff_ffff) by (nonlinear_arith)
            requires
                0 <= count <= 0xffff_ffff_ffff_ffff,
                0 <= each <= 0xffff_ffff_ffff_ffff,
        ;
    }
    while at < columns.len()
        invariant
            at <= columns@.len(),
            columns@ == table.id_columns.columns@,
            identifiers == names_bytes(columns@, at as nat),
        decreases columns@.len() - at,
    {
        proof {
            lemma_names_grow(columns@, (at + 1) as nat, columns@.len());
            assert(0 <= filters@.len() * vstd::layout::size_of::<(usize, &RegisteredFilterColumn)>())
                by (nonlinear_arith);
        }
        identifiers = match identifiers.checked_add(columns[at].as_str().as_bytes().len() as u64) {
            Some(identifiers) => identifiers,
            None => return None,
        };
        at = at + 1;
    }
    let ghost id_bytes = identifiers as nat;
    let mut at: usize = 0;
    while at < count
        invariant
            at <= count == filters@.len(),
            id_bytes == names_bytes(
                table.id_columns.columns@,
                table.id_columns.columns@.len(),
            ),
            identifiers == id_bytes + filter_names_bytes(filters@, at as nat),
        decreases count - at,
    {
        proof {
            lemma_filter_names_grow(filters@, (at + 1) as nat, filters@.len());
            assert(0 <= filters@.len() * vstd::layout::size_of::<(usize, &RegisteredFilterColumn)>())
                by (nonlinear_arith);
        }
        let length: usize = filters[at].column_name.as_str().as_bytes().len();
        identifiers = match identifiers.checked_add(length as u64) {
            Some(identifiers) => identifiers,
            None => return None,
        };
        at = at + 1;
    }
    let tenant: usize = match &table.tenant_column {
        Some(column) => column.as_str().as_bytes().len(),
        None => 0,
    };
    proof {
        assert(count * each == filters@.len() * vstd::layout::size_of::<
            (usize, &RegisteredFilterColumn),
        >());
    }
    let slots: u128 = count as u128 * each as u128;
    if slots > u64::MAX as u128 {
        return None;
    }
    let total: u128 = slots + 128 * (count as u128) + 6 * (identifiers as u128 + tenant as u128)
        + 1024 + 512;
    if total > u64::MAX as u128 {
        return None;
    }
    Some(total as u64)
}

/// The nodes of the first tables' rows.
pub open spec fn scan_nodes(
    tables: Seq<RegisteredTable>,
    rows: Seq<Vec<SourceRow>>,
    count: nat,
) -> Seq<SourceNode>
    decreases count,
{
    if count == 0 {
        Seq::empty()
    } else {
        scan_nodes(tables, rows, (count - 1) as nat) + table_nodes(
            tables[count - 1],
            rows[count - 1]@,
            rows[count - 1]@.len(),
        )
    }
}

/// Whether tables and rows can be staged.
pub open spec fn sources_valid(
    tables: Seq<RegisteredTable>,
    rows: Seq<Vec<SourceRow>>,
    filters: Seq<RegisteredFilterColumn>,
) -> bool {
    let nodes = scan_nodes(tables, rows, tables.len());
    &&& forall|i: int| 0 <= i < tables.len() ==> table_domains_valid(#[trigger] tables[i], filters)
    &&& rows_valid(nodes, filters)
    &&& nodes.len() <= u32::MAX
}

/// Ordered runs and metadata of scanned tables.
pub struct PersistedSourceRuns {
    pub node_count: u32,
    pub tenanted_table_oids: Vec<u32>,
    pub has_forward_weights: bool,
    pub has_unidirectional_edges: bool,
    pub nodes: Option<StagedRun>,
    pub resolution: Option<StagedRun>,
    pub filters: Option<StagedRun>,
    pub filter_dictionary: Option<StagedRun>,
    pub tenant_tokens: Option<StagedRun>,
    pub tenant_dictionary: Option<StagedRun>,
}

/// The records of an owned run that may be absent.
pub open spec fn owned_view(run: Option<StagedRun>) -> Seq<RecordView> {
    match run {
        Some(run) => run@,
        None => Seq::empty(),
    }
}

/// Whether filter runs are those of staged texts and values.
pub open spec fn text_runs_of(
    raw: Seq<RecordView>,
    texts: Seq<RecordView>,
    values: Seq<RecordView>,
    filters: Seq<RecordView>,
    dictionary: Seq<RecordView>,
) -> bool {
    &&& sorted_copy(raw, texts)
    &&& texts_normal(raw)
    &&& sorted_copy(filters, values + token_values(raw, raw.len()))
    &&& sorted_copy(dictionary, token_texts(raw, raw.len()))
}

/// Whether tenant runs are those of staged tenants.
pub open spec fn tenant_runs_of(
    raw: Seq<RecordView>,
    tenants: Seq<RecordView>,
    tokens: Seq<RecordView>,
    dictionary: Seq<RecordView>,
) -> bool {
    &&& sorted_copy(raw, tenants)
    &&& tenants_normal(raw)
    &&& sorted_copy(tokens, tenant_values(raw, raw.len()))
    &&& sorted_copy(dictionary, tenant_names(raw, raw.len()))
}

/// Whether a table with this identifier has a tenant column.
pub open spec fn tenanted(tables: Seq<RegisteredTable>, table_oid: u32) -> bool {
    exists|i: int|
        0 <= i < tables.len() && (#[trigger] tables[i]).table_oid == table_oid
            && tables[i].tenant_column is Some
}

/// Whether runs are those of scanned nodes.
pub open spec fn source_runs_of(
    runs: PersistedSourceRuns,
    tables: Seq<RegisteredTable>,
    nodes: Seq<SourceNode>,
    edges: Seq<RegisteredEdge>,
    filters: Seq<RegisteredFilterColumn>,
) -> bool {
    &&& runs.node_count == nodes.len()
    &&& owned_view(runs.nodes) == all_nodes(nodes)
    &&& sorted_copy(owned_view(runs.resolution), all_resolution(nodes))
    &&& exists|raw: Seq<RecordView>| #[trigger]
        text_runs_of(
            raw,
            all_texts(nodes, filters),
            all_values(nodes, filters),
            owned_view(runs.filters),
            owned_view(runs.filter_dictionary),
        )
    &&& exists|raw: Seq<RecordView>| #[trigger]
        tenant_runs_of(
            raw,
            all_tenants(nodes),
            owned_view(runs.tenant_tokens),
            owned_view(runs.tenant_dictionary),
        )
    &&& strictly_sorted(runs.tenanted_table_oids@)
    &&& forall|oid: u32| #[trigger]
        runs.tenanted_table_oids@.contains(oid) <==> tenanted(tables, oid)
    &&& runs.has_forward_weights == exists|i: int|
        0 <= i < edges.len() && (#[trigger] edges[i]).weight_column is Some
    &&& runs.has_unidirectional_edges == exists|i: int|
        0 <= i < edges.len() && !(#[trigger] edges[i]).bidirectional
}

/// Adds an identifier to a strictly sorted list, once.
fn insert_sorted(list: &mut Vec<u32>, item: u32)
    requires
        strictly_sorted(old(list)@),
    ensures
        strictly_sorted(final(list)@),
        forall|other: u32| #[trigger]
            final(list)@.contains(other) <==> old(list)@.contains(other) || other == item,
{
    let ghost before = list@;
    let mut at: usize = 0;
    while at < list.len() && list[at] < item
        invariant
            at <= list@.len(),
            list@ == before,
            forall|i: int| 0 <= i < at ==> list@[i] < item,
        decreases list@.len() - at,
    {
        at = at + 1;
    }
    if at < list.len() && list[at] == item {
        assert(before.contains(before[at as int]));
        return ;
    }
    list.insert(at, item);
    proof {
        let after = list@;
        assert(after =~= before.insert(at as int, item));
        assert forall|i: int, j: int| 0 <= i < j < after.len() implies after[i] < after[j] by {
            if i == at {
                assert(after[j] == before[j - 1]);
                if j - 1 > at {
                    assert(before[at as int] < before[j - 1]);
                }
            } else if j == at {
                assert(after[i] == before[i]);
            } else {
                let i0 = if i < at { i } else { i - 1 };
                let j0 = if j < at { j } else { j - 1 };
                assert(after[i] == before[i0] && after[j] == before[j0]);
            }
        }
        assert forall|other: u32| #[trigger] after.contains(other) <==> before.contains(other)
            || other == item by {
            if after.contains(other) {
                let k = choose|k: int| 0 <= k < after.len() && after[k] == other;
                if k != at {
                    let k0 = if k < at { k } else { k - 1 };
                    assert(before[k0] == other);
                }
            }
            if before.contains(other) {
                let k = choose|k: int| 0 <= k < before.len() && before[k] == other;
                let k1 = if k < at { k } else { k + 1 };
                assert(after[k1] == other);
            }
            if other == item {
                assert(after[at as int] == other);
            }
        }
    }
}

/// The tables that have a tenant column.
fn tenanted_tables(tables: &Vec<RegisteredTable>) -> (list: Vec<u32>)
    ensures
        strictly_sorted(list@),
        forall|oid: u32| #[trigger] list@.contains(oid) <==> tenanted(tables@, oid),
{
    let mut list: Vec<u32> = Vec::new();
    let mut at: usize = 0;
    while at < tables.len()
        invariant
            at <= tables@.len(),
            strictly_sorted(list@),
            forall|oid: u32| #[trigger]
                list@.contains(oid) <==> tenanted(tables@.take(at as int), oid),
        decreases tables@.len() - at,
    {
        let ghost small = tables@.take(at as int);
        let ghost large = tables@.take(at + 1);
        let ghost before = list@;
        if tables[at].tenant_column.is_some() {
            insert_sorted(&mut list, tables[at].table_oid);
        }
        proof {
            assert forall|oid: u32| #[trigger] list@.contains(oid) <==> tenanted(large, oid) by {
                assert(before.contains(oid) <==> tenanted(small, oid));
                if tenanted(small, oid) {
                    let i = choose|i: int|
                        0 <= i < small.len() && (#[trigger] small[i]).table_oid == oid
                            && small[i].tenant_column is Some;
                    assert(large[i] == small[i]);
                }
                if tenanted(large, oid) {
                    let i = choose|i: int|
                        0 <= i < large.len() && (#[trigger] large[i]).table_oid == oid
                            && large[i].tenant_column is Some;
                    if i < at {
                        assert(small[i] == large[i]);
                    }
                }
                assert(large[at as int] == tables@[at as int]);
            }
        }
        at = at + 1;
    }
    assert(tables@.take(at as int) =~= tables@);
    list
}

/// Node records are in order of their keys.
proof fn lemma_nodes_ordered(nodes: Seq<SourceNode>)
    requires
        nodes.len() <= u32::MAX,
    ensures
        keys_ordered(all_nodes(nodes)),
{
    lemma_radix_values();
    let all = all_nodes(nodes);
    assert forall|i: int, j: int| 0 <= i < j < all.len() implies !lex_less(
        (#[trigger] all[j]).key,
        (#[trigger] all[i]).key,
    ) by {
        let none = Seq::<u8>::empty();
        assert(be_bytes(i as nat, 4) + none =~= be_bytes(i as nat, 4));
        assert(be_bytes(j as nat, 4) + none =~= be_bytes(j as nat, 4));
        law_be_order_is_numeric(j as nat, i as nat, 4, none, none);
    }
}

/// Whether every ordering of the staged texts and tenants can be given tokens.
pub open spec fn sources_normal(
    nodes: Seq<SourceNode>,
    filters: Seq<RegisteredFilterColumn>,
) -> bool {
    &&& forall|raw: Seq<RecordView>| #[trigger]
        sorted_copy(raw, all_texts(nodes, filters)) ==> texts_normal(raw)
    &&& forall|raw: Seq<RecordView>| #[trigger]
        sorted_copy(raw, all_tenants(nodes)) ==> tenants_normal(raw)
}

/// Bytes that the list of tenanted tables may take.
pub open spec fn source_metadata(tables: Seq<RegisteredTable>) -> nat {
    4 * tables.len()
}

/// Whether the sizes that a scan reserves can be counted.
pub open spec fn scan_countable(
    tables: Seq<RegisteredTable>,
    filters: Seq<RegisteredFilterColumn>,
) -> bool {
    &&& source_metadata(tables) <= u64::MAX
    &&& forall|i: int|
        0 <= i < tables.len() ==> table_workspace(#[trigger] tables[i], filters) <= u64::MAX
}

/// Whether a governor admits the memory of a scan.
pub open spec fn scan_admitted(
    governor: GovernorView,
    tables: Seq<RegisteredTable>,
    filters: Seq<RegisteredFilterColumn>,
    max_record_bytes: nat,
) -> bool {
    let metadata = source_metadata(tables) as int;
    &&& governor.admits_memory(metadata)
    &&& forall|i: int|
        0 <= i < tables.len() ==> governor.after_memory(metadata).admits_memory(
            table_workspace(#[trigger] tables[i], filters) as int,
        )
    &&& governor.after_memory(metadata).admits_memory(max_record_bytes as int)
}

/// Whether an error is one that scanning rows with a governor can report:
/// rows or columns break a rule, memory is not admitted, or time is up.
pub open spec fn source_scan_error(
    error: ErrorView,
    governor: GovernorView,
    tables: Seq<RegisteredTable>,
    rows: Seq<Vec<SourceRow>>,
    filters: Seq<RegisteredFilterColumn>,
    max_record_bytes: nat,
) -> bool {
    let nodes = scan_nodes(tables, rows, tables.len());
    let sound = scan_countable(tables, filters) && sources_valid(tables, rows, filters);
    ||| !sound && (error is Internal || error is InvalidFilter)
    ||| !sources_normal(nodes, filters) && (error is Internal || error is CorruptFile)
    ||| !scan_admitted(governor, tables, filters, max_record_bytes) && (error == limit_error(
        ResourcePhase::Nodes,
        ResourceKind::Memory,
    ) || error == limit_error(ResourcePhase::Filters, ResourceKind::Memory))
    ||| governor.can_expire() && error == limit_error(ResourcePhase::Nodes, ResourceKind::Elapsed)
}

/// Stages the rows of every table. The governor is left as it was.
fn scan_tables(
    tables: &Vec<RegisteredTable>,
    rows: &Vec<Vec<SourceRow>>,
    filters: &Vec<RegisteredFilterColumn>,
    governor: &mut ResourceGovernor,
) -> (result: GraphResult<SourceScan>)
    requires
        tables@.len() == rows@.len(),
    ensures
        final(governor)@ == old(governor)@,
        ({
            let nodes = scan_nodes(tables@, rows@, tables@.len());
            let admitted = forall|i: int|
                0 <= i < tables@.len() ==> old(governor)@.admits_memory(
                    table_workspace(#[trigger] tables@[i], filters@) as int,
                );
            let countable = forall|i: int|
                0 <= i < tables@.len() ==> table_workspace(#[trigger] tables@[i], filters@)
                    <= u64::MAX;
            &&& result is Ok ==> sources_valid(tables@, rows@, filters@) && admitted && countable
            &&& result matches Ok(scan) ==> scan.holds(nodes, filters@)
            &&& sources_valid(tables@, rows@, filters@) && admitted && countable && !old(
                governor,
            )@.can_expire() ==> result is Ok
            &&& result matches Err(error) ==> {
                ||| (error@ is Internal || error@ is InvalidFilter) && (!sources_valid(
                    tables@,
                    rows@,
                    filters@,
                ) || !countable)
                ||| error@ == limit_error(ResourcePhase::Nodes, ResourceKind::Memory) && !admitted
                ||| error@ == limit_error(ResourcePhase::Nodes, ResourceKind::Elapsed) && old(
                    governor,
                )@.can_expire()
            }
        }),
{
    let mut scan = SourceScan::new();
    let mut at: usize = 0;
    assert(scan.holds(scan_nodes(tables@, rows@, 0), filters@));
    while at < tables.len()
        invariant
            at <= tables@.len() == rows@.len(),
            governor@ == old(governor)@,
            scan.holds(scan_nodes(tables@, rows@, at as nat), filters@),
            rows_valid(scan_nodes(tables@, rows@, at as nat), filters@),
            scan_nodes(tables@, rows@, at as nat).len() <= u32::MAX,
            forall|i: int|
                0 <= i < at ==> {
                    &&& table_domains_valid(#[trigger] tables@[i], filters@)
                    &&& governor@.admits_memory(table_workspace(tables@[i], filters@) as int)
                    &&& table_workspace(tables@[i], filters@) <= u64::MAX
                },
        decreases tables@.len() - at,
    {
        let ghost taken = scan_nodes(tables@, rows@, at as nat);
        let ghost added = table_nodes(
            tables@[at as int],
            rows@[at as int]@,
            rows@[at as int]@.len(),
        );
        if let Err(error) = governor.check_elapsed(ResourcePhase::Nodes) {
            return Err(error);
        }
        let table: &RegisteredTable = &tables[at];
        let workspace: u64 = match table_workspace_bytes(table, filters) {
            Some(workspace) => workspace,
            None => return Err(internal("source query workspace overflowed")),
        };
        if let Err(error) = governor.reserve_memory(ResourcePhase::Nodes, workspace) {
            return Err(error);
        }
        let scanned: GraphResult<()> = scan.scan_table(table, &rows[at], filters, Ghost(taken));
        governor.release_memory(workspace);
        if let Err(error) = scanned {
            proof {
                let all = scan_nodes(tables@, rows@, tables@.len());
                lemma_scan_grows(tables@, rows@, (at + 1) as nat, tables@.len());
                if rows_valid(all, filters@) {
                    assert forall|i: int| 0 <= i < added.len() implies row_valid(
                        #[trigger] added[i],
                        filters@,
                    ) by {
                        let k = taken.len() + i;
                        assert((taken + added)[k] == added[i]);
                        assert(scan_nodes(tables@, rows@, (at + 1) as nat)[k] == all[k]);
                    }
                }
                assert(!sources_valid(tables@, rows@, filters@));
            }
            return Err(error);
        }
        proof {
            let more = scan_nodes(tables@, rows@, (at + 1) as nat);
            assert forall|i: int| 0 <= i < more.len() implies row_valid(
                #[trigger] more[i],
                filters@,
            ) by {
                if i < taken.len() {
                    assert(more[i] == taken[i]);
                } else {
                    assert(more[i] == added[i - taken.len()]);
                }
            }
        }
        at = at + 1;
    }
    Ok(scan)
}

/// The nodes of more tables start with those of fewer.
proof fn lemma_scan_grows(
    tables: Seq<RegisteredTable>,
    rows: Seq<Vec<SourceRow>>,
    small: nat,
    large: nat,
)
    requires
        small <= large,
    ensures
        scan_nodes(tables, rows, small).len() <= scan_nodes(tables, rows, large).len(),
        forall|i: int|
            0 <= i < scan_nodes(tables, rows, small).len() ==> #[trigger] scan_nodes(
                tables,
                rows,
                small,
            )[i] == scan_nodes(tables, rows, large)[i],
    decreases large,
{
    if small < large {
        lemma_scan_grows(tables, rows, small, (large - 1) as nat);
    }
}

/// The records that were collected, in order.
pub fn collected(records: Vec<RunRecord>) -> (run: Option<StagedRun>)
    ensures
        sorted_copy(owned_view(run), record_views(records@)),
{
    let run: Option<StagedRun> = StagedRun::collect(records);
    proof {
        if run is None {
            assert(record_views(records@) =~= Seq::<RecordView>::empty());
        }
    }
    run
}

/// Gives staged texts tokens, and sorts the filter records and the dictionary.
/// The governor is left as it was.
#[verifier::spinoff_prover]
#[verifier::rlimit(60)]
fn finish_texts(
    texts: Vec<RunRecord>,
    values: Vec<RunRecord>,
    governor: &mut ResourceGovernor,
    max_record_bytes: usize,
) -> (result: GraphResult<(Option<StagedRun>, Option<StagedRun>)>)
    ensures
        final(governor)@ == old(governor)@,
        result is Ok ==> old(governor)@.admits_memory(max_record_bytes as int),
        result matches Ok((filters, dictionary)) ==> exists|raw: Seq<RecordView>| #[trigger]
            text_runs_of(
                raw,
                record_views(texts@),
                record_views(values@),
                owned_view(filters),
                owned_view(dictionary),
            ),
        result matches Err(error) ==> if old(governor)@.admits_memory(max_record_bytes as int) {
            (error@ is Internal || error@ is CorruptFile) && exists|raw: Seq<RecordView>|
                #[trigger]
                sorted_copy(raw, record_views(texts@)) && !texts_normal(raw)
        } else {
            error@ == limit_error(ResourcePhase::Filters, ResourceKind::Memory)
        },
{
    let ghost staged = record_views(texts@);
    let raw_texts: Option<StagedRun> = collected(texts);
    if let Err(error) = governor.reserve_memory(ResourcePhase::Filters, max_record_bytes as u64) {
        return Err(error);
    }
    let normal = normalize_text_filters(raw_texts.as_ref());
    governor.release_memory(max_record_bytes as u64);
    let ghost raw = run_view(
        match raw_texts {
            Some(run) => Some(&run),
            None => None,
        },
    );
    assert(raw == owned_view(raw_texts));
    assert(sorted_copy(raw, staged));
    let (dictionary, tokens) = match normal {
        Ok(normal) => normal,
        Err(error) => return Err(error),
    };
    let mut filter_records: Vec<RunRecord> = values;
    let mut tokens: Vec<RunRecord> = tokens;
    let ghost token_list = tokens@;
    filter_records.append(&mut tokens);
    proof {
        assert(record_views(filter_records@) =~= record_views(values@) + record_views(token_list));
    }
    let filters_run: Option<StagedRun> = collected(filter_records);
    let dictionary_run: Option<StagedRun> = collected(dictionary);
    assert(text_runs_of(
        raw,
        staged,
        record_views(values@),
        owned_view(filters_run),
        owned_view(dictionary_run),
    ));
    Ok((filters_run, dictionary_run))
}

/// Gives staged tenants tokens, and sorts the token records and the dictionary.
/// The governor is left as it was.
#[verifier::spinoff_prover]
#[verifier::rlimit(60)]
fn finish_tenants(
    tenants: Vec<RunRecord>,
    governor: &mut ResourceGovernor,
    max_record_bytes: usize,
) -> (result: GraphResult<(Option<StagedRun>, Option<StagedRun>)>)
    ensures
        final(governor)@ == old(governor)@,
        result is Ok ==> old(governor)@.admits_memory(max_record_bytes as int),
        result matches Ok((tokens, dictionary)) ==> exists|raw: Seq<RecordView>| #[trigger]
            tenant_runs_of(
                raw,
                record_views(tenants@),
                owned_view(tokens),
                owned_view(dictionary),
            ),
        result matches Err(error) ==> if old(governor)@.admits_memory(max_record_bytes as int) {
            (error@ is Internal || error@ is CorruptFile) && exists|raw: Seq<RecordView>|
                #[trigger]
                sorted_copy(raw, record_views(tenants@)) && !tenants_normal(raw)
        } else {
            error@ == limit_error(ResourcePhase::Filters, ResourceKind::Memory)
        },
{
    let ghost staged = record_views(tenants@);
    let raw_tenants: Option<StagedRun> = collected(tenants);
    if let Err(error) = governor.reserve_memory(ResourcePhase::Filters, max_record_bytes as u64) {
        return Err(error);
    }
    let normal = normalize_tenant_tokens(raw_tenants.as_ref());
    governor.release_memory(max_record_bytes as u64);
    let ghost raw = owned_view(raw_tenants);
    assert(sorted_copy(raw, staged));
    let (names, tenant_records) = match normal {
        Ok(normal) => normal,
        Err(error) => return Err(error),
    };
    let tenant_run: Option<StagedRun> = collected(tenant_records);
    let names_run: Option<StagedRun> = collected(names);
    assert(tenant_runs_of(raw, staged, owned_view(tenant_run), owned_view(names_run)));
    Ok((tenant_run, names_run))
}

/// Whether some relationship has weights, and whether some leads one way only.
fn edge_flags(edges: &Vec<RegisteredEdge>) -> (flags: (bool, bool))
    ensures
        flags.0 == exists|i: int|
            0 <= i < edges@.len() && (#[trigger] edges@[i]).weight_column is Some,
        flags.1 == exists|i: int| 0 <= i < edges@.len() && !(#[trigger] edges@[i]).bidirectional,
{
    let mut weighted: bool = false;
    let mut one_way: bool = false;
    let mut at: usize = 0;
    while at < edges.len()
        invariant
            at <= edges@.len(),
            weighted == exists|i: int|
                0 <= i < at && (#[trigger] edges@[i]).weight_column is Some,
            one_way == exists|i: int| 0 <= i < at && !(#[trigger] edges@[i]).bidirectional,
        decreases edges@.len() - at,
    {
        if edges[at].weight_column.is_some() {
            weighted = true;
        }
        if !edges[at].bidirectional {
            one_way = true;
        }
        at = at + 1;
    }
    (weighted, one_way)
}

/// Turns staged rows into runs. The governor is left as it was.
#[verifier::spinoff_prover]
#[verifier::rlimit(100)]
fn finish_scan(
    scan: SourceScan,
    edges: &Vec<RegisteredEdge>,
    tables: &Vec<RegisteredTable>,
    governor: &mut ResourceGovernor,
    max_record_bytes: usize,
    Ghost(nodes): Ghost<Seq<SourceNode>>,
    Ghost(filters): Ghost<Seq<RegisteredFilterColumn>>,
) -> (result: GraphResult<PersistedSourceRuns>)
    requires
        scan.holds(nodes, filters),
    ensures
        final(governor)@ == old(governor)@,
        result is Ok ==> old(governor)@.admits_memory(max_record_bytes as int),
        result matches Ok(runs) ==> source_runs_of(runs, tables@, nodes, edges@, filters),
        old(governor)@.admits_memory(max_record_bytes as int) && sources_normal(nodes, filters)
            ==> result is Ok,
        result matches Err(error) ==> if old(governor)@.admits_memory(max_record_bytes as int) {
            (error@ is Internal || error@ is CorruptFile) && !sources_normal(nodes, filters)
        } else {
            error@ == limit_error(ResourcePhase::Filters, ResourceKind::Memory)
        },
{
    let tenanted_table_oids: Vec<u32> = tenanted_tables(tables);
    let (filters_run, dictionary_run) = match finish_texts(
        scan.texts,
        scan.filters,
        governor,
        max_record_bytes,
    ) {
        Ok(runs) => runs,
        Err(error) => return Err(error),
    };
    let (tenant_run, names_run) = match finish_tenants(scan.tenants, governor, max_record_bytes) {
        Ok(runs) => runs,
        Err(error) => return Err(error),
    };
    let nodes_run: Option<StagedRun> = if scan.nodes.len() == 0 {
        assert(all_nodes(nodes) =~= Seq::<RecordView>::empty()) by {
            assert(all_nodes(nodes).len() == record_views(scan.nodes@).len());
        }
        None
    } else {
        proof {
            lemma_nodes_ordered(nodes);
        }
        match StagedRun::from_sorted(scan.nodes) {
            Ok(run) => Some(run),
            Err(error) => return Err(error),
        }
    };
    let (has_forward_weights, has_unidirectional_edges): (bool, bool) = edge_flags(edges);
    Ok(
        PersistedSourceRuns {
            node_count: scan.node_count,
            tenanted_table_oids,
            has_forward_weights,
            has_unidirectional_edges,
            nodes: nodes_run,
            resolution: collected(scan.resolution),
            filters: filters_run,
            filter_dictionary: dictionary_run,
            tenant_tokens: tenant_run,
            tenant_dictionary: names_run,
        },
    )
}

/// Scans the rows of registered tables, in the tables' order, into ordered
/// runs. What the list of tenanted tables takes stays reserved when the scan
/// succeeds; when it fails, the governor is as before.
pub fn scan_persisted_sources(
    tables: &Vec<RegisteredTable>,
    rows: &Vec<Vec<SourceRow>>,
    edges: &Vec<RegisteredEdge>,
    filters: &Vec<RegisteredFilterColumn>,
    governor: &mut ResourceGovernor,
    batch_size: usize,
    max_record_bytes: usize,
    merge_fanout: usize,
) -> (result: GraphResult<PersistedSourceRuns>)
    requires
        tables@.len() == rows@.len(),
    ensures
        ({
            let nodes = scan_nodes(tables@, rows@, tables@.len());
            let limits = batch_size > 0 && merge_fanout >= 2;
            let sound = scan_countable(tables@, filters@) && sources_valid(
                tables@,
                rows@,
                filters@,
            );
            let admitted = scan_admitted(
                old(governor)@,
                tables@,
                filters@,
                max_record_bytes as nat,
            );
            &&& result is Ok ==> limits && sound && admitted
            &&& result matches Ok(runs) ==> source_runs_of(runs, tables@, nodes, edges@, filters@)
            &&& result is Ok ==> final(governor)@ == old(governor)@.after_memory(
                source_metadata(tables@) as int,
            )
            &&& result is Err ==> final(governor)@ == old(governor)@
            &&& limits && sound && sources_normal(nodes, filters@) && admitted && !old(
                governor,
            )@.can_expire() ==> result is Ok
            &&& !limits ==> result is Err && result->Err_0@ == ErrorView::Internal(
                "persisted source scan batch size must be positive and merge fanout at least two"@,
            )
            &&& result matches Err(error) ==> !limits || source_scan_error(
                error@,
                old(governor)@,
                tables@,
                rows@,
                filters@,
                max_record_bytes as nat,
            )
        }),
{
    if batch_size == 0 || merge_fanout < 2 {
        return Err(
            internal(
                "persisted source scan batch size must be positive and merge fanout at least two",
            ),
        );
    }
    let count: usize = tables.len();
    let metadata: u64 = match (count as u64).checked_mul(4) {
        Some(metadata) => metadata,
        None => return Err(internal("source metadata size overflowed")),
    };
    if let Err(error) = governor.reserve_memory(ResourcePhase::Nodes, metadata) {
        return Err(error);
    }
    let scan: SourceScan = match scan_tables(tables, rows, filters, governor) {
        Ok(scan) => scan,
        Err(error) => {
            governor.release_memory(metadata);
            return Err(error);
        },
    };
    let ghost nodes = scan_nodes(tables@, rows@, tables@.len());
    let finished: GraphResult<PersistedSourceRuns> = finish_scan(
        scan,
        edges,
        tables,
        governor,
        max_record_bytes,
        Ghost(nodes),
        Ghost(filters@),
    );
    if finished.is_err() {
        governor.release_memory(metadata);
    }
    finished
}

/// A token is no larger than its text's position.
proof fn lemma_tokens_small(raw: Seq<RecordView>, at: nat)
    ensures
        text_token(raw, at) <= at,
        tenant_token(raw, at) <= at + 1,
    decreases at,
{
    if at > 0 {
        lemma_tokens_small(raw, (at - 1) as nat);
    }
}

/// Keys of a node's text records hold a column, a text's end and a node.
proof fn lemma_text_keys(
    node: SourceNode,
    filters: Seq<RegisteredFilterColumn>,
    index: nat,
    count: nat,
)
    ensures
        forall|i: int|
            0 <= i < text_records(node, filters, index, count).len() ==> (
            #[trigger] text_records(node, filters, index, count)[i]).key.len() >= 9,
    decreases count,
{
    if count > 0 {
        lemma_text_keys(node, filters, index, (count - 1) as nat);
        lemma_be_len(node_filters(node, filters)[count - 1] as nat, 4);
        lemma_be_len(index, 4);
        let rest = text_records(node, filters, index, (count - 1) as nat);
        let all = text_records(node, filters, index, count);
        assert forall|i: int| 0 <= i < all.len() implies (#[trigger] all[i]).key.len() >= 9 by {
            if i < rest.len() {
                assert(all[i] == rest[i]);
            }
        }
    }
}

/// Keys of text records hold a column, a text's end and a node.
proof fn lemma_all_text_keys(nodes: Seq<SourceNode>, filters: Seq<RegisteredFilterColumn>)
    ensures
        forall|i: int|
            0 <= i < all_texts(nodes, filters).len() ==> (#[trigger] all_texts(
                nodes,
                filters,
            )[i]).key.len() >= 9,
    decreases nodes.len(),
{
    if nodes.len() > 0 {
        lemma_all_text_keys(nodes.drop_last(), filters);
        lemma_text_keys(
            nodes.last(),
            filters,
            (nodes.len() - 1) as nat,
            node_filters(nodes.last(), filters).len(),
        );
        let rest = all_texts(nodes.drop_last(), filters);
        let added = text_records(
            nodes.last(),
            filters,
            (nodes.len() - 1) as nat,
            node_filters(nodes.last(), filters).len(),
        );
        let all = all_texts(nodes, filters);
        assert forall|i: int| 0 <= i < all.len() implies (#[trigger] all[i]).key.len() >= 9 by {
            if i < rest.len() {
                assert(all[i] == rest[i]);
            } else {
                assert(all[i] == added[i - rest.len()]);
            }
        }
    }
}

/// Keys of tenant records hold a name's end and a node, and there are no more
/// of them than nodes.
proof fn lemma_all_tenant_keys(nodes: Seq<SourceNode>)
    ensures
        all_tenants(nodes).len() <= nodes.len(),
        forall|i: int|
            0 <= i < all_tenants(nodes).len() ==> (#[trigger] all_tenants(nodes)[i]).key.len()
                >= 5,
    decreases nodes.len(),
{
    if nodes.len() > 0 {
        lemma_all_tenant_keys(nodes.drop_last());
        lemma_be_len((nodes.len() - 1) as nat, 4);
        let rest = all_tenants(nodes.drop_last());
        let all = all_tenants(nodes);
        assert forall|i: int| 0 <= i < all.len() implies (#[trigger] all[i]).key.len() >= 5 by {
            if i < rest.len() {
                assert(all[i] == rest[i]);
            }
        }
    }
}

/// A record of an ordered copy is one of the list's.
proof fn lemma_copy_member(raw: Seq<RecordView>, list: Seq<RecordView>, at: int)
    requires
        sorted_copy(raw, list),
        0 <= at < raw.len(),
    ensures
        list.contains(raw[at]),
        raw.len() == list.len(),
{
    broadcast use vstd::seq_lib::group_to_multiset_ensures;

    assert(raw.contains(raw[at]));
    assert(raw.to_multiset().contains(raw[at]));
    assert(raw.to_multiset().len() == list.to_multiset().len());
}

/// Staged texts and tenants can always be given tokens as long as there are no
/// more texts than tokens.
pub proof fn law_sources_are_normal(nodes: Seq<SourceNode>, filters: Seq<RegisteredFilterColumn>)
    requires
        nodes.len() <= u32::MAX,
        all_texts(nodes, filters).len() <= u32::MAX,
    ensures
        sources_normal(nodes, filters),
{
    let texts = all_texts(nodes, filters);
    let tenants = all_tenants(nodes);
    lemma_all_text_keys(nodes, filters);
    lemma_all_tenant_keys(nodes);
    assert forall|raw: Seq<RecordView>| #[trigger] sorted_copy(raw, texts) implies texts_normal(
        raw,
    ) by {
        assert forall|i: int| 0 <= i < raw.len() implies (#[trigger] raw[i]).key.len() >= 9
            && text_token(raw, i as nat) <= u32::MAX by {
            lemma_copy_member(raw, texts, i);
            let k = choose|k: int| 0 <= k < texts.len() && texts[k] == raw[i];
            assert(texts[k].key.len() >= 9);
            lemma_tokens_small(raw, i as nat);
        }
    }
    assert forall|raw: Seq<RecordView>| #[trigger] sorted_copy(raw, tenants) implies tenants_normal(
        raw,
    ) by {
        assert forall|i: int| 0 <= i < raw.len() implies (#[trigger] raw[i]).key.len() >= 5
            && tenant_token(raw, i as nat) <= u32::MAX by {
            lemma_copy_member(raw, tenants, i);
            let k = choose|k: int| 0 <= k < tenants.len() && tenants[k] == raw[i];
            assert(tenants[k].key.len() >= 5);
            lemma_tokens_small(raw, i as nat);
        }
    }
}

} // verus!
