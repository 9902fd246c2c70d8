//! Staging of source rows: the records that each row adds.
use vstd::prelude::*;
use vstd::utf8::encode_utf8;

use crate::direct_filters::{column_domain, RegisteredFilterColumn};
use crate::direct_nodes::{encode_node_record, node_record};
use crate::errors::{internal, ErrorView, GraphError, GraphResult};
use crate::filter_value::FilterColumnType;
use crate::run_records::{record_views, RecordView, RunRecord};
use crate::scan_codec::{
    dictionary_record, encode_dictionary_record, encode_filter_record, encode_resolution_record,
    encode_tenant_dictionary_record, filter_record, hex_value, is_uuid_text, key_hash, parse_uuid,
    resolution_record, tenant_record, without_dashes, ScannedFilterValue,
};
use crate::scan_sql::{filters_of_table, table_filters, RegisteredTable};

verus! {

/// A value of a fetched row.
#[derive(Debug)]
pub enum SourceCell {
    Null,
    Integer(i64),
    Boolean(bool),
    Text(String),
}

/// A fetched row of a node table.
#[derive(Debug)]
pub struct SourceRow {
    /// Key of the row; one without a key is passed over.
    pub primary_key: Option<String>,
    /// One value for each of the table's filter columns.
    pub filters: Vec<SourceCell>,
    /// Tenant of the row, where the table has a tenant column.
    pub tenant: Option<String>,
}

/// What a fetched value is.
pub enum CellView {
    Null,
    Integer(i64),
    Boolean(bool),
    Text(Seq<char>),
}

impl View for SourceCell {
    type V = CellView;

    open spec fn view(&self) -> CellView {
        match self {
            SourceCell::Null => CellView::Null,
            SourceCell::Integer(number) => CellView::Integer(*number),
            SourceCell::Boolean(flag) => CellView::Boolean(*flag),
            SourceCell::Text(text) => CellView::Text(text@),
        }
    }
}

/// What a fetched row holds.
#[verifier::ext_equal]
pub struct RowView {
    pub key: Option<Seq<char>>,
    pub filters: Seq<CellView>,
    pub tenant: Option<Seq<char>>,
}

impl View for SourceRow {
    type V = RowView;

    open spec fn view(&self) -> RowView {
        RowView {
            key: match self.primary_key {
                Some(key) => Some(key@),
                None => None,
            },
            filters: Seq::new(self.filters@.len(), |i: int| self.filters@[i]@),
            tenant: match self.tenant {
                Some(tenant) => Some(tenant@),
                None => None,
            },
        }
    }
}

/// Whether a value can be read in a domain.
pub open spec fn cell_valid(cell: SourceCell, column_type: FilterColumnType) -> bool {
    match cell {
        SourceCell::Null => true,
        SourceCell::Integer(_) => column_type is Numeric || column_type is Date
            || column_type is Timestamptz,
        SourceCell::Boolean(_) => column_type is Boolean,
        SourceCell::Text(text) => column_type is Text || (column_type is Uuid && is_uuid_text(
            text@,
        )),
    }
}

/// The filter value of a fetched value.
pub open spec fn cell_value(cell: SourceCell, column_type: FilterColumnType) -> Option<
    ScannedFilterValue,
> {
    match cell {
        SourceCell::Null => None,
        SourceCell::Integer(number) => Some(
            match column_type {
                FilterColumnType::Date => ScannedFilterValue::Date(number),
                FilterColumnType::Timestamptz => ScannedFilterValue::Timestamptz(number),
                _ => ScannedFilterValue::Numeric(number),
            },
        ),
        SourceCell::Boolean(flag) => Some(ScannedFilterValue::Boolean(flag)),
        SourceCell::Text(text) => Some(
            if column_type is Uuid {
                ScannedFilterValue::Uuid(hex_value(without_dashes(encode_utf8(text@))) as u128)
            } else {
                ScannedFilterValue::Text(text)
            },
        ),
    }
}

/// Reads a fetched value in a domain.
pub fn read_filter_value(cell: &SourceCell, column_type: FilterColumnType) -> (result: GraphResult<
    Option<ScannedFilterValue>,
>)
    ensures
        match result {
            Ok(value) => cell_valid(*cell, column_type) && value == cell_value(*cell, column_type),
            Err(error) => !cell_valid(*cell, column_type) && if column_type is Uuid && cell is Text {
                error@ is InvalidFilter
            } else {
                error@ == ErrorView::Internal("filter value read failed"@)
            },
        },
{
    match (column_type, cell) {
        (_, SourceCell::Null) => Ok(None),
        (FilterColumnType::Numeric, SourceCell::Integer(number)) => Ok(
            Some(ScannedFilterValue::Numeric(*number)),
        ),
        (FilterColumnType::Date, SourceCell::Integer(number)) => Ok(
            Some(ScannedFilterValue::Date(*number)),
        ),
        (FilterColumnType::Timestamptz, SourceCell::Integer(number)) => Ok(
            Some(ScannedFilterValue::Timestamptz(*number)),
        ),
        (FilterColumnType::Boolean, SourceCell::Boolean(flag)) => Ok(
            Some(ScannedFilterValue::Boolean(*flag)),
        ),
        (FilterColumnType::Text, SourceCell::Text(text)) => Ok(
            Some(ScannedFilterValue::Text(text.clone())),
        ),
        (FilterColumnType::Uuid, SourceCell::Text(text)) => match parse_uuid(text.as_str()) {
            Ok(uuid) => Ok(Some(ScannedFilterValue::Uuid(uuid))),
            Err(error) => Err(error),
        },
        _ => Err(internal("filter value read failed")),
    }
}

/// A row that became a node.
pub struct SourceNode {
    pub table: RegisteredTable,
    pub row: SourceRow,
}

/// The key bytes of a node.
pub open spec fn source_key(node: SourceNode) -> Seq<u8> {
    encode_utf8(node.row.primary_key->Some_0@)
}

/// The positions of the filter columns of a node's table.
pub open spec fn node_filters(node: SourceNode, filters: Seq<RegisteredFilterColumn>) -> Seq<int> {
    filters_of_table(filters, node.table.table_oid, filters.len())
}

/// The value of a node in one of its table's filter columns.
pub open spec fn node_value(
    node: SourceNode,
    filters: Seq<RegisteredFilterColumn>,
    at: int,
) -> Option<ScannedFilterValue> {
    cell_value(
        node.row.filters@[at],
        column_domain(filters[node_filters(node, filters)[at]])->Some_0,
    )
}

/// The filter records that a node adds for its first filter columns.
pub open spec fn value_records(
    node: SourceNode,
    filters: Seq<RegisteredFilterColumn>,
    index: nat,
    count: nat,
) -> Seq<RecordView>
    decreases count,
{
    if count == 0 {
        Seq::empty()
    } else {
        let rest = value_records(node, filters, index, (count - 1) as nat);
        match node_value(node, filters, count - 1) {
            Some(ScannedFilterValue::Text(_)) => rest,
            Some(value) => rest.push(
                filter_record(node_filters(node, filters)[count - 1] as nat, index, value),
            ),
            None => rest,
        }
    }
}

/// The text records that a node adds for its first filter columns.
pub open spec fn text_records(
    node: SourceNode,
    filters: Seq<RegisteredFilterColumn>,
    index: nat,
    count: nat,
) -> Seq<RecordView>
    decreases count,
{
    if count == 0 {
        Seq::empty()
    } else {
        let rest = text_records(node, filters, index, (count - 1) as nat);
        match node_value(node, filters, count - 1) {
            Some(ScannedFilterValue::Text(text)) => rest.push(
                dictionary_record(
                    node_filters(node, filters)[count - 1] as nat,
                    encode_utf8(text@),
                    index,
                ),
            ),
            _ => rest,
        }
    }
}

/// The tenant record that a node adds, if it has a tenant.
pub open spec fn tenant_records(node: SourceNode, index: nat) -> Seq<RecordView> {
    if node.table.tenant_column is Some && node.row.tenant is Some {
        seq![tenant_record(encode_utf8(node.row.tenant->Some_0@), index)]
    } else {
        Seq::empty()
    }
}

/// The node records of the first nodes.
pub open spec fn all_nodes(nodes: Seq<SourceNode>) -> Seq<RecordView> {
    Seq::new(
        nodes.len(),
        |i: int| node_record(i as nat, nodes[i].table.table_oid as nat, source_key(nodes[i])),
    )
}

/// The resolution records of the first nodes.
pub open spec fn all_resolution(nodes: Seq<SourceNode>) -> Seq<RecordView> {
    Seq::new(
        nodes.len(),
        |i: int|
            resolution_record(
                nodes[i].table.table_oid as nat,
                key_hash(source_key(nodes[i])) as nat,
                i as nat,
            ),
    )
}

/// The filter records of nodes.
pub open spec fn all_values(nodes: Seq<SourceNode>, filters: Seq<RegisteredFilterColumn>) -> Seq<
    RecordView,
>
    decreases nodes.len(),
{
    if nodes.len() == 0 {
        Seq::empty()
    } else {
        all_values(nodes.drop_last(), filters) + value_records(
            nodes.last(),
            filters,
            (nodes.len() - 1) as nat,
            node_filters(nodes.last(), filters).len(),
        )
    }
}

/// The text records of nodes.
pub open spec fn all_texts(nodes: Seq<SourceNode>, filters: Seq<RegisteredFilterColumn>) -> Seq<
    RecordView,
>
    decreases nodes.len(),
{
    if nodes.len() == 0 {
        Seq::empty()
    } else {
        all_texts(nodes.drop_last(), filters) + text_records(
            nodes.last(),
            filters,
            (nodes.len() - 1) as nat,
            node_filters(nodes.last(), filters).len(),
        )
    }
}

/// The tenant records of nodes.
pub open spec fn all_tenants(nodes: Seq<SourceNode>) -> Seq<RecordView>
    decreases nodes.len(),
{
    if nodes.len() == 0 {
        Seq::empty()
    } else {
        all_tenants(nodes.drop_last()) + tenant_records(nodes.last(), (nodes.len() - 1) as nat)
    }
}

/// Whether a row can be staged.
pub open spec fn row_valid(node: SourceNode, filters: Seq<RegisteredFilterColumn>) -> bool {
    let positions = node_filters(node, filters);
    &&& node.row.filters@.len() == positions.len()
    &&& source_key(node).len() <= u32::MAX
    &&& forall|i: int|
        0 <= i < positions.len() ==> #[trigger] positions[i] <= u32::MAX && cell_valid(
            node.row.filters@[i],
            column_domain(filters[positions[i]])->Some_0,
        )
}

/// The nodes of a table's first rows.
pub open spec fn table_nodes(table: RegisteredTable, rows: Seq<SourceRow>, count: nat) -> Seq<
    SourceNode,
>
    decreases count,
{
    if count == 0 {
        Seq::empty()
    } else {
        let rest = table_nodes(table, rows, (count - 1) as nat);
        if rows[count - 1].primary_key is Some {
            rest.push(SourceNode { table, row: rows[count - 1] })
        } else {
            rest
        }
    }
}

/// Records staged from rows.
pub struct SourceScan {
    pub node_count: u32,
    pub nodes: Vec<RunRecord>,
    pub resolution: Vec<RunRecord>,
    pub filters: Vec<RunRecord>,
    pub texts: Vec<RunRecord>,
    pub tenants: Vec<RunRecord>,
}

impl SourceScan {
    /// Whether the records are those of these nodes.
    pub open spec fn holds(
        &self,
        nodes: Seq<SourceNode>,
        filters: Seq<RegisteredFilterColumn>,
    ) -> bool {
        &&& self.node_count == nodes.len()
        &&& record_views(self.nodes@) == all_nodes(nodes)
        &&& record_views(self.resolution@) == all_resolution(nodes)
        &&& record_views(self.filters@) == all_values(nodes, filters)
        &&& record_views(self.texts@) == all_texts(nodes, filters)
        &&& record_views(self.tenants@) == all_tenants(nodes)
    }

    /// Nothing staged.
    pub fn new() -> (scan: Self)
        ensures
            forall|filters: Seq<RegisteredFilterColumn>| #[trigger]
                scan.holds(Seq::empty(), filters),
    {
        let scan = SourceScan {
            node_count: 0,
            nodes: Vec::new(),
            resolution: Vec::new(),
            filters: Vec::new(),
            texts: Vec::new(),
            tenants: Vec::new(),
        };
        proof {
            assert(record_views(scan.nodes@) =~= Seq::<RecordView>::empty());
            assert(all_nodes(Seq::empty()) =~= Seq::<RecordView>::empty());
            assert(all_resolution(Seq::empty()) =~= Seq::<RecordView>::empty());
            assert(record_views(scan.resolution@) =~= Seq::<RecordView>::empty());
            assert(record_views(scan.filters@) =~= Seq::<RecordView>::empty());
            assert(record_views(scan.texts@) =~= Seq::<RecordView>::empty());
            assert(record_views(scan.tenants@) =~= Seq::<RecordView>::empty());
        }
        scan
    }

    /// Stages the filter values of a node.
    fn stage_values(
        &mut self,
        index: u32,
        row: &SourceRow,
        positions: &Vec<usize>,
        domains: &Vec<FilterColumnType>,
        Ghost(node): Ghost<SourceNode>,
        Ghost(filters): Ghost<Seq<RegisteredFilterColumn>>,
    ) -> (result: GraphResult<()>)
        requires
            node.row == *row,
            positions@.len() == node_filters(node, filters).len(),
            domains@.len() == positions@.len(),
            forall|i: int|
                0 <= i < positions@.len() ==> {
                    &&& #[trigger] positions@[i] == node_filters(node, filters)[i]
                    &&& positions@[i] < filters.len()
                    &&& column_domain(filters[positions@[i] as int]) == Some(domains@[i])
                },
            row.filters@.len() == positions@.len(),
            source_key(node).len() <= u32::MAX,
        ensures
            final(self).node_count == old(self).node_count,
            final(self).nodes == old(self).nodes,
            final(self).resolution == old(self).resolution,
            final(self).tenants == old(self).tenants,
            result is Ok <==> row_valid(node, filters),
            result is Ok ==> {
                let count = positions@.len();
                &&& record_views(final(self).filters@) == record_views(old(self).filters@)
                    + value_records(node, filters, index as nat, count)
                &&& record_views(final(self).texts@) == record_views(old(self).texts@)
                    + text_records(node, filters, index as nat, count)
            },
            result matches Err(error) ==> error@ is Internal || error@ is InvalidFilter,
    {
        let ghost values = record_views(self.filters@);
        let ghost texts = record_views(self.texts@);
        let mut at: usize = 0;
        proof {
            assert(values + value_records(node, filters, index as nat, 0) =~= values);
            assert(texts + text_records(node, filters, index as nat, 0) =~= texts);
        }
        while at < positions.len()
            invariant
                at <= positions@.len() == domains@.len() == row.filters@.len(),
                positions@.len() == node_filters(node, filters).len(),
                node.row == *row,
                source_key(node).len() <= u32::MAX,
                forall|i: int|
                    0 <= i < positions@.len() ==> {
                        &&& #[trigger] positions@[i] == node_filters(node, filters)[i]
                        &&& positions@[i] < filters.len()
                        &&& column_domain(filters[positions@[i] as int]) == Some(domains@[i])
                    },
                self.node_count == old(self).node_count,
                self.nodes == old(self).nodes,
                self.resolution == old(self).resolution,
                self.tenants == old(self).tenants,
                record_views(self.filters@) == values + value_records(
                    node,
                    filters,
                    index as nat,
                    at as nat,
                ),
                record_views(self.texts@) == texts + text_records(
                    node,
                    filters,
                    index as nat,
                    at as nat,
                ),
                forall|i: int|
                    0 <= i < at ==> #[trigger] positions@[i] <= u32::MAX && cell_valid(
                        row.filters@[i],
                        domains@[i],
                    ),
            decreases positions@.len() - at,
        {
            let ghost wanted = node_filters(node, filters);
            assert(positions@[at as int] == wanted[at as int]);
            let value: Option<ScannedFilterValue> = match read_filter_value(
                &row.filters[at],
                domains[at],
            ) {
                Ok(value) => value,
                Err(error) => {
                    assert(!cell_valid(row.filters@[at as int], domains@[at as int]));
                    assert(wanted[at as int] == positions@[at as int]);
                    return Err(error);
                },
            };
            if positions[at] > u32::MAX as usize {
                assert(wanted[at as int] > u32::MAX);
                return Err(internal("too many filter columns"));
            }
            let ordinal: u32 = positions[at] as u32;
            assert(value == node_value(node, filters, at as int));
            assert(cell_valid(row.filters@[at as int], domains@[at as int]));
            match value {
                None => {},
                Some(ScannedFilterValue::Text(text)) => {
                    let record: RunRecord = encode_dictionary_record(
                        ordinal,
                        text.as_str(),
                        index,
                    );
                    let ghost before = self.texts@;
                    self.texts.push(record);
                    proof {
                        lemma_views_push(before, record);
                    }
                },
                Some(value) => {
                    let record: RunRecord = match encode_filter_record(ordinal, index, &value) {
                        Ok(record) => record,
                        Err(error) => return Err(error),
                    };
                    let ghost before = self.filters@;
                    self.filters.push(record);
                    proof {
                        lemma_views_push(before, record);
                    }
                },
            }
            proof {
                assert forall|i: int| 0 <= i < at + 1 implies #[trigger] positions@[i] <= u32::MAX
                    && cell_valid(row.filters@[i], domains@[i]) by {
                    if i == at {
                        assert(cell_valid(row.filters@[at as int], domains@[at as int]));
                    }
                }
            }
            at = at + 1;
            proof {
                assert(record_views(self.filters@) =~= values + value_records(
                    node,
                    filters,
                    index as nat,
                    at as nat,
                ));
                assert(record_views(self.texts@) =~= texts + text_records(
                    node,
                    filters,
                    index as nat,
                    at as nat,
                ));
            }
        }
        proof {
            let wanted = node_filters(node, filters);
            assert forall|i: int| 0 <= i < wanted.len() implies #[trigger] wanted[i] <= u32::MAX
                && cell_valid(
                node.row.filters@[i],
                column_domain(filters[wanted[i]])->Some_0,
            ) by {
                assert(positions@[i] == wanted[i]);
            }
        }
        Ok(())
    }
}

/// The views of a list with one more record.
pub proof fn lemma_views_push(records: Seq<RunRecord>, record: RunRecord)
    ensures
        record_views(records.push(record)) == record_views(records).push(record@),
{
    assert(record_views(records.push(record)) =~= record_views(records).push(record@));
}

/// One more node adds its records after those before it.
proof fn lemma_node_added(
    nodes: Seq<SourceNode>,
    node: SourceNode,
    filters: Seq<RegisteredFilterColumn>,
)
    ensures
        ({
            let grown = nodes.push(node);
            let index = nodes.len();
            let count = node_filters(node, filters).len();
            &&& all_nodes(grown) == all_nodes(nodes).push(
                node_record(index, node.table.table_oid as nat, source_key(node)),
            )
            &&& all_resolution(grown) == all_resolution(nodes).push(
                resolution_record(
                    node.table.table_oid as nat,
                    key_hash(source_key(node)) as nat,
                    index,
                ),
            )
            &&& all_values(grown, filters) == all_values(nodes, filters) + value_records(
                node,
                filters,
                index,
                count,
            )
            &&& all_texts(grown, filters) == all_texts(nodes, filters) + text_records(
                node,
                filters,
                index,
                count,
            )
            &&& all_tenants(grown) == all_tenants(nodes) + tenant_records(node, index)
        }),
{
    let grown = nodes.push(node);
    assert(grown.drop_last() =~= nodes);
    assert(all_nodes(grown) =~= all_nodes(nodes).push(
        node_record(nodes.len(), node.table.table_oid as nat, source_key(node)),
    ));
    assert(all_resolution(grown) =~= all_resolution(nodes).push(
        resolution_record(
            node.table.table_oid as nat,
            key_hash(source_key(node)) as nat,
            nodes.len(),
        ),
    ));
}

/// The filter columns of a table that all name a domain.
pub open spec fn table_domains_valid(
    table: RegisteredTable,
    filters: Seq<RegisteredFilterColumn>,
) -> bool {
    let positions = filters_of_table(filters, table.table_oid, filters.len());
    forall|i: int|
        0 <= i < positions.len() ==> column_domain(filters[#[trigger] positions[i]]) is Some
}

/// Whether every row of a table that becomes a node can be staged.
pub open spec fn rows_valid(nodes: Seq<SourceNode>, filters: Seq<RegisteredFilterColumn>) -> bool {
    forall|i: int| 0 <= i < nodes.len() ==> row_valid(#[trigger] nodes[i], filters)
}

impl SourceScan {
    /// Stages a row. One without a key is passed over.
    pub(crate) fn scan_row(
        &mut self,
        table: &RegisteredTable,
        row: &SourceRow,
        positions: &Vec<usize>,
        domains: &Vec<FilterColumnType>,
        Ghost(nodes): Ghost<Seq<SourceNode>>,
        Ghost(filters): Ghost<Seq<RegisteredFilterColumn>>,
    ) -> (result: GraphResult<()>)
        requires
            old(self).holds(nodes, filters),
            positions@.len() == filters_of_table(filters, table.table_oid, filters.len()).len(),
            domains@.len() == positions@.len(),
            forall|i: int|
                0 <= i < positions@.len() ==> {
                    &&& #[trigger] positions@[i] == filters_of_table(
                        filters,
                        table.table_oid,
                        filters.len(),
                    )[i]
                    &&& positions@[i] < filters.len()
                    &&& column_domain(filters[positions@[i] as int]) == Some(domains@[i])
                },
        ensures
            ({
                let node = SourceNode { table: *table, row: *row };
                &&& result is Ok <==> row.primary_key is None || (row_valid(node, filters)
                    && nodes.len() < u32::MAX)
                &&& result is Ok ==> final(self).holds(
                    if row.primary_key is Some {
                        nodes.push(node)
                    } else {
                        nodes
                    },
                    filters,
                )
                &&& result matches Err(error) ==> error@ is Internal || error@ is InvalidFilter
            }),
    {
        let key: &String = match &row.primary_key {
            Some(key) => key,
            None => return Ok(()),
        };
        let ghost node = SourceNode { table: *table, row: *row };
        if row.filters.len() != positions.len() {
            return Err(internal("source row has another number of filter values"));
        }
        let index: u32 = self.node_count;
        if index == u32::MAX {
            return Err(internal("persisted build exceeds u32 nodes"));
        }
        let record: RunRecord = match encode_node_record(index, table.table_oid, key.as_str()) {
            Ok(record) => record,
            Err(error) => return Err(error),
        };
        if let Err(error) = self.stage_values(
            index,
            row,
            positions,
            domains,
            Ghost(node),
            Ghost(filters),
        ) {
            return Err(error);
        }
        let ghost before = *self;
        self.node_count = index + 1;
        self.nodes.push(record);
        let resolution: RunRecord = encode_resolution_record(
            index,
            table.table_oid,
            key.as_str(),
        );
        self.resolution.push(resolution);
        if table.tenant_column.is_some() {
            if let Some(tenant) = &row.tenant {
                let tenant_record: RunRecord = encode_tenant_dictionary_record(
                    tenant.as_str(),
                    index,
                );
                self.tenants.push(tenant_record);
                proof {
                    lemma_views_push(before.tenants@, tenant_record);
                }
            }
        }
        proof {
            lemma_views_push(before.nodes@, record);
            lemma_views_push(before.resolution@, resolution);
            lemma_node_added(nodes, node, filters);
            assert(record_views(self.tenants@) =~= all_tenants(nodes.push(node)));
        }
        Ok(())
    }

    /// Stages a table's rows.
    pub(crate) fn scan_table(
        &mut self,
        table: &RegisteredTable,
        rows: &Vec<SourceRow>,
        filters: &Vec<RegisteredFilterColumn>,
        Ghost(nodes): Ghost<Seq<SourceNode>>,
    ) -> (result: GraphResult<()>)
        requires
            old(self).holds(nodes, filters@),
        ensures
            ({
                let added = table_nodes(*table, rows@, rows@.len());
                &&& result is Ok <==> table_domains_valid(*table, filters@) && rows_valid(
                    added,
                    filters@,
                ) && nodes.len() + added.len() <= u32::MAX
                &&& result is Ok ==> final(self).holds(nodes + added, filters@)
                &&& result matches Err(error) ==> error@ is Internal || error@ is InvalidFilter
            }),
    {
        let positions: Vec<usize> = table_filters(filters, table.table_oid);
        let ghost wanted = filters_of_table(filters@, table.table_oid, filters@.len());
        let mut domains: Vec<FilterColumnType> = Vec::new();
        let mut at: usize = 0;
        while at < positions.len()
            invariant
                at <= positions@.len() == wanted.len(),
                wanted == filters_of_table(filters@, table.table_oid, filters@.len()),
                domains@.len() == at,
                forall|i: int|
                    0 <= i < positions@.len() ==> #[trigger] positions@[i] == wanted[i]
                        && positions@[i] < filters@.len(),
                forall|i: int|
                    0 <= i < at ==> column_domain(filters@[#[trigger] positions@[i] as int])
                        == Some(domains@[i]),
            decreases positions@.len() - at,
        {
            assert(positions@[at as int] == wanted[at as int]);
            match FilterColumnType::parse(filters[positions[at]].column_type.as_str()) {
                Ok(domain) => {
                    domains.push(domain);
                },
                Err(reason) => {
                    assert(column_domain(filters@[wanted[at as int]]) is None);
                    return Err(GraphError::InvalidFilter { reason });
                },
            }
            at = at + 1;
        }
        proof {
            assert forall|i: int| 0 <= i < wanted.len() implies column_domain(
                filters@[#[trigger] wanted[i]],
            ) is Some by {
                assert(positions@[i] == wanted[i]);
            }
        }
        let mut at: usize = 0;
        proof {
            assert(nodes + table_nodes(*table, rows@, 0) =~= nodes);
        }
        while at < rows.len()
            invariant
                at <= rows@.len(),
                wanted == filters_of_table(filters@, table.table_oid, filters@.len()),
                positions@.len() == wanted.len() == domains@.len(),
                forall|i: int|
                    0 <= i < positions@.len() ==> {
                        &&& #[trigger] positions@[i] == wanted[i]
                        &&& positions@[i] < filters@.len()
                        &&& column_domain(filters@[positions@[i] as int]) == Some(domains@[i])
                    },
                table_domains_valid(*table, filters@),
                self.holds(nodes + table_nodes(*table, rows@, at as nat), filters@),
                rows_valid(table_nodes(*table, rows@, at as nat), filters@),
                nodes.len() + table_nodes(*table, rows@, at as nat).len() <= u32::MAX,
            decreases rows@.len() - at,
        {
            let ghost taken = table_nodes(*table, rows@, at as nat);
            let ghost more = table_nodes(*table, rows@, (at + 1) as nat);
            let ghost node = SourceNode { table: *table, row: rows@[at as int] };
            proof {
                lemma_table_grows(*table, rows@, (at + 1) as nat, rows@.len());
            }
            if let Err(error) = self.scan_row(
                table,
                &rows[at],
                &positions,
                &domains,
                Ghost(nodes + taken),
                Ghost(filters@),
            ) {
                proof {
                    let all = table_nodes(*table, rows@, rows@.len());
                    assert(more =~= taken.push(node));
                    assert(all[taken.len() as int] == more[taken.len() as int]);
                    assert(!row_valid(all[taken.len() as int], filters@) || nodes.len() + all.len()
                        > u32::MAX);
                }
                return Err(error);
            }
            proof {
                if rows@[at as int].primary_key is Some {
                    assert((nodes + taken).push(node) =~= nodes + more);
                    assert forall|i: int| 0 <= i < more.len() implies row_valid(
                        #[trigger] more[i],
                        filters@,
                    ) by {
                        if i < taken.len() {
                            assert(more[i] == taken[i]);
                        }
                    }
                }
            }
            at = at + 1;
        }
        Ok(())
    }
}

/// The nodes of more rows start with those of fewer.
proof fn lemma_table_grows(table: RegisteredTable, rows: Seq<SourceRow>, small: nat, large: nat)
    requires
        small <= large <= rows.len(),
    ensures
        table_nodes(table, rows, small).len() <= table_nodes(table, rows, large).len(),
        forall|i: int|
            0 <= i < table_nodes(table, rows, small).len() ==> #[trigger] table_nodes(
                table,
                rows,
                small,
            )[i] == table_nodes(table, rows, large)[i],
    decreases large,
{
    if small < large {
        lemma_table_grows(table, rows, small, (large - 1) as nat);
    }
}

} // verus!
