//! What the queries of a scan ask for, item by item.
use vstd::prelude::*;

use crate::direct_filters::RegisteredFilterColumn;
use crate::scan_sql::{
    aliased_key, edge_query, filter_expr, filter_exprs, filters_of_table, quoted,
    selected_key, source_query, text_list, RegisteredEdge, RegisteredTable,
};
use crate::text::{ascii_lower, decimal};

verus! {

/// Texts with a comma between each two.
pub open spec fn with_commas(items: Seq<Seq<char>>) -> Seq<char>
    decreases items.len(),
{
    if items.len() == 0 {
        Seq::empty()
    } else if items.len() == 1 {
        items[0]
    } else {
        with_commas(items.drop_last()) + ", "@ + items.last()
    }
}

/// A column, of an aliased row where there is an alias.
pub open spec fn column_name(alias: Option<Seq<char>>, column: Seq<char>) -> Seq<char> {
    match alias {
        Some(alias) => alias + "."@ + quoted(column),
        None => quoted(column),
    }
}

/// Several columns as one text: a JSON array of the columns' texts.
pub open spec fn array_of(alias: Option<Seq<char>>, columns: Seq<String>) -> Seq<char> {
    "jsonb_build_array("@ + with_commas(
        Seq::new(columns.len(), |i: int| column_name(alias, columns[i]@) + "::text"@),
    ) + ")::text"@
}

proof fn lemma_text_list(alias: Option<Seq<char>>, columns: Seq<String>, count: nat)
    requires
        count <= columns.len(),
    ensures
        text_list(alias, columns, count) == with_commas(
            Seq::new(count, |i: int| column_name(alias, columns[i]@) + "::text"@),
        ),
    decreases count,
{
    let items = Seq::new(count, |i: int| column_name(alias, columns[i]@) + "::text"@);
    if count > 0 {
        let less = (count - 1) as nat;
        lemma_text_list(alias, columns, less);
        assert(items.drop_last() =~= Seq::new(
            less,
            |i: int| column_name(alias, columns[i]@) + "::text"@,
        ));
        let before = text_list(alias, columns, less);
        if count > 1 {
            assert(before + ", "@ + column_name(alias, columns[count - 1]@) + "::text"@
                =~= before + ", "@ + items.last());
        } else {
            assert(before =~= Seq::<char>::empty());
            assert(before + column_name(alias, columns[count - 1]@) + "::text"@ =~= items[0]);
        }
    }
}

/// A key of several columns is a JSON array of their texts, one of a single
/// column is that column, and one of none is `NULL`.
pub proof fn law_keys_name_their_columns(alias: Seq<char>, columns: Seq<String>)
    ensures
        columns.len() > 1 ==> selected_key(columns) == array_of(None, columns),
        columns.len() > 1 ==> aliased_key(alias, columns) == array_of(Some(alias), columns),
        columns.len() == 1 ==> selected_key(columns) == quoted(columns[0]@) + "::text"@,
        columns.len() == 1 ==> aliased_key(alias, columns) == alias + "."@ + quoted(columns[0]@),
        columns.len() == 0 ==> selected_key(columns) == "NULL"@ && aliased_key(alias, columns)
            == "NULL"@,
{
    lemma_text_list(None, columns, columns.len());
    lemma_text_list(Some(alias), columns, columns.len());
}

/// How a filter column is read: as what its type says, a date as days and a time
/// as microseconds since 1970, and any other number as it is.
pub proof fn law_filter_columns_are_read_by_type(column: RegisteredFilterColumn)
    ensures
        ({
            let name = quoted(column.column_name@);
            let kind = ascii_lower(column.column_type@);
            let read = filter_expr(column);
            &&& kind == "numeric"@ ==> read == "("@ + name + ")::bigint"@
            &&& kind == "boolean"@ ==> read == "("@ + name + ")::boolean"@
            &&& kind == "text"@ || kind == "uuid"@ ==> read == "("@ + name + ")::text"@
            &&& kind == "date"@ ==> read == "(("@ + name + ")::date - DATE '1970-01-01')::bigint"@
            &&& kind == "timestamptz"@ ==> read == "(EXTRACT(EPOCH FROM ("@ + name
                + ")::timestamptz) * 1000000)::bigint"@
        }),
{
    reveal_strlit("numeric");
    reveal_strlit("boolean");
    reveal_strlit("text");
    reveal_strlit("date");
    reveal_strlit("timestamptz");
    reveal_strlit("uuid");
    assert("numeric"@[0] == 'n' && "boolean"@[0] == 'b' && "text"@[0] == 't' && "date"@[0] == 'd'
        && "timestamptz"@[0] == 't' && "uuid"@[0] == 'u');
    assert("text"@.len() == 4 && "timestamptz"@.len() == 11);
}

/// The filter columns of a table, in their order.
pub open spec fn own_columns(filters: Seq<RegisteredFilterColumn>, table: u32) -> Seq<
    RegisteredFilterColumn,
> {
    filters.filter(|column: RegisteredFilterColumn| column.table_oid == table)
}

/// What a scan of a table selects: the key, each filter column of the table, and
/// the tenant where there is one.
pub open spec fn selected(table: RegisteredTable, filters: Seq<RegisteredFilterColumn>) -> Seq<
    Seq<char>,
> {
    let own = own_columns(filters, table.table_oid);
    seq![selected_key(table.id_columns.columns@)] + Seq::new(
        own.len(),
        |i: int| filter_expr(own[i]),
    ) + match table.tenant_column {
        Some(column) => seq![quoted(column@) + "::text"@],
        None => Seq::empty(),
    }
}

proof fn lemma_exprs_prefix(
    filters: Seq<RegisteredFilterColumn>,
    left: Seq<int>,
    right: Seq<int>,
    count: nat,
)
    requires
        count <= left.len(),
        count <= right.len(),
        forall|i: int| 0 <= i < count ==> #[trigger] left[i] == right[i],
    ensures
        filter_exprs(filters, left, count) == filter_exprs(filters, right, count),
    decreases count,
{
    if count > 0 {
        lemma_exprs_prefix(filters, left, right, (count - 1) as nat);
        assert(left[count - 1] == right[count - 1]);
    }
}

/// Filter columns add one item each to a list that begins with the key.
proof fn lemma_listed_columns(
    head: Seq<char>,
    filters: Seq<RegisteredFilterColumn>,
    table: u32,
    count: nat,
)
    requires
        count <= filters.len(),
    ensures
        ({
            let positions = filters_of_table(filters, table, count);
            let own = own_columns(filters.take(count as int), table);
            let items = seq![head] + Seq::new(own.len(), |i: int| filter_expr(own[i]));
            &&& positions.len() == own.len()
            &&& with_commas(items) == head + filter_exprs(filters, positions, positions.len())
        }),
    decreases count,
{
    let positions = filters_of_table(filters, table, count);
    let own = own_columns(filters.take(count as int), table);
    let items = seq![head] + Seq::new(own.len(), |i: int| filter_expr(own[i]));
    reveal(Seq::filter);
    if count == 0 {
        assert(own.len() == 0);
        assert(items.len() == 1);
        assert(head + filter_exprs(filters, positions, 0) =~= head);
    } else {
        let less = (count - 1) as nat;
        lemma_listed_columns(head, filters, table, less);
        let earlier = filters_of_table(filters, table, less);
        let fewer = own_columns(filters.take(less as int), table);
        assert(filters.take(count as int).drop_last() =~= filters.take(less as int));
        if filters[count - 1].table_oid == table {
            assert(own == fewer.push(filters[count - 1]));
            assert(items.drop_last() =~= seq![head] + Seq::new(
                fewer.len(),
                |i: int| filter_expr(fewer[i]),
            ));
            assert(items.last() == filter_expr(filters[count - 1]));
            lemma_exprs_prefix(filters, earlier, positions, earlier.len());
            assert(positions[positions.len() - 1] == count - 1);
            let rest = filter_exprs(filters, positions, earlier.len());
            assert(filter_exprs(filters, positions, positions.len()) == rest + ", "@
                + filter_expr(filters[count - 1]));
            assert(head + rest + ", "@ + items.last() =~= head + (rest + ", "@ + items.last()));
        } else {
            assert(own == fewer);
            assert(positions == earlier);
        }
    }
}

/// The query of a table's scan selects the key, the table's filter columns and
/// the tenant, in that order, from the source, ordered by the key.
pub proof fn law_source_query_selects_columns(
    table: &RegisteredTable,
    filters: &Vec<RegisteredFilterColumn>,
    source: &str,
    text: String,
)
    requires
        call_ensures(source_query, (table, filters, source), text),
    ensures
        text@ == "SELECT "@ + with_commas(selected(*table, filters@)) + " FROM "@ + source@
            + " ORDER BY 1"@,
{
    let head = selected_key(table.id_columns.columns@);
    lemma_listed_columns(head, filters@, table.table_oid, filters@.len());
    assert(filters@.take(filters@.len() as int) =~= filters@);
    let own = own_columns(filters@, table.table_oid);
    let items = seq![head] + Seq::new(own.len(), |i: int| filter_expr(own[i]));
    let all = selected(*table, filters@);
    let positions = filters_of_table(filters@, table.table_oid, filters@.len());
    let listed = filter_exprs(filters@, positions, positions.len());
    reveal_strlit("");
    match table.tenant_column {
        Some(column) => {
            let tenant = quoted(column@) + "::text"@;
            assert(all.drop_last() =~= items);
            assert(all.last() == tenant);
            assert(text@ =~= "SELECT "@ + (head + listed + ", "@ + tenant) + " FROM "@ + source@
                + " ORDER BY 1"@);
        },
        None => {
            assert(all =~= items);
            assert(text@ =~= "SELECT "@ + (head + listed) + " FROM "@ + source@ + " ORDER BY 1"@);
        },
    }
}

/// How the query of a relationship finds the node of a key: among the built
/// nodes, one of the given table before any other.
pub open spec fn node_lookup(key: Seq<char>, table: u32, alias: Seq<char>) -> Seq<char> {
    "\n             JOIN LATERAL (\n               SELECT node_idx FROM pg_temp.graph_build_nodes\n               WHERE primary_key = ("@
        + key + ")::text\n               ORDER BY (table_oid = "@ + decimal(table as nat)
        + ") DESC, table_oid LIMIT 1\n             ) "@ + alias + " ON true"@
}

/// The query of a relationship's scan selects the two nodes, the row's key, the
/// weight and the label where there are columns for them, and is ordered by the
/// key, the nodes and these. Where the row is itself a node, it is the source, and
/// the relationship's first column names the target; else the first column names
/// the source and the second the target.
pub proof fn law_edge_query_joins_both_ends(
    edge: &RegisteredEdge,
    node_table: Option<&RegisteredTable>,
    source: &str,
    text: String,
)
    requires
        call_ensures(edge_query, (edge, node_table, source), text),
    ensures
        ({
            let row = "edge_row"@;
            let first = row + "."@ + quoted(edge.from_column@);
            let second = row + "."@ + quoted(edge.to_column@);
            let (from, to) = match node_table {
                Some(table) => (aliased_key(row, table.id_columns.columns@), first),
                None => (first, second),
            };
            let weight = match edge.weight_column {
                Some(column) => ", ("@ + (row + "."@ + quoted(column@)) + ")::bigint"@,
                None => ""@,
            };
            let label = match edge.label_column {
                Some(column) => ", ("@ + (row + "."@ + quoted(column@)) + ")::text"@,
                None => ""@,
            };
            let order = match (edge.weight_column, edge.label_column) {
                (Some(_), Some(_)) => ", 4, 5"@,
                (None, None) => ""@,
                _ => ", 4"@,
            };
            text@ == "SELECT source_node.node_idx, target_node.node_idx, ("@ + aliased_key(
                row,
                edge.source_key_columns.columns@,
            ) + ")::text"@ + weight + label + "\n             FROM "@ + source@ + " AS edge_row"@
                + node_lookup(from, edge.from_table_oid, "source_node"@) + node_lookup(
                to,
                edge.to_table_oid,
                "target_node"@,
            ) + "\n             ORDER BY 3, 1, 2"@ + order
        }),
{
}

} // verus!
