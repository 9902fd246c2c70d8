//! Text of the queries that scan source tables and relationships.
use vstd::prelude::*;
use vstd::string::StringExecFns;

use crate::direct_filters::RegisteredFilterColumn;
use crate::text::{ascii_lower, characters, decimal, decimal_text, spells, text_of};

verus! {

/// The columns that identify a row.
#[derive(Debug)]
pub struct PrimaryKeySpec {
    pub columns: Vec<String>,
}

/// A table whose rows become nodes.
#[derive(Debug)]
pub struct RegisteredTable {
    pub table_oid: u32,
    pub id_columns: PrimaryKeySpec,
    pub tenant_column: Option<String>,
}

/// A table whose rows become relationships.
#[derive(Debug)]
pub struct RegisteredEdge {
    pub mapping_id: u64,
    pub from_table_oid: u32,
    pub to_table_oid: u32,
    pub from_column: String,
    pub to_column: String,
    pub source_key_columns: PrimaryKeySpec,
    pub label: String,
    pub label_column: Option<String>,
    pub weight_column: Option<String>,
    pub bidirectional: bool,
}

/// Text with each double quote written twice.
pub open spec fn doubled_quotes(text: Seq<char>) -> Seq<char>
    decreases text.len(),
{
    if text.len() == 0 {
        Seq::empty()
    } else if text.last() == '"' {
        doubled_quotes(text.drop_last()) + seq!['"', '"']
    } else {
        doubled_quotes(text.drop_last()).push(text.last())
    }
}

/// A quoted identifier.
pub open spec fn quoted(name: Seq<char>) -> Seq<char> {
    seq!['"'] + doubled_quotes(name) + seq!['"']
}

/// Quotes an identifier.
pub fn quote_ident(name: &str) -> (text: String)
    ensures
        text@ == quoted(name@),
{
    let list: Vec<char> = characters(name);
    let mut out: Vec<char> = Vec::new();
    out.push('"');
    let ghost head = seq!['"'];
    let mut at: usize = 0;
    proof {
        assert(list@.take(0).len() == 0);
        assert(out@ =~= head + doubled_quotes(list@.take(0)));
    }
    while at < list.len()
        invariant
            at <= list@.len(),
            head == seq!['"'],
            out@ == head + doubled_quotes(list@.take(at as int)),
        decreases list@.len() - at,
    {
        proof {
            assert(list@.take(at + 1).drop_last() =~= list@.take(at as int));
        }
        if list[at] == '"' {
            out.push('"');
        }
        out.push(list[at]);
        proof {
            assert(out@ =~= head + doubled_quotes(list@.take(at + 1)));
        }
        at = at + 1;
    }
    out.push('"');
    proof {
        assert(list@.take(at as int) =~= list@);
        assert(out@ =~= quoted(name@));
    }
    text_of(&out)
}

/// A column of an aliased row.
pub open spec fn aliased(alias: Seq<char>, column: Seq<char>) -> Seq<char> {
    alias + "."@ + quoted(column)
}

/// A column of an aliased row.
pub fn aliased_column(alias: &str, column: &str) -> (text: String)
    ensures
        text@ == aliased(alias@, column@),
{
    alias.to_owned().concat(".").concat(quote_ident(column).as_str())
}

/// A list of columns as text, separated by commas.
pub open spec fn text_list(alias: Option<Seq<char>>, columns: Seq<String>, count: nat) -> Seq<char>
    decreases count,
{
    if count == 0 {
        Seq::empty()
    } else {
        let rest = text_list(alias, columns, (count - 1) as nat);
        (if count > 1 {
            rest + ", "@
        } else {
            rest
        }) + column_text(alias, columns[count - 1]@) + "::text"@
    }
}

/// A column, of an aliased row if there is an alias.
pub open spec fn column_text(alias: Option<Seq<char>>, column: Seq<char>) -> Seq<char> {
    match alias {
        Some(alias) => aliased(alias, column),
        None => quoted(column),
    }
}

/// The key of several columns: their texts as a JSON array.
pub open spec fn composite_key(alias: Option<Seq<char>>, columns: Seq<String>) -> Seq<char> {
    "jsonb_build_array("@ + text_list(alias, columns, columns.len()) + ")::text"@
}

fn composite_expr(alias: Option<&str>, columns: &Vec<String>) -> (text: String)
    ensures
        text@ == composite_key(
            match alias {
                Some(alias) => Some(alias@),
                None => None,
            },
            columns@,
        ),
{
    let ghost name: Option<Seq<char>> = match alias {
        Some(alias) => Some(alias@),
        None => None,
    };
    let mut list: String = "".to_owned();
    let mut at: usize = 0;
    proof {
        reveal_strlit("");
        assert(list@ =~= text_list(name, columns@, 0));
    }
    while at < columns.len()
        invariant
            at <= columns@.len(),
            name == (match alias {
                Some(alias) => Some(alias@),
                None => None,
            }),
            list@ == text_list(name, columns@, at as nat),
        decreases columns@.len() - at,
    {
        if at > 0 {
            list = list.concat(", ");
        }
        let column: String = match alias {
            Some(alias) => aliased_column(alias, columns[at].as_str()),
            None => quote_ident(columns[at].as_str()),
        };
        list = list.concat(column.as_str()).concat("::text");
        at = at + 1;
    }
    "jsonb_build_array(".to_owned().concat(list.as_str()).concat(")::text")
}

/// The key of a row under an alias.
pub open spec fn aliased_key(alias: Seq<char>, columns: Seq<String>) -> Seq<char> {
    if columns.len() > 1 {
        composite_key(Some(alias), columns)
    } else if columns.len() == 1 {
        aliased(alias, columns[0]@)
    } else {
        "NULL"@
    }
}

/// The key of a row under an alias.
pub fn aliased_pk_expr(spec_columns: &PrimaryKeySpec, alias: &str) -> (text: String)
    ensures
        text@ == aliased_key(alias@, spec_columns.columns@),
{
    let columns: &Vec<String> = &spec_columns.columns;
    if columns.len() > 1 {
        composite_expr(Some(alias), columns)
    } else if columns.len() == 1 {
        aliased_column(alias, columns[0].as_str())
    } else {
        "NULL".to_owned()
    }
}

/// The key of a row as text.
pub open spec fn selected_key(columns: Seq<String>) -> Seq<char> {
    if columns.len() > 1 {
        composite_key(None, columns)
    } else if columns.len() == 1 {
        quoted(columns[0]@) + "::text"@
    } else {
        "NULL"@
    }
}

impl PrimaryKeySpec {
    /// The key of a row as text.
    pub fn select_expr(&self) -> (text: String)
        ensures
            text@ == selected_key(self.columns@),
    {
        if self.columns.len() > 1 {
            composite_expr(None, &self.columns)
        } else if self.columns.len() == 1 {
            quote_ident(self.columns[0].as_str()).concat("::text")
        } else {
            "NULL".to_owned()
        }
    }
}

/// The expression that reads a filter column in its domain.
pub open spec fn filter_expr(column: RegisteredFilterColumn) -> Seq<char> {
    let name = quoted(column.column_name@);
    let kind = ascii_lower(column.column_type@);
    if kind == "boolean"@ {
        "("@ + name + ")::boolean"@
    } else if kind == "text"@ || kind == "uuid"@ {
        "("@ + name + ")::text"@
    } else if kind == "date"@ {
        "(("@ + name + ")::date - DATE '1970-01-01')::bigint"@
    } else if kind == "timestamptz"@ {
        "(EXTRACT(EPOCH FROM ("@ + name + ")::timestamptz) * 1000000)::bigint"@
    } else {
        "("@ + name + ")::bigint"@
    }
}

/// The expression that reads a filter column in its domain.
pub fn filter_select_expr(column: &RegisteredFilterColumn) -> (text: String)
    ensures
        text@ == filter_expr(*column),
{
    let name: String = quote_ident(column.column_name.as_str());
    let kind: Vec<char> = lower_characters(column.column_type.as_str());
    if spells(&kind, "boolean") {
        "(".to_owned().concat(name.as_str()).concat(")::boolean")
    } else if spells(&kind, "text") || spells(&kind, "uuid") {
        "(".to_owned().concat(name.as_str()).concat(")::text")
    } else if spells(&kind, "date") {
        "((".to_owned().concat(name.as_str()).concat(")::date - DATE '1970-01-01')::bigint")
    } else if spells(&kind, "timestamptz") {
        "(EXTRACT(EPOCH FROM (".to_owned().concat(name.as_str()).concat(
            ")::timestamptz) * 1000000)::bigint",
        )
    } else {
        "(".to_owned().concat(name.as_str()).concat(")::bigint")
    }
}

/// Characters with ASCII capitals as small letters.
fn lower_characters(text: &str) -> (list: Vec<char>)
    ensures
        list@ == ascii_lower(text@),
{
    let all: Vec<char> = characters(text);
    let mut list: Vec<char> = Vec::new();
    let mut at: usize = 0;
    while at < all.len()
        invariant
            at <= all@.len(),
            list@ =~= ascii_lower(all@).take(at as int),
        decreases all@.len() - at,
    {
        list.push(crate::text::small(all[at]));
        at = at + 1;
    }
    assert(ascii_lower(all@).take(at as int) =~= ascii_lower(all@));
    list
}

/// The filter columns of a table, with their positions among all.
pub open spec fn filters_of_table(
    filters: Seq<RegisteredFilterColumn>,
    table_oid: u32,
    count: nat,
) -> Seq<int>
    decreases count,
{
    if count == 0 {
        Seq::empty()
    } else {
        let rest = filters_of_table(filters, table_oid, (count - 1) as nat);
        if filters[count - 1].table_oid == table_oid {
            rest.push(count - 1)
        } else {
            rest
        }
    }
}

/// Expressions of filter columns, each after a comma.
pub open spec fn filter_exprs(
    filters: Seq<RegisteredFilterColumn>,
    positions: Seq<int>,
    count: nat,
) -> Seq<char>
    decreases count,
{
    if count == 0 {
        Seq::empty()
    } else {
        filter_exprs(filters, positions, (count - 1) as nat) + ", "@ + filter_expr(
            filters[positions[count - 1]],
        )
    }
}

/// The query that scans a table's rows in order of their keys.
pub open spec fn source_query_text(
    table: RegisteredTable,
    filters: Seq<RegisteredFilterColumn>,
    source: Seq<char>,
) -> Seq<char> {
    let positions = filters_of_table(filters, table.table_oid, filters.len());
    "SELECT "@ + selected_key(table.id_columns.columns@) + filter_exprs(
        filters,
        positions,
        positions.len(),
    ) + (match table.tenant_column {
        Some(column) => ", "@ + (quoted(column@) + "::text"@),
        None => ""@,
    }) + " FROM "@ + source + " ORDER BY 1"@
}

/// The positions of a table's filter columns.
pub fn table_filters(filters: &Vec<RegisteredFilterColumn>, table_oid: u32) -> (positions: Vec<
    usize,
>)
    ensures
        positions@.len() == filters_of_table(filters@, table_oid, filters@.len()).len(),
        forall|i: int|
            0 <= i < positions@.len() ==> #[trigger] positions@[i] == filters_of_table(
                filters@,
                table_oid,
                filters@.len(),
            )[i] && positions@[i] < filters@.len(),
{
    let mut positions: Vec<usize> = Vec::new();
    let mut at: usize = 0;
    while at < filters.len()
        invariant
            at <= filters@.len(),
            positions@.len() == filters_of_table(filters@, table_oid, at as nat).len(),
            forall|i: int|
                0 <= i < positions@.len() ==> #[trigger] positions@[i] == filters_of_table(
                    filters@,
                    table_oid,
                    at as nat,
                )[i] && positions@[i] < filters@.len(),
        decreases filters@.len() - at,
    {
        if filters[at].table_oid == table_oid {
            positions.push(at);
        }
        at = at + 1;
    }
    positions
}

/// The query that scans a table's rows in order of their keys.
pub fn source_query(
    table: &RegisteredTable,
    filters: &Vec<RegisteredFilterColumn>,
    source: &str,
) -> (text: String)
    ensures
        text@ == source_query_text(*table, filters@, source@),
{
    let positions: Vec<usize> = table_filters(filters, table.table_oid);
    let ghost wanted = filters_of_table(filters@, table.table_oid, filters@.len());
    let head: String = "SELECT ".to_owned().concat(table.id_columns.select_expr().as_str());
    let mut list: String = "".to_owned();
    let mut at: usize = 0;
    proof {
        reveal_strlit("");
        assert(list@ =~= filter_exprs(filters@, wanted, 0));
    }
    while at < positions.len()
        invariant
            at <= positions@.len() == wanted.len(),
            forall|i: int|
                0 <= i < positions@.len() ==> #[trigger] positions@[i] == wanted[i] && positions@[i]
                    < filters@.len(),
            list@ == filter_exprs(filters@, wanted, at as nat),
        decreases positions@.len() - at,
    {
        let expression: String = filter_select_expr(&filters[positions[at]]);
        list = list.concat(", ").concat(expression.as_str());
        at = at + 1;
    }
    let tenant: String = match &table.tenant_column {
        Some(column) => ", ".to_owned().concat(
            quote_ident(column.as_str()).concat("::text").as_str(),
        ),
        None => "".to_owned(),
    };
    head.concat(list.as_str()).concat(tenant.as_str()).concat(" FROM ").concat(source).concat(
        " ORDER BY 1",
    )
}

/// The order of optional columns of a relationship query.
pub open spec fn optional_order(has_weight: bool, has_label: bool) -> Seq<char> {
    if has_weight && has_label {
        ", 4, 5"@
    } else if has_weight || has_label {
        ", 4"@
    } else {
        ""@
    }
}

/// The order of optional columns of a relationship query.
pub fn stable_optional_order(has_weight: bool, has_label: bool) -> (text: &'static str)
    ensures
        text@ == optional_order(has_weight, has_label),
{
    match (has_weight, has_label) {
        (false, false) => "",
        (true, false) => ", 4",
        (false, true) => ", 4",
        (true, true) => ", 4, 5",
    }
}

/// The position of the label among the columns of a relationship query.
pub fn dynamic_label_column(has_weight: bool) -> (column: usize)
    ensures
        column == (if has_weight {
            5usize
        } else {
            4usize
        }),
{
    if has_weight {
        5
    } else {
        4
    }
}

/// An optional column, cast, after a comma.
pub open spec fn optional_column(column: Option<String>, cast: Seq<char>) -> Seq<char> {
    match column {
        Some(column) => ", ("@ + aliased("edge_row"@, column@) + cast,
        None => ""@,
    }
}

fn optional_column_text(column: &Option<String>, cast: &str) -> (text: String)
    ensures
        text@ == optional_column(*column, cast@),
{
    match column {
        Some(column) => ", (".to_owned().concat(
            aliased_column("edge_row", column.as_str()).as_str(),
        ).concat(cast),
        None => "".to_owned(),
    }
}

/// The first table with an identifier.
pub open spec fn is_first_table(
    tables: Seq<RegisteredTable>,
    table_oid: u32,
    found: Option<int>,
) -> bool {
    match found {
        Some(at) => 0 <= at < tables.len() && tables[at].table_oid == table_oid && forall|i: int|
            0 <= i < at ==> (#[trigger] tables[i]).table_oid != table_oid,
        None => forall|i: int|
            0 <= i < tables.len() ==> (#[trigger] tables[i]).table_oid != table_oid,
    }
}

/// Finds the first table with an identifier.
pub fn find_table(tables: &Vec<RegisteredTable>, table_oid: u32) -> (found: Option<usize>)
    ensures
        is_first_table(
            tables@,
            table_oid,
            match found {
                Some(at) => Some(at as int),
                None => None,
            },
        ),
{
    let mut at: usize = 0;
    while at < tables.len()
        invariant
            at <= tables@.len(),
            forall|i: int| 0 <= i < at ==> (#[trigger] tables@[i]).table_oid != table_oid,
        decreases tables@.len() - at,
    {
        if tables[at].table_oid == table_oid {
            return Some(at);
        }
        at = at + 1;
    }
    None
}

/// The expression of a relationship's source: the key of its own row where the
/// row is a node, else a column.
pub open spec fn from_expr(edge: RegisteredEdge, node_table: Option<RegisteredTable>) -> Seq<char> {
    match node_table {
        Some(table) => aliased_key("edge_row"@, table.id_columns.columns@),
        None => aliased("edge_row"@, edge.from_column@),
    }
}

/// The expression of a relationship's target.
pub open spec fn to_expr(edge: RegisteredEdge, node_table: Option<RegisteredTable>) -> Seq<char> {
    match node_table {
        Some(_) => aliased("edge_row"@, edge.from_column@),
        None => aliased("edge_row"@, edge.to_column@),
    }
}

/// A lookup of the node that an expression names, one of the given table first.
pub open spec fn lookup_text(expression: Seq<char>, table_oid: u32, alias: Seq<char>) -> Seq<char> {
    "\n             JOIN LATERAL (\n               SELECT node_idx FROM pg_temp.graph_build_nodes\n               WHERE primary_key = ("@
        + expression + ")::text\n               ORDER BY (table_oid = "@ + decimal(
        table_oid as nat,
    ) + ") DESC, table_oid LIMIT 1\n             ) "@ + alias + " ON true"@
}

/// The query that scans relationships, both ends resolved to nodes.
pub open spec fn edge_query_text(
    edge: RegisteredEdge,
    node_table: Option<RegisteredTable>,
    source: Seq<char>,
) -> Seq<char> {
    "SELECT source_node.node_idx, target_node.node_idx, ("@ + aliased_key(
        "edge_row"@,
        edge.source_key_columns.columns@,
    ) + ")::text"@ + optional_column(edge.weight_column, ")::bigint"@) + optional_column(
        edge.label_column,
        ")::text"@,
    ) + "\n             FROM "@ + source + " AS edge_row"@ + lookup_text(
        from_expr(edge, node_table),
        edge.from_table_oid,
        "source_node"@,
    ) + lookup_text(to_expr(edge, node_table), edge.to_table_oid, "target_node"@)
        + "\n             ORDER BY 3, 1, 2"@ + optional_order(
        edge.weight_column is Some,
        edge.label_column is Some,
    )
}

fn lookup_clause(expression: &str, table_oid: u32, alias: &str) -> (text: String)
    ensures
        text@ == lookup_text(expression@, table_oid, alias@),
{
    "\n             JOIN LATERAL (\n               SELECT node_idx FROM pg_temp.graph_build_nodes\n               WHERE primary_key = (".to_owned().concat(
        expression,
    ).concat(")::text\n               ORDER BY (table_oid = ").concat(
        decimal_text(table_oid as u64).as_str(),
    ).concat(") DESC, table_oid LIMIT 1\n             ) ").concat(alias).concat(" ON true")
}

/// The query that scans relationships, both ends resolved to nodes.
pub fn edge_query(edge: &RegisteredEdge, node_table: Option<&RegisteredTable>, source: &str) -> (text:
    String)
    ensures
        text@ == edge_query_text(
            *edge,
            match node_table {
                Some(table) => Some(*table),
                None => None,
            },
            source@,
        ),
{
    let from: String = match node_table {
        Some(table) => aliased_pk_expr(&table.id_columns, "edge_row"),
        None => aliased_column("edge_row", edge.from_column.as_str()),
    };
    let to: String = match node_table {
        Some(_) => aliased_column("edge_row", edge.from_column.as_str()),
        None => aliased_column("edge_row", edge.to_column.as_str()),
    };
    "SELECT source_node.node_idx, target_node.node_idx, (".to_owned().concat(
        aliased_pk_expr(&edge.source_key_columns, "edge_row").as_str(),
    ).concat(")::text").concat(
        optional_column_text(&edge.weight_column, ")::bigint").as_str(),
    ).concat(optional_column_text(&edge.label_column, ")::text").as_str()).concat(
        "\n             FROM ",
    ).concat(source).concat(" AS edge_row").concat(
        lookup_clause(from.as_str(), edge.from_table_oid, "source_node").as_str(),
    ).concat(lookup_clause(to.as_str(), edge.to_table_oid, "target_node").as_str()).concat(
        "\n             ORDER BY 3, 1, 2",
    ).concat(
        stable_optional_order(edge.weight_column.is_some(), edge.label_column.is_some()),
    )
}

} // verus!
