//! What is told of scanned nodes before relationships are queried: under which
//! table and key each node's number can be looked up.
use vstd::prelude::*;
use vstd::string::StringExecFns;

use crate::errors::{internal, ErrorView, GraphResult};
use crate::scan_rows::{table_nodes, SourceNode, SourceRow};
use crate::scan_sources::scan_nodes;
use crate::scan_sql::RegisteredTable;

verus! {

/// A node's number, under its table and key.
#[derive(Debug)]
pub struct NodeLookup {
    pub table_oid: u32,
    pub primary_key: String,
    pub node_idx: u32,
}

/// Whether an entry is that of a node.
pub open spec fn finds_node(lookup: NodeLookup, node: SourceNode, at: int) -> bool {
    &&& lookup.table_oid == node.table.table_oid
    &&& lookup.primary_key@ == node.row.primary_key->Some_0@
    &&& lookup.node_idx == at
}

/// Whether entries are those of nodes: one for each, in their order.
pub open spec fn finds_nodes(lookups: Seq<NodeLookup>, nodes: Seq<SourceNode>) -> bool {
    &&& lookups.len() == nodes.len()
    &&& forall|i: int|
        0 <= i < lookups.len() ==> finds_node(#[trigger] lookups[i], nodes[i], i)
}

/// More tables, and more rows of the last, have no fewer nodes.
proof fn lemma_more_nodes(
    tables: Seq<RegisteredTable>,
    rows: Seq<Vec<SourceRow>>,
    at: nat,
    row: nat,
)
    requires
        at < tables.len(),
        tables.len() == rows.len(),
        row <= rows[at as int]@.len(),
    ensures
        scan_nodes(tables, rows, at).len() + table_nodes(
            tables[at as int],
            rows[at as int]@,
            row,
        ).len() <= scan_nodes(tables, rows, tables.len()).len(),
{
    lemma_more_rows(tables[at as int], rows[at as int]@, row, rows[at as int]@.len());
    lemma_more_tables(tables, rows, at + 1, tables.len());
}

proof fn lemma_more_rows(table: RegisteredTable, rows: Seq<SourceRow>, small: nat, large: nat)
    requires
        small <= large,
    ensures
        table_nodes(table, rows, small).len() <= table_nodes(table, rows, large).len(),
    decreases large,
{
    if small < large {
        lemma_more_rows(table, rows, small, (large - 1) as nat);
    }
}

proof fn lemma_more_tables(
    tables: Seq<RegisteredTable>,
    rows: Seq<Vec<SourceRow>>,
    small: nat,
    large: nat,
)
    requires
        small <= large,
    ensures
        scan_nodes(tables, rows, small).len() <= scan_nodes(tables, rows, large).len(),
    decreases large,
{
    if small < large {
        lemma_more_tables(tables, rows, small, (large - 1) as nat);
    }
}

/// The entries of all scanned nodes. Rows without a key have none.
pub fn node_lookups(tables: &Vec<RegisteredTable>, rows: &Vec<Vec<SourceRow>>) -> (result:
    GraphResult<Vec<NodeLookup>>)
    requires
        tables@.len() == rows@.len(),
    ensures
        ({
            let nodes = scan_nodes(tables@, rows@, tables@.len());
            match result {
                Ok(lookups) => nodes.len() <= u32::MAX && finds_nodes(lookups@, nodes),
                Err(error) => nodes.len() > u32::MAX && error@ == ErrorView::Internal(
                    "persisted build exceeds u32 nodes"@,
                ),
            }
        }),
{
    let mut lookups: Vec<NodeLookup> = Vec::new();
    let mut count: u32 = 0;
    let mut at: usize = 0;
    while at < tables.len()
        invariant
            at <= tables@.len() == rows@.len(),
            count == lookups@.len(),
            finds_nodes(lookups@, scan_nodes(tables@, rows@, at as nat)),
        decreases tables@.len() - at,
    {
        let table: &RegisteredTable = &tables[at];
        let list: &Vec<SourceRow> = &rows[at];
        let ghost before = scan_nodes(tables@, rows@, at as nat);
        let mut row: usize = 0;
        proof {
            assert(before + table_nodes(*table, list@, 0) =~= before);
        }
        while row < list.len()
            invariant
                at < tables@.len() == rows@.len(),
                *table == tables@[at as int],
                *list == rows@[at as int],
                row <= list@.len(),
                count == lookups@.len(),
                before == scan_nodes(tables@, rows@, at as nat),
                finds_nodes(lookups@, before + table_nodes(*table, list@, row as nat)),
            decreases list@.len() - row,
        {
            let ghost known = before + table_nodes(*table, list@, row as nat);
            let ghost next = before + table_nodes(*table, list@, (row + 1) as nat);
            if let Some(key) = &list[row].primary_key {
                if count == u32::MAX {
                    proof {
                        lemma_more_nodes(tables@, rows@, at as nat, (row + 1) as nat);
                    }
                    return Err(internal("persisted build exceeds u32 nodes"));
                }
                let ghost node = SourceNode { table: *table, row: list@[row as int] };
                let entry = NodeLookup {
                    table_oid: table.table_oid,
                    primary_key: key.clone(),
                    node_idx: count,
                };
                proof {
                    assert(next =~= known.push(node));
                    assert(finds_node(entry, node, count as int));
                }
                lookups.push(entry);
                count = count + 1;
            } else {
                proof {
                    assert(next =~= known);
                }
            }
            row = row + 1;
        }
        proof {
            assert(scan_nodes(tables@, rows@, (at + 1) as nat) =~= before + table_nodes(
                *table,
                list@,
                list@.len(),
            ));
        }
        at = at + 1;
    }
    Ok(lookups)
}

} // verus!
