//! What the index of filter values gives back of what was put into it.
use vstd::prelude::*;

use crate::errors::GraphResult;
use crate::filter_index::FilterIndex;
use crate::filter_storage::{is_sparse, FilterStorageKind};
use crate::filter_value::{
    encoded_i64, encoded_u32, EncodedFilterValue, FilterColumnType, PersistedFilterValue,
};
use crate::segment_law::{filter_told, has_room};

verus! {

/// Whether a column has room for a value of a node that it was registered for.
pub open spec fn takes(
    index: FilterIndex,
    column: int,
    node: u32,
    value: EncodedFilterValue,
) -> bool {
    &&& node < index.column_nodes(column)
    &&& if index.mapped() {
        0 <= column < index.registered().len()
    } else {
        &&& 0 <= column < index.stored_columns()
        &&& match index.storage_of(column).form() {
            FilterStorageKind::Dense => node < index.storage_of(column).slots(),
            FilterStorageKind::SparseBool => value is Boolean,
            FilterStorageKind::SparseLookup => value is Text || value is Uuid,
            FilterStorageKind::SparseOrdered => true,
        }
    }
}

/// A value that is set is the one that is read, until it is cleared; every other
/// value reads as before.
pub proof fn law_set_value_is_read(
    index: &mut FilterIndex,
    column: usize,
    node: u32,
    value: Option<EncodedFilterValue>,
    read: Option<EncodedFilterValue>,
    other_column: usize,
    other: u32,
    before: Option<EncodedFilterValue>,
    after: Option<EncodedFilterValue>,
)
    requires
        call_ensures(FilterIndex::set_encoded_value, (index, column, node, value), ()),
        call_ensures(FilterIndex::persistent_value, (final(index), column, node), read),
        call_ensures(FilterIndex::persistent_value, (old(index), other_column, other), before),
        call_ensures(FilterIndex::persistent_value, (final(index), other_column, other), after),
    ensures
        value matches Some(set) ==> (takes(*old(index), column as int, node, set) ==> read
            == value),
        value is None && node < old(index).column_nodes(column as int) ==> read is None,
        node >= old(index).column_nodes(column as int) ==> *final(index) == *old(index),
        other_column != column || other != node ==> after == before,
        final(index).registered() == old(index).registered(),
{
}

/// A small number that is set is a number that is read, and reads as itself.
pub proof fn law_set_number_is_read(
    index: &mut FilterIndex,
    column: usize,
    node: u32,
    number: u32,
    read: u32,
)
    requires
        takes(*old(index), column as int, node, EncodedFilterValue::Numeric(number as i64)),
        call_ensures(FilterIndex::set_value, (index, column, node, number), ()),
        call_ensures(FilterIndex::get_value, (final(index), column, node), read),
    ensures
        read == number,
{
}

/// Numbers of a value: the numeric domains have one, and it reads as the nearest
/// that thirty-two bits without a sign can hold; the other domains have none.
pub proof fn law_values_have_numbers(
    value: EncodedFilterValue,
    signed: Option<i64>,
    near: u32,
    column: usize,
    node: u32,
    index: FilterIndex,
    read: u32,
)
    requires
        call_ensures(encoded_i64, (value,), signed),
        call_ensures(encoded_u32, (value,), near),
        call_ensures(FilterIndex::get_value, (&index, column, node), read),
    ensures
        value matches EncodedFilterValue::Numeric(n) ==> signed == Some(n),
        value matches EncodedFilterValue::Date(n) ==> signed == Some(n),
        value matches EncodedFilterValue::Timestamptz(n) ==> signed == Some(n),
        value is Boolean || value is Text || value is Uuid ==> signed is None && near == 0,
        signed matches Some(n) ==> (0 <= n <= u32::MAX ==> near == n) && (n < 0 ==> near == 0) && (n
            > u32::MAX ==> near == u32::MAX),
        index.value(column as int, node) is None ==> read == 0,
        index.value(column as int, node) == Some(value) ==> read == near,
{
}

/// A registered column comes last, under its table, name and type, and no node
/// has a value in it; what was there before stays.
pub proof fn law_registered_column_is_last(
    index: &mut FilterIndex,
    table: u32,
    name: String,
    column_type: FilterColumnType,
    nodes: usize,
    populated: usize,
    column: usize,
    node: u32,
    value: Option<EncodedFilterValue>,
    other: int,
)
    requires
        call_ensures(
            FilterIndex::register_typed_column_with_populated_count,
            (index, table, name, column_type, nodes, populated),
            column,
        ),
        call_ensures(FilterIndex::persistent_value, (final(index), column, node), value),
    ensures
        ({
            let (before, after) = (old(index).registered(), final(index).registered());
            &&& column == before.len()
            &&& after.len() == before.len() + 1
            &&& after[column as int].table_oid == table
            &&& after[column as int].name == name@
            &&& after[column as int].column_type == column_type
            &&& forall|i: int| 0 <= i < before.len() ==> #[trigger] after[i] == before[i]
            &&& value is None
            &&& final(index).column_nodes(column as int) == nodes
            &&& other != column ==> final(index).value(other, node) == old(index).value(other, node)
            &&& other != column ==> final(index).texts(other) == old(index).texts(other)
        }),
{
}

/// A column of which fewer than fifteen in a hundred nodes have a value is kept
/// sparse, in the form of its domain; any other is dense.
pub proof fn law_few_values_are_kept_sparse(
    index: &mut FilterIndex,
    table: u32,
    name: String,
    column_type: FilterColumnType,
    nodes: usize,
    populated: usize,
    column: usize,
    few: bool,
)
    requires
        !old(index).mapped(),
        call_ensures(is_sparse, (populated, nodes), few),
        call_ensures(
            FilterIndex::register_typed_column_with_populated_count,
            (index, table, name, column_type, nodes, populated),
            column,
        ),
    ensures
        ({
            let form = final(index).storage_of(column as int).form();
            &&& 100 * nodes <= usize::MAX && 100 * populated <= usize::MAX ==> (few <==> 100
                * populated < 15 * nodes)
            &&& !few ==> form is Dense && final(index).storage_of(column as int).slots() == nodes
            &&& few && column_type is Boolean ==> form is SparseBool
            &&& few && (column_type is Text || column_type is Uuid) ==> form is SparseLookup
            &&& few && (column_type is Numeric || column_type is Date
                || column_type is Timestamptz) ==> form is SparseOrdered
        }),
{
}

/// A column is found by its name, and by its table where one is given: the first
/// of them, and none if there is none.
pub proof fn law_columns_are_found_by_name(
    index: FilterIndex,
    table: u32,
    name: &str,
    any: Option<usize>,
    own: Option<usize>,
)
    requires
        call_ensures(FilterIndex::find_first_column_by_name, (&index, name), any),
        call_ensures(FilterIndex::find_column_for_table, (&index, table, name), own),
    ensures
        ({
            let columns = index.registered();
            &&& any matches Some(at) ==> at < columns.len() && columns[at as int].name == name@
                && forall|i: int| 0 <= i < at ==> (#[trigger] columns[i]).name != name@
            &&& any is None ==> forall|i: int|
                0 <= i < columns.len() ==> (#[trigger] columns[i]).name != name@
            &&& own matches Some(at) ==> at < columns.len() && columns[at as int].name == name@
                && columns[at as int].table_oid == table && forall|i: int|
                0 <= i < at ==> (#[trigger] columns[i]).name != name@ || columns[i].table_oid
                    != table
            &&& own is None ==> forall|i: int|
                0 <= i < columns.len() ==> (#[trigger] columns[i]).name != name@
                    || columns[i].table_oid != table
        }),
{
    let columns = index.registered();
    assert forall|i: int| 0 <= i < columns.len() implies (
    crate::filter_index::column_matches(#[trigger] columns[i], None, name@) <==> columns[i].name
        == name@) && (crate::filter_index::column_matches(columns[i], Some(table), name@)
        <==> columns[i].name == name@ && columns[i].table_oid == table) by {}
}

/// A persisted value of a column's domain is applied to the node: it has what the
/// value says from then on, if the column has room, and no other node changes.
/// A value of another domain, and a node or column that is not there, are refused
/// and change nothing.
pub proof fn law_applied_value_is_told(
    index: &mut FilterIndex,
    column: usize,
    node: u32,
    nodes: u32,
    value: &PersistedFilterValue,
    tombstone: bool,
    result: GraphResult<()>,
    other_column: int,
    other: u32,
)
    requires
        call_ensures(
            FilterIndex::apply_persisted_value,
            (index, column, node, nodes, value, tombstone),
            result,
        ),
    ensures
        ({
            let columns = old(index).registered();
            let fits = column < columns.len() && match *value {
                PersistedFilterValue::Null => true,
                PersistedFilterValue::Numeric(_) => columns[column as int].column_type is Numeric,
                PersistedFilterValue::Boolean(_) => columns[column as int].column_type is Boolean,
                PersistedFilterValue::Text(_) => columns[column as int].column_type is Text,
                PersistedFilterValue::Date(_) => columns[column as int].column_type is Date,
                PersistedFilterValue::Timestamptz(_) =>
                    columns[column as int].column_type is Timestamptz,
                PersistedFilterValue::Uuid(_) => columns[column as int].column_type is Uuid,
            };
            &&& result is Ok ==> fits && node < nodes
            &&& fits && node < nodes && !(value is Text) ==> result is Ok
            &&& result is Err ==> *final(index) == *old(index)
            &&& result is Ok && has_room(*old(index), column as int, node, *value) ==> filter_told(
                *final(index),
                column as int,
                node,
                *value,
                tombstone,
            )
            &&& other_column != column || other != node ==> final(index).value(other_column, other)
                == old(index).value(other_column, other)
        }),
{
}

} // verus!
