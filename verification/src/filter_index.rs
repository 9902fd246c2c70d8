//! The index of registered filter columns: what value each node has, and
//! whether it satisfies filter conditions.
use core::ops::Range;
use std::collections::HashMap;
use vstd::prelude::*;
use vstd::string::StringExecFns;

use crate::errors::{corrupt, internal, ErrorView, GraphError, GraphResult};
use crate::filter_catalog::{
    catalog_count, column_meta, column_place, in_region, sections_valid, ColumnView,
    FilterColumnMeta, MappedFilterBase,
};
use crate::filter_storage::{sparse, sparse_kind, FilterColumnStorage, FilterStorageKind};
use crate::filter_value::{
    check_value, encoded_u32, satisfies, unsigned_number, EncodedFilterValue, FilterColumnType,
    FilterOp, PersistedFilterValue,
};
use crate::mapped_bytes::MappedBytes;
use crate::rooms::{
    adds, have_room, lemma_adds, lemma_adds_nothing, lemma_adds_room, lemma_total_grows, push_list,
    push_map, push_text, room_views, text_need, total_bytes, total_of, Need, Room,
};
use crate::text::{
    decimal, decimal_text, escaped, escaped_text, same_text, signed_decimal, signed_text,
    wide_decimal_text,
};
use crate::text_dictionary::{all_different, dictionary_needs, TextDictionary};

verus! {

broadcast use vstd::std_specs::hash::group_hash_axioms;

/// Values of filter columns by node. Columns are registered in memory, or taken
/// over from an artifact whose bytes hold the values; later values of an
/// artifact's columns are kept beside it.
#[derive(Debug)]
pub struct FilterIndex {
    /// The registered columns.
    pub columns: Vec<FilterColumnMeta>,
    /// Interned texts of the columns in memory.
    pub text_dictionaries: Vec<TextDictionary>,
    storage: Vec<FilterColumnStorage>,
    mapped_base: Option<MappedFilterBase>,
    delta: Vec<HashMap<u32, Option<EncodedFilterValue>>>,
    text_delta: Vec<TextDictionary>,
    /// How many nodes each column was registered for.
    node_counts: Vec<usize>,
}

/// Whether texts can stand beside an artifact's dictionary: none is in it, and
/// every one has a token.
spec fn no_shared_text(base: Seq<Seq<char>>, added: Seq<Seq<char>>) -> bool {
    &&& base.len() + added.len() <= u32::MAX + 1
    &&& forall|i: int, j: int|
        0 <= i < base.len() && 0 <= j < added.len() ==> #[trigger] base[i] != #[trigger] added[j]
}

/// The encoded form of a persisted value that is no text.
pub open spec fn plain_encoding(value: PersistedFilterValue) -> Option<EncodedFilterValue> {
    match value {
        PersistedFilterValue::Numeric(number) => Some(EncodedFilterValue::Numeric(number)),
        PersistedFilterValue::Boolean(flag) => Some(EncodedFilterValue::Boolean(flag)),
        PersistedFilterValue::Date(number) => Some(EncodedFilterValue::Date(number)),
        PersistedFilterValue::Timestamptz(number) => Some(EncodedFilterValue::Timestamptz(number)),
        PersistedFilterValue::Uuid(uuid) => Some(EncodedFilterValue::Uuid(uuid)),
        _ => None,
    }
}

/// Whether a persisted value belongs to a column's domain. `NULL` belongs to all.
pub open spec fn persisted_in_domain(
    column_type: FilterColumnType,
    value: PersistedFilterValue,
) -> bool {
    match value {
        PersistedFilterValue::Null => true,
        PersistedFilterValue::Numeric(_) => column_type is Numeric,
        PersistedFilterValue::Boolean(_) => column_type is Boolean,
        PersistedFilterValue::Text(_) => column_type is Text,
        PersistedFilterValue::Date(_) => column_type is Date,
        PersistedFilterValue::Timestamptz(_) => column_type is Timestamptz,
        PersistedFilterValue::Uuid(_) => column_type is Uuid,
    }
}

/// Whether an index is what an artifact's sections hold: its columns, and every
/// node's value and text, taken from the artifact's bytes.
pub open spec fn reads_artifact(
    index: FilterIndex,
    bytes: Seq<u8>,
    catalog_range: Range<usize>,
    data_range: Range<usize>,
    dictionary_range: Range<usize>,
    node_count: u32,
) -> bool {
    let catalog = bytes.subrange(catalog_range.start as int, catalog_range.end as int);
    &&& index.wf()
    &&& index.mapped()
    &&& index.base().content() == bytes
    &&& index.base().nodes() == node_count
    &&& index.base_columns() == index.registered().len() == catalog_count(catalog)
    &&& index.base().places().len() == index.registered().len()
    &&& forall|i: int|
        0 <= i < index.registered().len() ==> #[trigger] index.column_nodes(i) == node_count
    &&& forall|i: int|
        0 <= i < index.registered().len() ==> #[trigger] index.registered()[i] == column_meta(
            catalog,
            i,
        )
    &&& forall|i: int|
        0 <= i < index.registered().len() ==> #[trigger] index.base().places()[i] == column_place(
            catalog,
            i,
            data_range.start as int,
            dictionary_range.start as int,
        )
    &&& forall|column: int, node: u32| #[trigger]
        index.value(column, node) == index.base().at(column, node as int)
    &&& forall|column: int| #[trigger] index.texts(column) == index.base().texts(column)
}

impl FilterIndex {
    /// The registered columns.
    pub closed spec fn registered(&self) -> Seq<ColumnView> {
        Seq::new(self.columns@.len(), |i: int| self.columns@[i]@)
    }

    /// Number of dictionaries of columns in memory.
    pub closed spec fn dictionary_count(&self) -> nat {
        self.text_dictionaries@.len()
    }

    /// Whether the columns come from an artifact.
    pub closed spec fn mapped(&self) -> bool {
        self.mapped_base is Some
    }

    /// The artifact that the columns come from.
    pub closed spec fn base(&self) -> MappedFilterBase {
        self.mapped_base->Some_0
    }

    /// Number of columns that the artifact has.
    pub open spec fn base_columns(&self) -> nat {
        if self.mapped() {
            self.base().places().len()
        } else {
            0
        }
    }

    /// How a column in memory is kept.
    pub closed spec fn storage_of(&self, column: int) -> FilterColumnStorage {
        self.storage@[column]
    }

    /// Number of columns in memory.
    pub closed spec fn stored_columns(&self) -> nat {
        self.storage@.len()
    }

    /// How many nodes a column was registered for: those of the artifact, for
    /// an artifact's column.
    pub closed spec fn column_nodes(&self, column: int) -> nat {
        if 0 <= column < self.node_counts@.len() {
            self.node_counts@[column] as nat
        } else {
            0
        }
    }

    /// The value that replaces an artifact's one.
    pub closed spec fn replaced(&self, column: int, node: u32) -> Option<
        Option<EncodedFilterValue>,
    > {
        if 0 <= column < self.delta@.len() && self.delta@[column]@.contains_key(node) {
            Some(self.delta@[column]@[node])
        } else {
            None
        }
    }

    /// The value of a node. Columns that are not registered have none.
    pub open spec fn value(&self, column: int, node: u32) -> Option<EncodedFilterValue> {
        match self.replaced(column, node) {
            Some(value) => value,
            None => if self.mapped() {
                self.base().at(column, node as int)
            } else if 0 <= column < self.stored_columns() {
                self.storage_of(column).at(node)
            } else {
                None
            },
        }
    }

    /// The texts of a column: the position of a text is its token.
    pub closed spec fn texts(&self, column: int) -> Seq<Seq<char>> {
        if self.mapped() {
            self.base().texts(column) + (if 0 <= column < self.text_delta@.len() {
                self.text_delta@[column]@
            } else {
                Seq::empty()
            })
        } else if 0 <= column < self.text_dictionaries@.len() {
            self.text_dictionaries@[column]@
        } else {
            Seq::empty()
        }
    }

    /// The text of a token.
    pub open spec fn text_at(&self, column: int, token: u32) -> Option<Seq<char>> {
        if token < self.texts(column).len() {
            Some(self.texts(column)[token as int])
        } else {
            None
        }
    }

    /// What every index keeps.
    pub closed spec fn sound(&self) -> bool {
        &&& forall|i: int| 0 <= i < self.storage@.len() ==> (#[trigger] self.storage@[i]).wf()
        &&& forall|i: int|
            0 <= i < self.text_dictionaries@.len() ==> (#[trigger] self.text_dictionaries@[i]).wf()
        &&& forall|i: int|
            0 <= i < self.text_delta@.len() ==> (#[trigger] self.text_delta@[i]).wf()
        &&& self.delta@.len() == self.text_delta@.len() == self.columns@.len()
        &&& self.node_counts@.len() == self.columns@.len()
        &&& match self.mapped_base {
            Some(base) => {
                &&& base.wf()
                &&& base.places().len() <= self.columns@.len()
                &&& forall|i: int|
                    0 <= i < base.places().len() ==> #[trigger] self.node_counts@[i]
                        == base.nodes()
                &&& forall|i: int|
                    0 <= i < self.text_delta@.len() ==> #[trigger] no_shared_text(
                        base.texts(i),
                        self.text_delta@[i]@,
                    )
            },
            None => {
                &&& self.storage@.len() == self.columns@.len()
                &&& forall|i: int|
                    0 <= i < self.delta@.len() ==> (#[trigger] self.delta@[i])@ == Map::<
                        u32,
                        Option<EncodedFilterValue>,
                    >::empty()
            },
        }
    }

    /// A sound index with a dictionary for each column.
    pub open spec fn wf(&self) -> bool {
        self.sound() && self.dictionary_count() == self.registered().len()
    }

    /// Whether a column can keep a value for a node.
    pub open spec fn keeps(&self, column: int, node: u32, value: EncodedFilterValue) -> bool {
        if self.mapped() {
            0 <= column < self.registered().len()
        } else {
            0 <= column < self.stored_columns() && self.storage_of(column).keeps(node, value)
        }
    }

    /// What a node has after a value was set for it.
    pub open spec fn after_set(
        &self,
        column: int,
        node: u32,
        value: Option<EncodedFilterValue>,
    ) -> Option<EncodedFilterValue> {
        match value {
            Some(value) => if self.keeps(column, node, value) {
                Some(value)
            } else {
                None
            },
            None => None,
        }
    }

    /// An index without columns.
    pub fn new() -> (index: Self)
        ensures
            index.wf(),
            !index.mapped(),
            index.registered().len() == 0,
            index.stored_columns() == 0,
            forall|column: int, node: u32| #[trigger] index.value(column, node) is None,
    {
        FilterIndex {
            columns: Vec::new(),
            text_dictionaries: Vec::new(),
            storage: Vec::new(),
            mapped_base: None,
            delta: Vec::new(),
            text_delta: Vec::new(),
            node_counts: Vec::new(),
        }
    }

    /// Registers a numeric column for this many nodes.
    pub fn register_column(
        &mut self,
        table_oid: u32,
        column_name: String,
        node_count: usize,
    ) -> (column: usize)
        requires
            old(self).wf(),
        ensures
            final(self).wf(),
            registers(
                *old(self),
                *final(self),
                ColumnView {
                    table_oid,
                    name: column_name@,
                    column_type: FilterColumnType::Numeric,
                },
                node_count as nat,
                node_count as nat,
            ),
            column == old(self).registered().len(),
    {
        self.register_typed_column(table_oid, column_name, FilterColumnType::Numeric, node_count)
    }

    /// Registers a column for this many nodes. No node has a value yet.
    pub fn register_typed_column(
        &mut self,
        table_oid: u32,
        column_name: String,
        column_type: FilterColumnType,
        node_count: usize,
    ) -> (column: usize)
        requires
            old(self).wf(),
        ensures
            final(self).wf(),
            registers(
                *old(self),
                *final(self),
                ColumnView { table_oid, name: column_name@, column_type },
                node_count as nat,
                node_count as nat,
            ),
            column == old(self).registered().len(),
    {
        self.register_typed_column_with_populated_count(
            table_oid,
            column_name,
            column_type,
            node_count,
            node_count,
        )
    }

    /// Registers a column of which few nodes may have a value. No node has a
    /// value yet.
    pub fn register_typed_column_with_populated_count(
        &mut self,
        table_oid: u32,
        column_name: String,
        column_type: FilterColumnType,
        node_count: usize,
        populated_count: usize,
    ) -> (column: usize)
        requires
            old(self).wf(),
        ensures
            final(self).wf(),
            registers(
                *old(self),
                *final(self),
                ColumnView { table_oid, name: column_name@, column_type },
                node_count as nat,
                populated_count as nat,
            ),
            column == old(self).registered().len(),
    {
        let ghost before = *self;
        let column: usize = self.columns.len();
        self.columns.push(FilterColumnMeta { table_oid, column_name, column_type });
        self.storage.push(
            FilterColumnStorage::new_storage(column_type, node_count, populated_count),
        );
        self.text_dictionaries.push(TextDictionary::new());
        self.delta.push(HashMap::new());
        self.text_delta.push(TextDictionary::new());
        self.node_counts.push(node_count);
        proof {
            let after = *self;
            assert forall|i: int| 0 <= i < after.storage@.len() implies (
            #[trigger] after.storage@[i]).wf() by {
                if i < before.storage@.len() {
                    assert(after.storage@[i] == before.storage@[i]);
                }
            }
            assert forall|i: int| 0 <= i < after.text_dictionaries@.len() implies (
            #[trigger] after.text_dictionaries@[i]).wf() by {
                if i < before.text_dictionaries@.len() {
                    assert(after.text_dictionaries@[i] == before.text_dictionaries@[i]);
                }
            }
            assert forall|i: int| 0 <= i < after.text_delta@.len() implies (
            #[trigger] after.text_delta@[i]).wf() by {
                if i < before.text_delta@.len() {
                    assert(after.text_delta@[i] == before.text_delta@[i]);
                }
            }
            if after.mapped_base is Some {
                let base = after.mapped_base->Some_0;
                assert forall|i: int| 0 <= i < after.text_delta@.len() implies #[trigger]
                    no_shared_text(base.texts(i), after.text_delta@[i]@) by {
                    if i < before.text_delta@.len() {
                        assert(after.text_delta@[i] == before.text_delta@[i]);
                        assert(no_shared_text(base.texts(i), before.text_delta@[i]@));
                    } else {
                        base.lemma_texts_different(i);
                    }
                }
            } else {
                assert forall|i: int| 0 <= i < after.delta@.len() implies (
                #[trigger] after.delta@[i])@ == Map::<
                    u32,
                    Option<EncodedFilterValue>,
                >::empty() by {
                    if i < before.delta@.len() {
                        assert(after.delta@[i] == before.delta@[i]);
                    }
                }
            }
            assert(after.sound());
            assert forall|c: int, node: u32| #[trigger] after.value(c, node) == before.value(
                c,
                node,
            ) by {
                if 0 <= c < column {
                    assert(after.delta@[c] == before.delta@[c]);
                    assert(after.mapped_base is None ==> after.storage@[c] == before.storage@[c]);
                }
            }
            assert forall|c: int| c != column implies #[trigger] after.texts(c) == before.texts(
                c,
            ) by {
                if 0 <= c < column {
                    assert(after.text_delta@[c] == before.text_delta@[c]);
                    assert(after.text_dictionaries@[c] == before.text_dictionaries@[c]);
                }
            }
            assert(after.registered() =~= before.registered().push(
                ColumnView { table_oid, name: column_name@, column_type },
            ));
            assert forall|c: int| 0 <= c < before.stored_columns() implies #[trigger]
                after.storage_of(c) == before.storage_of(c) by {}
            assert(after.texts(column as int).len() == 0 || after.mapped());
        }
        column
    }

    /// Sets a numeric value.
    pub fn set_value(&mut self, column: usize, node: u32, value: u32)
        requires
            old(self).sound(),
        ensures
            sets(
                *old(self),
                *final(self),
                column as int,
                node,
                Some(EncodedFilterValue::Numeric(value as i64)),
            ),
    {
        self.set_encoded_value(column, node, Some(EncodedFilterValue::Numeric(value as i64)));
    }

    /// Sets or clears the value of a node. A column that is not registered, and
    /// a node beyond those that the column was registered for, are passed over.
    pub fn set_encoded_value(
        &mut self,
        column: usize,
        node: u32,
        value: Option<EncodedFilterValue>,
    )
        requires
            old(self).sound(),
        ensures
            sets(*old(self), *final(self), column as int, node, value),
    {
        if column < self.node_counts.len() && (node as usize) < self.node_counts[column] {
            self.place_value(column, node, value);
        }
    }

    /// Sets or clears the value of a node that may have joined after the column
    /// was registered. A column that is not registered, or a value that it
    /// cannot keep, is passed over.
    fn place_value(
        &mut self,
        column: usize,
        node: u32,
        value: Option<EncodedFilterValue>,
    )
        requires
            old(self).sound(),
        ensures
            places(*old(self), *final(self), column as int, node, value),
    {
        let ghost before = *self;
        if self.mapped_base.is_some() {
            if column < self.delta.len() {
                self.delta[column].insert(node, value);
                proof {
                    lemma_delta_set(before, *self, column as int, node, value);
                }
            }
            return ;
        }
        if column < self.storage.len() {
            self.storage[column].set(node, value);
            proof {
                lemma_storage_set(before, *self, column as int, node, value);
            }
        }
    }
}

/// What registering a column does.
pub open spec fn registers(
    before: FilterIndex,
    after: FilterIndex,
    column: ColumnView,
    nodes: nat,
    populated: nat,
) -> bool {
    let at = before.registered().len() as int;
    &&& after.registered() == before.registered().push(column)
    &&& after.mapped() == before.mapped()
    &&& after.mapped() ==> after.base() == before.base()
    &&& forall|c: int, node: u32| #[trigger] after.value(c, node) == before.value(c, node)
    &&& forall|node: u32| #[trigger] after.value(at, node) is None
    &&& after.column_nodes(at) == nodes
    &&& forall|c: int| c != at ==> #[trigger] after.column_nodes(c) == before.column_nodes(c)
    &&& forall|c: int| c != at ==> #[trigger] after.texts(c) == before.texts(c)
    &&& forall|c: int|
        0 <= c < before.stored_columns() ==> #[trigger] after.storage_of(c) == before.storage_of(c)
    &&& !after.mapped() ==> {
        &&& after.stored_columns() == at + 1
        &&& after.texts(at).len() == 0
        &&& after.storage_of(at).form() == (if sparse(populated, nodes) {
            sparse_kind(column.column_type)
        } else {
            FilterStorageKind::Dense
        })
        &&& after.storage_of(at).form() is Dense ==> after.storage_of(at).slots() == nodes
    }
}

/// What setting a value does: a node that the column was registered for gets
/// it, and for any other nothing changes.
pub open spec fn sets(
    before: FilterIndex,
    after: FilterIndex,
    column: int,
    node: u32,
    value: Option<EncodedFilterValue>,
) -> bool {
    if node < before.column_nodes(column) {
        places(before, after, column, node, value)
    } else {
        after == before
    }
}

/// What placing a value does: the node has it if the column can keep it, no
/// other value changes, and nothing else does.
pub open spec fn places(
    before: FilterIndex,
    after: FilterIndex,
    column: int,
    node: u32,
    value: Option<EncodedFilterValue>,
) -> bool {
    &&& after.sound()
    &&& after.registered() == before.registered()
    &&& after.dictionary_count() == before.dictionary_count()
    &&& after.mapped() == before.mapped()
    &&& after.mapped() ==> after.base() == before.base()
    &&& after.stored_columns() == before.stored_columns()
    &&& forall|c: int| #[trigger] after.column_nodes(c) == before.column_nodes(c)
    &&& forall|c: int| #[trigger] after.texts(c) == before.texts(c)
    &&& forall|c: int|
        0 <= c < before.stored_columns() ==> (#[trigger] after.storage_of(c)).form()
            == before.storage_of(c).form() && after.storage_of(c).slots() == before.storage_of(
            c,
        ).slots()
    &&& forall|c: int, other: u32|
        c != column || other != node ==> #[trigger] after.value(c, other) == before.value(c, other)
    &&& after.value(column, node) == before.after_set(column, node, value)
}

proof fn lemma_delta_set(
    before: FilterIndex,
    after: FilterIndex,
    column: int,
    node: u32,
    value: Option<EncodedFilterValue>,
)
    requires
        before.sound(),
        before.mapped_base is Some,
        0 <= column < before.delta@.len(),
        after == (FilterIndex { delta: after.delta, ..before }),
        after.delta@.len() == before.delta@.len(),
        forall|c: int|
            0 <= c < before.delta@.len() && c != column ==> #[trigger] after.delta@[c]
                == before.delta@[c],
        after.delta@[column]@ == before.delta@[column]@.insert(node, value),
    ensures
        places(before, after, column, node, value),
{
    assert forall|c: int, other: u32| c != column || other != node implies #[trigger] after.value(
        c,
        other,
    ) == before.value(c, other) by {
        if 0 <= c < before.delta@.len() && c != column {
            assert(after.delta@[c] == before.delta@[c]);
        }
    }
}

proof fn lemma_storage_set(
    before: FilterIndex,
    after: FilterIndex,
    column: int,
    node: u32,
    value: Option<EncodedFilterValue>,
)
    requires
        before.sound(),
        before.mapped_base is None,
        0 <= column < before.storage@.len(),
        after == (FilterIndex { storage: after.storage, ..before }),
        after.storage@.len() == before.storage@.len(),
        forall|c: int|
            0 <= c < before.storage@.len() && c != column ==> #[trigger] after.storage@[c]
                == before.storage@[c],
        after.storage@[column].wf(),
        after.storage@[column].form() == before.storage@[column].form(),
        after.storage@[column].slots() == before.storage@[column].slots(),
        forall|other: u32|
            other != node ==> #[trigger] after.storage@[column].at(other)
                == before.storage@[column].at(other),
        after.storage@[column].at(node) == before.storage@[column].after_set(node, value),
    ensures
        places(before, after, column, node, value),
{
    assert forall|c: int, other: u32| c != column || other != node implies #[trigger] after.value(
        c,
        other,
    ) == before.value(c, other) by {
        if 0 <= c < before.storage@.len() && c != column {
            assert(after.storage@[c] == before.storage@[c]);
        }
    }
    assert(after.value(column, node) == before.after_set(column, node, value)) by {
        assert(before.delta@[column]@ == Map::<u32, Option<EncodedFilterValue>>::empty());
    }
}

impl Default for FilterIndex {
    fn default() -> (index: Self)
        ensures
            index.wf(),
            !index.mapped(),
            index.registered().len() == 0,
    {
        FilterIndex::new()
    }
}

/// The condition that a filter operation checks at a node: its column's value,
/// which a pending update may replace, satisfies it.
pub open spec fn filter_holds(
    index: FilterIndex,
    node: u32,
    op: FilterOp,
    update: Option<Option<EncodedFilterValue>>,
) -> bool {
    let column = op.column() as int;
    let value = match update {
        Some(value) => value,
        None => if column < index.registered().len() {
            index.value(column, node)
        } else {
            None
        },
    };
    satisfies(
        op.wanted(),
        value,
        match value {
            Some(EncodedFilterValue::Text(token)) => index.text_at(column, token),
            _ => None,
        },
    )
}

/// Whether a node satisfies every filter operation.
pub open spec fn filters_hold(index: FilterIndex, node: u32, ops: Seq<FilterOp>) -> bool {
    forall|i: int| 0 <= i < ops.len() ==> filter_holds(index, node, #[trigger] ops[i], None)
}

/// The first position at which a list of columns has the name, and the table if
/// one is given.
pub open spec fn is_first_column(
    columns: Seq<ColumnView>,
    table: Option<u32>,
    name: Seq<char>,
    found: Option<usize>,
) -> bool {
    match found {
        Some(at) => {
            &&& at < columns.len()
            &&& column_matches(columns[at as int], table, name)
            &&& forall|i: int|
                0 <= i < at ==> !column_matches(#[trigger] columns[i], table, name)
        },
        None => forall|i: int|
            0 <= i < columns.len() ==> !column_matches(#[trigger] columns[i], table, name),
    }
}

/// Whether a column has the name, and the table if one is given.
pub open spec fn column_matches(column: ColumnView, table: Option<u32>, name: Seq<char>) -> bool {
    column.name == name && (table matches Some(oid) ==> column.table_oid == oid)
}

impl FilterIndex {
    /// The value of a node.
    pub fn persistent_value(&self, column: usize, node: u32) -> (value: Option<
        EncodedFilterValue,
    >)
        requires
            self.sound(),
        ensures
            value == self.value(column as int, node),
    {
        if column < self.delta.len() {
            if let Some(value) = self.delta[column].get(&node) {
                return *value;
            }
        }
        if let Some(base) = &self.mapped_base {
            return base.value(column, node);
        }
        if column < self.storage.len() {
            self.storage[column].value(node)
        } else {
            None
        }
    }

    /// The value of a node as the nearest unsigned number; zero if it has none.
    pub fn get_value(&self, column: usize, node: u32) -> (number: u32)
        requires
            self.sound(),
        ensures
            number == match self.value(column as int, node) {
                Some(value) => unsigned_number(value),
                None => 0,
            },
    {
        match self.persistent_value(column, node) {
            Some(value) => encoded_u32(value),
            None => 0,
        }
    }

    /// The token of a text, if it is interned.
    pub fn lookup_text_value(&self, column: usize, value: &str) -> (token: Option<u32>)
        requires
            self.sound(),
        ensures
            match token {
                Some(token) => token < self.texts(column as int).len() && self.texts(
                    column as int,
                )[token as int] == value@,
                None => !self.texts(column as int).contains(value@),
            },
    {
        if let Some(base) = &self.mapped_base {
            if let Some(token) = base.lookup_text(column, value) {
                return Some(token);
            }
            proof {
                assert(forall|i: int|
                    0 <= i < base.texts(column as int).len() ==> #[trigger] base.texts(
                        column as int,
                    )[i] != value@);
            }
            if column >= self.text_delta.len() {
                return None;
            }
            let count: u32 = base.text_count(column);
            assert(no_shared_text(base.texts(column as int), self.text_delta@[column as int]@));
            return match self.text_delta[column].find(value) {
                Some(token) => Some(count + token),
                None => {
                    proof {
                        let added = self.text_delta@[column as int]@;
                        assert(forall|i: int|
                            0 <= i < added.len() ==> #[trigger] added[i] != value@);
                    }
                    None
                },
            };
        }
        if column < self.text_dictionaries.len() {
            self.text_dictionaries[column].find(value)
        } else {
            None
        }
    }

    /// No text of a column occurs twice.
    pub proof fn lemma_texts_different(&self, column: int)
        requires
            self.sound(),
        ensures
            all_different(self.texts(column)),
    {
        let texts = self.texts(column);
        if self.mapped_base is Some {
            let base = self.mapped_base->Some_0;
            base.lemma_texts_different(column);
            if 0 <= column < self.text_delta@.len() {
                let added = self.text_delta@[column];
                added.lemma_different();
                assert(no_shared_text(base.texts(column), added@));
                let count = base.texts(column).len();
                assert forall|i: int, j: int| 0 <= i < j < texts.len() implies #[trigger] texts[i]
                    != #[trigger] texts[j] by {
                    if j < count {
                        assert(base.texts(column)[i] != base.texts(column)[j]);
                    } else if i < count {
                        assert(base.texts(column)[i] != added@[j - count]);
                    } else {
                        assert(added@[i - count] != added@[j - count]);
                    }
                }
            } else {
                assert(texts =~= base.texts(column));
            }
        } else if 0 <= column < self.text_dictionaries@.len() {
            self.text_dictionaries@[column].lemma_different();
        }
    }

    /// The text of a token.
    pub fn text_value(&self, column: usize, token: u32) -> (text: Option<&str>)
        requires
            self.sound(),
        ensures
            match text {
                Some(value) => self.text_at(column as int, token) == Some(value@),
                None => self.text_at(column as int, token) is None,
            },
    {
        if let Some(base) = &self.mapped_base {
            let count: u32 = if column < base.column_count() {
                base.text_count(column)
            } else {
                0
            };
            if token < count {
                return base.text_value(column, token);
            }
            if column < self.text_delta.len() {
                return self.text_delta[column].get(token - count);
            }
            return None;
        }
        if column < self.text_dictionaries.len() {
            self.text_dictionaries[column].get(token)
        } else {
            None
        }
    }

    /// Whether a node satisfies a filter operation.
    pub fn check_filter(&self, node: u32, op: &FilterOp) -> (matched: bool)
        requires
            self.sound(),
        ensures
            matched == filter_holds(*self, node, *op, None),
    {
        self.check_filter_with_update(node, op, None)
    }

    /// Whether a node satisfies a filter operation, where a pending update may
    /// replace the node's value.
    pub fn check_filter_with_update(
        &self,
        node: u32,
        op: &FilterOp,
        update: Option<Option<EncodedFilterValue>>,
    ) -> (matched: bool)
        requires
            self.sound(),
        ensures
            matched == filter_holds(*self, node, *op, update),
    {
        let column: usize = op.column_idx();
        let value: Option<EncodedFilterValue> = match update {
            Some(value) => value,
            None => if column >= self.columns.len() {
                None
            } else {
                self.persistent_value(column, node)
            },
        };
        let text: Option<&str> = match value {
            Some(EncodedFilterValue::Text(token)) => self.text_value(column, token),
            _ => None,
        };
        check_value(op.condition(), value, text)
    }

    /// Whether a node satisfies every filter operation.
    pub fn check_filters(&self, node: u32, ops: &[FilterOp]) -> (matched: bool)
        requires
            self.sound(),
        ensures
            matched == filters_hold(*self, node, ops@),
    {
        let mut at: usize = 0;
        while at < ops.len()
            invariant
                at <= ops@.len(),
                self.sound(),
                forall|i: int|
                    0 <= i < at ==> filter_holds(*self, node, #[trigger] ops@[i], None),
            decreases ops@.len() - at,
        {
            if !self.check_filter(node, &ops[at]) {
                assert(!filter_holds(*self, node, ops@[at as int], None));
                return false;
            }
            at = at + 1;
        }
        true
    }

    fn first_column(&self, table: Option<u32>, column_name: &str) -> (found: Option<usize>)
        ensures
            is_first_column(self.registered(), table, column_name@, found),
    {
        let mut at: usize = 0;
        while at < self.columns.len()
            invariant
                at <= self.columns@.len(),
                forall|i: int|
                    0 <= i < at ==> !column_matches(
                        #[trigger] self.registered()[i],
                        table,
                        column_name@,
                    ),
            decreases self.columns@.len() - at,
        {
            let table_matches: bool = match table {
                Some(oid) => self.columns[at].table_oid == oid,
                None => true,
            };
            if table_matches && same_text(self.columns[at].column_name.as_str(), column_name) {
                return Some(at);
            }
            at = at + 1;
        }
        None
    }

    /// The first column with a name, whatever its table.
    pub fn find_first_column_by_name(&self, column_name: &str) -> (found: Option<usize>)
        ensures
            is_first_column(self.registered(), None, column_name@, found),
    {
        self.first_column(None, column_name)
    }

    /// The column of a table with a name.
    pub fn find_column_for_table(&self, table_oid: u32, column_name: &str) -> (found: Option<usize>)
        ensures
            is_first_column(self.registered(), Some(table_oid), column_name@, found),
    {
        self.first_column(Some(table_oid), column_name)
    }

    /// The domain of a column.
    pub fn column_type(&self, column: usize) -> (column_type: Option<FilterColumnType>)
        ensures
            column_type == (if column < self.registered().len() {
                Some(self.registered()[column as int].column_type)
            } else {
                None
            }),
    {
        if column < self.columns.len() {
            Some(self.columns[column].column_type)
        } else {
            None
        }
    }

    /// A registered column.
    pub fn column(&self, column: usize) -> (meta: &FilterColumnMeta)
        requires
            column < self.registered().len(),
        ensures
            meta@ == self.registered()[column as int],
    {
        &self.columns[column]
    }

    /// Number of registered columns.
    pub fn column_count(&self) -> (count: usize)
        ensures
            count == self.registered().len(),
    {
        self.columns.len()
    }

    /// The form in which a column's values are kept.
    pub fn storage_kind(&self, column: usize) -> (kind: Option<FilterStorageKind>)
        ensures
            kind == (if self.mapped() {
                if column < self.base_columns() {
                    Some(self.base().places()[column as int].storage_kind)
                } else {
                    None
                }
            } else if column < self.stored_columns() {
                Some(self.storage_of(column as int).form())
            } else {
                None
            }),
    {
        if let Some(base) = &self.mapped_base {
            return base.storage_kind(column);
        }
        if column < self.storage.len() {
            Some(self.storage[column].kind())
        } else {
            None
        }
    }
}

/// Whether a column has a token for a text, or one is left.
pub open spec fn can_intern(index: FilterIndex, column: int, text: Seq<char>) -> bool {
    index.texts(column).contains(text) || index.texts(column).len() <= u32::MAX
}

/// What interning a text does: the token names the text, no other token
/// changes, and nothing else does.
pub open spec fn interns(
    before: FilterIndex,
    after: FilterIndex,
    column: int,
    text: Seq<char>,
    token: u32,
) -> bool {
    &&& after.sound()
    &&& after.registered() == before.registered()
    &&& after.dictionary_count() == before.dictionary_count()
    &&& after.mapped() == before.mapped()
    &&& after.mapped() ==> after.base() == before.base()
    &&& after.stored_columns() == before.stored_columns()
    &&& forall|c: int| #[trigger] after.column_nodes(c) == before.column_nodes(c)
    &&& forall|c: int|
        0 <= c < before.stored_columns() ==> #[trigger] after.storage_of(c) == before.storage_of(c)
    &&& forall|c: int, node: u32| #[trigger] after.value(c, node) == before.value(c, node)
    &&& forall|c: int| c != column ==> #[trigger] after.texts(c) == before.texts(c)
    &&& after.texts(column) == (if before.texts(column).contains(text) {
        before.texts(column)
    } else {
        before.texts(column).push(text)
    })
    &&& token < after.texts(column).len()
    &&& after.texts(column)[token as int] == text
}

/// Interning keeps every token: a text that had one has it still.
pub proof fn law_tokens_stay(
    before: FilterIndex,
    after: FilterIndex,
    column: int,
    text: Seq<char>,
    token: u32,
    other_column: int,
    other_token: int,
)
    requires
        interns(before, after, column, text, token),
        0 <= other_token < before.texts(other_column).len(),
    ensures
        other_token < after.texts(other_column).len(),
        after.texts(other_column)[other_token] == before.texts(other_column)[other_token],
{
}

impl FilterIndex {
    /// Interns a text for a column. Its token stays for the life of the index.
    pub fn intern_text_value(&mut self, column: usize, value: &str) -> (result: GraphResult<u32>)
        requires
            old(self).sound(),
            column < old(self).registered().len(),
            !old(self).mapped() ==> column < old(self).dictionary_count(),
        ensures
            match result {
                Ok(token) => interns(*old(self), *final(self), column as int, value@, token),
                Err(error) => {
                    &&& !can_intern(*old(self), column as int, value@)
                    &&& error@ == ErrorView::Internal("text filter token space exhausted"@)
                    &&& *final(self) == *old(self)
                },
            },
            result is Ok <==> can_intern(*old(self), column as int, value@),
    {
        if let Some(existing) = self.lookup_text_value(column, value) {
            return Ok(existing);
        }
        let ghost before = *self;
        if self.mapped_base.is_some() {
            return match self.intern_beside(column, value) {
                Some(token) => Ok(token),
                None => Err(internal("text filter token space exhausted")),
            };
        }
        if self.text_dictionaries[column].len() > u32::MAX as usize {
            return Err(internal("text filter token space exhausted"));
        }
        let added: Option<u32> = self.text_dictionaries[column].intern(value);
        match added {
            Some(token) => {
                proof {
                    lemma_dictionary_interned(before, *self, column as int, value@, token);
                }
                Ok(token)
            },
            None => Err(internal("text filter token space exhausted")),
        }
    }

    /// Interns a new text beside an artifact's dictionary.
    fn intern_beside(&mut self, column: usize, value: &str) -> (token: Option<u32>)
        requires
            old(self).sound(),
            old(self).mapped(),
            column < old(self).registered().len(),
            !old(self).texts(column as int).contains(value@),
        ensures
            match token {
                Some(token) => interns(*old(self), *final(self), column as int, value@, token),
                None => *final(self) == *old(self),
            },
            token is Some <==> old(self).texts(column as int).len() <= u32::MAX,
    {
        let ghost before = *self;
        let count: u32 = match &self.mapped_base {
            Some(base) => base.text_count(column),
            None => 0,
        };
        let ghost texts = self.texts(column as int);
        let ghost base_texts = self.base().texts(column as int);
        let ghost added = self.text_delta@[column as int]@;
        proof {
            assert(no_shared_text(base_texts, added));
            assert forall|i: int| 0 <= i < added.len() implies #[trigger] added[i] != value@ by {
                assert(texts[base_texts.len() + i] == added[i]);
            }
        }
        if self.text_delta[column].len() as u64 + count as u64 > u32::MAX as u64 {
            return None;
        }
        let token: Option<u32> = self.text_delta[column].intern(value);
        match token {
            Some(token) => {
                proof {
                    assert(added.len() == token) by {
                        let grown = self.text_delta@[column as int]@;
                        if token < added.len() {
                            assert(grown[token as int] == added[token as int]);
                        }
                    }
                    assert forall|i: int| 0 <= i < base_texts.len() implies #[trigger]
                        base_texts[i] != value@ by {
                        assert(texts[i] == base_texts[i]);
                    }
                    lemma_delta_interned(before, *self, column as int, value@, token);
                }
                Some(count + token)
            },
            None => None,
        }
    }
}

proof fn lemma_dictionary_interned(
    before: FilterIndex,
    after: FilterIndex,
    column: int,
    text: Seq<char>,
    token: u32,
)
    requires
        before.sound(),
        before.mapped_base is None,
        0 <= column < before.text_dictionaries@.len(),
        !before.texts(column).contains(text),
        after == (FilterIndex { text_dictionaries: after.text_dictionaries, ..before }),
        after.text_dictionaries@.len() == before.text_dictionaries@.len(),
        forall|c: int|
            0 <= c < before.text_dictionaries@.len() && c != column ==> #[trigger]
                after.text_dictionaries@[c] == before.text_dictionaries@[c],
        after.text_dictionaries@[column].wf(),
        after.text_dictionaries@[column]@ == before.text_dictionaries@[column]@.push(text),
        token < after.text_dictionaries@[column]@.len(),
        after.text_dictionaries@[column]@[token as int] == text,
    ensures
        interns(before, after, column, text, token),
{
    assert forall|c: int, node: u32| #[trigger] after.value(c, node) == before.value(c, node) by {}
    assert forall|c: int| c != column implies #[trigger] after.texts(c) == before.texts(c) by {
        if 0 <= c < before.text_dictionaries@.len() {
            assert(after.text_dictionaries@[c] == before.text_dictionaries@[c]);
        }
    }
}

proof fn lemma_delta_interned(
    before: FilterIndex,
    after: FilterIndex,
    column: int,
    text: Seq<char>,
    token: u32,
)
    requires
        before.sound(),
        before.mapped_base is Some,
        0 <= column < before.text_delta@.len(),
        !before.texts(column).contains(text),
        after == (FilterIndex { text_delta: after.text_delta, ..before }),
        after.text_delta@.len() == before.text_delta@.len(),
        forall|c: int|
            0 <= c < before.text_delta@.len() && c != column ==> #[trigger] after.text_delta@[c]
                == before.text_delta@[c],
        after.text_delta@[column].wf(),
        after.text_delta@[column]@ == before.text_delta@[column]@.push(text),
        token == before.text_delta@[column]@.len(),
        before.texts(column).len() <= u32::MAX,
        forall|i: int|
            0 <= i < before.base().texts(column).len() ==> #[trigger] before.base().texts(
                column,
            )[i] != text,
    ensures
        interns(
            before,
            after,
            column,
            text,
            (before.base().texts(column).len() + token) as u32,
        ),
{
    let base = before.mapped_base->Some_0;
    assert forall|c: int| 0 <= c < after.text_delta@.len() implies #[trigger] no_shared_text(
        base.texts(c),
        after.text_delta@[c]@,
    ) by {
        assert(no_shared_text(base.texts(c), before.text_delta@[c]@));
        if c == column {
            let grown = after.text_delta@[column]@;
            let old_added = before.text_delta@[column]@;
            assert forall|i: int, j: int|
                0 <= i < base.texts(c).len() && 0 <= j < grown.len() implies #[trigger] base.texts(
                c,
            )[i] != #[trigger] grown[j] by {
                if j < old_added.len() {
                    assert(grown[j] == old_added[j]);
                }
            }
        } else {
            assert(after.text_delta@[c] == before.text_delta@[c]);
        }
    }
    assert forall|c: int| 0 <= c < after.text_delta@.len() implies (
    #[trigger] after.text_delta@[c]).wf() by {
        if c != column {
            assert(after.text_delta@[c] == before.text_delta@[c]);
        }
    }
    assert forall|c: int, node: u32| #[trigger] after.value(c, node) == before.value(c, node) by {}
    assert forall|c: int| c != column implies #[trigger] after.texts(c) == before.texts(c) by {
        if 0 <= c < before.text_delta@.len() {
            assert(after.text_delta@[c] == before.text_delta@[c]);
        }
    }
    assert(after.texts(column) =~= before.texts(column).push(text));
}

/// The name of a domain in messages.
pub open spec fn domain_label(column_type: FilterColumnType) -> Seq<char> {
    match column_type {
        FilterColumnType::Numeric => "Numeric"@,
        FilterColumnType::Boolean => "Boolean"@,
        FilterColumnType::Text => "Text"@,
        FilterColumnType::Date => "Date"@,
        FilterColumnType::Timestamptz => "Timestamptz"@,
        FilterColumnType::Uuid => "Uuid"@,
    }
}

/// A persisted value in messages.
pub open spec fn value_label(value: PersistedFilterValue) -> Seq<char> {
    match value {
        PersistedFilterValue::Null => "Null"@,
        PersistedFilterValue::Numeric(number) => "Numeric("@ + signed_decimal(number as int)
            + ")"@,
        PersistedFilterValue::Boolean(flag) => if flag {
            "Boolean(true)"@
        } else {
            "Boolean(false)"@
        },
        PersistedFilterValue::Text(text) => "Text("@ + escaped(text@) + ")"@,
        PersistedFilterValue::Date(number) => "Date("@ + signed_decimal(number as int) + ")"@,
        PersistedFilterValue::Timestamptz(number) => "Timestamptz("@ + signed_decimal(
            number as int,
        ) + ")"@,
        PersistedFilterValue::Uuid(number) => "Uuid("@ + decimal(number as nat) + ")"@,
    }
}

/// The message for a persisted value of another domain.
pub open spec fn mismatch_message(
    value: PersistedFilterValue,
    column: nat,
    column_type: FilterColumnType,
) -> Seq<char> {
    "projection filter value "@ + value_label(value) + " does not match registered column "@
        + decimal(column) + " type "@ + domain_label(column_type)
}

/// The name of a domain in messages.
fn domain_text(column_type: FilterColumnType) -> (text: String)
    ensures
        text@ == domain_label(column_type),
{
    match column_type {
        FilterColumnType::Numeric => "Numeric".to_owned(),
        FilterColumnType::Boolean => "Boolean".to_owned(),
        FilterColumnType::Text => "Text".to_owned(),
        FilterColumnType::Date => "Date".to_owned(),
        FilterColumnType::Timestamptz => "Timestamptz".to_owned(),
        FilterColumnType::Uuid => "Uuid".to_owned(),
    }
}

/// A persisted value in messages.
fn value_text(value: &PersistedFilterValue) -> (text: String)
    ensures
        text@ == value_label(*value),
{
    match value {
        PersistedFilterValue::Null => "Null".to_owned(),
        PersistedFilterValue::Numeric(number) => "Numeric(".to_owned().concat(
            signed_text(*number).as_str(),
        ).concat(")"),
        PersistedFilterValue::Boolean(flag) => if *flag {
            "Boolean(true)".to_owned()
        } else {
            "Boolean(false)".to_owned()
        },
        PersistedFilterValue::Text(text) => "Text(".to_owned().concat(
            escaped_text(text.as_str()).as_str(),
        ).concat(")"),
        PersistedFilterValue::Date(number) => "Date(".to_owned().concat(
            signed_text(*number).as_str(),
        ).concat(")"),
        PersistedFilterValue::Timestamptz(number) => "Timestamptz(".to_owned().concat(
            signed_text(*number).as_str(),
        ).concat(")"),
        PersistedFilterValue::Uuid(number) => "Uuid(".to_owned().concat(
            wide_decimal_text(*number).as_str(),
        ).concat(")"),
    }
}

/// The message for a persisted value of another domain.
fn mismatch_text(
    actual: &PersistedFilterValue,
    column: usize,
    expected: FilterColumnType,
) -> (text: String)
    ensures
        text@ == mismatch_message(*actual, column as nat, expected),
{
    "projection filter value ".to_owned().concat(value_text(actual).as_str()).concat(
        " does not match registered column ",
    ).concat(decimal_text(column as u64).as_str()).concat(" type ").concat(
        domain_text(expected).as_str(),
    )
}

/// Whether a persisted value can be applied to a column: it belongs to the
/// domain, and a text has a token or can get one.
pub open spec fn can_apply(index: FilterIndex, column: int, value: PersistedFilterValue) -> bool {
    &&& persisted_in_domain(index.registered()[column].column_type, value)
    &&& value matches PersistedFilterValue::Text(text) ==> {
        &&& !index.mapped() ==> column < index.dictionary_count()
        &&& can_intern(index, column, text@)
    }
}

/// The error for a text that cannot be interned.
pub open spec fn intern_refusal(index: FilterIndex, column: int) -> ErrorView {
    if index.mapped() {
        ErrorView::Internal("text filter token space exhausted"@)
    } else if column >= index.dictionary_count() {
        ErrorView::CorruptFile("text filter column has no dictionary"@)
    } else {
        ErrorView::CorruptFile("text filter dictionary exceeds u32 tokens"@)
    }
}

/// What applying a value to a node of a column leaves as it is: every other
/// value, the texts of other columns, and how columns are kept.
pub open spec fn applies_beside(
    before: FilterIndex,
    after: FilterIndex,
    column: int,
    node: u32,
) -> bool {
    &&& after.sound()
    &&& after.registered() == before.registered()
    &&& after.dictionary_count() == before.dictionary_count()
    &&& after.mapped() == before.mapped()
    &&& after.mapped() ==> after.base() == before.base()
    &&& after.stored_columns() == before.stored_columns()
    &&& forall|c: int| #[trigger] after.column_nodes(c) == before.column_nodes(c)
    &&& forall|c: int|
        0 <= c < before.stored_columns() ==> (#[trigger] after.storage_of(c)).form()
            == before.storage_of(c).form() && after.storage_of(c).slots() == before.storage_of(
            c,
        ).slots()
    &&& forall|c: int, other: u32|
        c != column || other != node ==> #[trigger] after.value(c, other) == before.value(c, other)
    &&& forall|c: int| c != column ==> #[trigger] after.texts(c) == before.texts(c)
}

/// What applying a persisted text does: it is interned, unless it is already,
/// and set.
pub open spec fn applies_text(
    before: FilterIndex,
    after: FilterIndex,
    column: int,
    node: u32,
    text: Seq<char>,
    tombstone: bool,
) -> bool {
    &&& applies_beside(before, after, column, node)
    &&& after.texts(column) == (if before.texts(column).contains(text) {
        before.texts(column)
    } else {
        before.texts(column).push(text)
    })
    &&& exists|token: u32|
        {
            &&& token < after.texts(column).len()
            &&& #[trigger] after.texts(column)[token as int] == text
            &&& after.value(column, node) == before.after_set(
                column,
                node,
                if tombstone {
                    None
                } else {
                    Some(EncodedFilterValue::Text(token))
                },
            )
        }
}

/// What applying a persisted value does.
pub open spec fn applies(
    before: FilterIndex,
    after: FilterIndex,
    column: int,
    node: u32,
    value: PersistedFilterValue,
    tombstone: bool,
) -> bool {
    &&& applies_beside(before, after, column, node)
    &&& match value {
        PersistedFilterValue::Text(text) => applies_text(
            before,
            after,
            column,
            node,
            text@,
            tombstone,
        ),
        _ => {
            &&& after.texts(column) == before.texts(column)
            &&& after.value(column, node) == before.after_set(
                column,
                node,
                if tombstone {
                    None
                } else {
                    plain_encoding(value)
                },
            )
        },
    }
}

impl FilterIndex {
    /// Applies a self-contained value of a durable segment. Text is interned;
    /// `NULL` and tombstones clear the node's value.
    pub fn apply_persisted_value(
        &mut self,
        column: usize,
        node: u32,
        node_count: u32,
        value: &PersistedFilterValue,
        tombstone: bool,
    ) -> (result: GraphResult<()>)
        requires
            old(self).sound(),
        ensures
            result is Ok <==> node < node_count && column < old(self).registered().len()
                && can_apply(*old(self), column as int, *value),
            result is Ok ==> applies(
                *old(self),
                *final(self),
                column as int,
                node,
                *value,
                tombstone,
            ),
            result matches Err(error) ==> {
                &&& *final(self) == *old(self)
                &&& if node >= node_count {
                    error@ == ErrorView::CorruptFile(
                        "projection filter node id "@ + decimal(node as nat)
                            + " is outside projected node range 0.."@ + decimal(
                            node_count as nat,
                        ),
                    )
                } else if column >= old(self).registered().len() {
                    error@ == ErrorView::CorruptFile(
                        "projection filter column id "@ + decimal(column as nat)
                            + " is not registered in the base artifact"@,
                    )
                } else if persisted_in_domain(
                    old(self).registered()[column as int].column_type,
                    *value,
                ) {
                    error@ == intern_refusal(*old(self), column as int)
                } else {
                    error@ == ErrorView::CorruptFile(
                        mismatch_message(
                            *value,
                            column as nat,
                            old(self).registered()[column as int].column_type,
                        ),
                    )
                }
            },
    {
        if node >= node_count {
            return Err(
                GraphError::CorruptFile {
                    reason: "projection filter node id ".to_owned().concat(
                        decimal_text(node as u64).as_str(),
                    ).concat(" is outside projected node range 0..").concat(
                        decimal_text(node_count as u64).as_str(),
                    ),
                },
            );
        }
        let column_type: FilterColumnType = match self.column_type(column) {
            Some(column_type) => column_type,
            None => {
                return Err(
                    GraphError::CorruptFile {
                        reason: "projection filter column id ".to_owned().concat(
                            decimal_text(column as u64).as_str(),
                        ).concat(" is not registered in the base artifact"),
                    },
                );
            },
        };
        let encoded: Option<EncodedFilterValue> = match (column_type, value) {
            (_, PersistedFilterValue::Null) => None,
            (FilterColumnType::Numeric, PersistedFilterValue::Numeric(number)) => Some(
                EncodedFilterValue::Numeric(*number),
            ),
            (FilterColumnType::Boolean, PersistedFilterValue::Boolean(flag)) => Some(
                EncodedFilterValue::Boolean(*flag),
            ),
            (FilterColumnType::Text, PersistedFilterValue::Text(text)) => {
                return self.apply_text(column, node, text.as_str(), tombstone);
            },
            (FilterColumnType::Date, PersistedFilterValue::Date(number)) => Some(
                EncodedFilterValue::Date(*number),
            ),
            (FilterColumnType::Timestamptz, PersistedFilterValue::Timestamptz(number)) => Some(
                EncodedFilterValue::Timestamptz(*number),
            ),
            (FilterColumnType::Uuid, PersistedFilterValue::Uuid(uuid)) => Some(
                EncodedFilterValue::Uuid(*uuid),
            ),
            _ => {
                return Err(
                    GraphError::CorruptFile { reason: mismatch_text(value, column, column_type) },
                );
            },
        };
        self.place_value(
            column,
            node,
            if tombstone {
                None
            } else {
                encoded
            },
        );
        Ok(())
    }

    /// Interns a persisted text and sets it.
    fn apply_text(&mut self, column: usize, node: u32, text: &str, tombstone: bool) -> (result:
        GraphResult<()>)
        requires
            old(self).sound(),
            column < old(self).registered().len(),
        ensures
            result is Ok <==> (!old(self).mapped() ==> column < old(self).dictionary_count())
                && can_intern(*old(self), column as int, text@),
            result is Ok ==> applies_text(
                *old(self),
                *final(self),
                column as int,
                node,
                text@,
                tombstone,
            ),
            result matches Err(error) ==> {
                &&& *final(self) == *old(self)
                &&& error@ == intern_refusal(*old(self), column as int)
            },
    {
        if self.mapped_base.is_none() {
            if column >= self.text_dictionaries.len() {
                return Err(corrupt("text filter column has no dictionary"));
            }
        }
        let token: u32 = match self.intern_text_value(column, text) {
            Ok(token) => token,
            Err(error) => {
                if self.mapped_base.is_some() {
                    return Err(error);
                }
                return Err(corrupt("text filter dictionary exceeds u32 tokens"));
            },
        };
        let ghost interned = *self;
        self.place_value(
            column,
            node,
            if tombstone {
                None
            } else {
                Some(EncodedFilterValue::Text(token))
            },
        );
        proof {
            assert(self.texts(column as int)[token as int] == text@);
            assert(interned.storage_of(column as int) == old(self).storage_of(column as int)
                || old(self).mapped());
        }
        Ok(())
    }

    /// Takes over the filter sections of an artifact: a catalog of columns, their
    /// values and their dictionaries. Values and texts stay in its bytes.
    pub fn from_mapped_sections(
        bytes: MappedBytes,
        catalog_range: Range<usize>,
        data_range: Range<usize>,
        dictionary_range: Range<usize>,
        node_count: u32,
    ) -> (result: GraphResult<Self>)
        ensures
            result is Ok <==> {
                &&& in_region(catalog_range, bytes@.len())
                &&& in_region(data_range, bytes@.len())
                &&& in_region(dictionary_range, bytes@.len())
                &&& sections_valid(
                    bytes@.subrange(catalog_range.start as int, catalog_range.end as int),
                    bytes@.subrange(data_range.start as int, data_range.end as int),
                    bytes@.subrange(dictionary_range.start as int, dictionary_range.end as int),
                    node_count as nat,
                )
            },
            result matches Err(error) ==> error@ is CorruptFile,
            result matches Ok(index) ==> reads_artifact(
                index,
                bytes@,
                catalog_range,
                data_range,
                dictionary_range,
                node_count,
            ),
    {
        let (columns, base) = match MappedFilterBase::load(
            bytes,
            catalog_range,
            data_range,
            dictionary_range,
            node_count,
        ) {
            Ok(loaded) => loaded,
            Err(error) => return Err(error),
        };
        let count: usize = columns.len();
        let mut node_counts: Vec<usize> = Vec::new();
        let mut text_dictionaries: Vec<TextDictionary> = Vec::new();
        let mut delta: Vec<HashMap<u32, Option<EncodedFilterValue>>> = Vec::new();
        let mut text_delta: Vec<TextDictionary> = Vec::new();
        let mut at: usize = 0;
        while at < count
            invariant
                at <= count,
                text_dictionaries@.len() == delta@.len() == text_delta@.len() == at,
                node_counts@.len() == at,
                forall|i: int| 0 <= i < at ==> #[trigger] node_counts@[i] == node_count,
                forall|i: int| 0 <= i < at ==> (#[trigger] text_dictionaries@[i]).wf(),
                forall|i: int| 0 <= i < at ==> (#[trigger] text_delta@[i]).wf(),
                forall|i: int| 0 <= i < at ==> (#[trigger] text_delta@[i])@.len() == 0,
                forall|i: int|
                    0 <= i < at ==> (#[trigger] delta@[i])@ == Map::<
                        u32,
                        Option<EncodedFilterValue>,
                    >::empty(),
            decreases count - at,
        {
            text_dictionaries.push(TextDictionary::new());
            delta.push(HashMap::new());
            text_delta.push(TextDictionary::new());
            node_counts.push(node_count as usize);
            at = at + 1;
        }
        let index = FilterIndex {
            columns,
            text_dictionaries,
            storage: Vec::new(),
            mapped_base: Some(base),
            delta,
            text_delta,
            node_counts,
        };
        proof {
            assert forall|i: int| 0 <= i < index.text_delta@.len() implies #[trigger]
                no_shared_text(base.texts(i), index.text_delta@[i]@) by {
                base.lemma_texts_different(i);
            }
            assert forall|column: int| #[trigger] index.texts(column) == base.texts(column) by {
                assert(index.texts(column) =~= base.texts(column));
            }
            assert forall|column: int, node: u32| #[trigger] index.value(column, node) == base.at(
                column,
                node as int,
            ) by {
                if 0 <= column < index.delta@.len() {
                    assert(index.delta@[column]@ == Map::<
                        u32,
                        Option<EncodedFilterValue>,
                    >::empty());
                }
            }
        }
        Ok(index)
    }
}

/// Whether an index could come from an artifact with this many nodes: an
/// artifact's index has its node and column counts; one in memory has storage
/// and a dictionary for each column, that fit it.
pub closed spec fn layout_fits(index: FilterIndex, node_count: nat) -> bool {
    match index.mapped_base {
        Some(base) => base.nodes() == node_count && base.places().len() == index.columns@.len(),
        None => {
            &&& index.storage@.len() == index.columns@.len()
            &&& index.text_dictionaries@.len() == index.columns@.len()
            &&& forall|i: int|
                0 <= i < index.columns@.len() ==> (#[trigger] index.storage@[i]).fits(
                    index.columns@[i].column_type,
                    node_count,
                )
            &&& forall|i: int|
                0 <= i < index.columns@.len() && !(index.columns@[i].column_type is Text) ==> (
                #[trigger] index.text_dictionaries@[i])@.len() == 0
        },
    }
}

impl FilterIndex {
    /// Accepts an index whose parts agree with each other and with the number
    /// of nodes.
    pub fn validate_persisted_layout(&self, node_count: u32) -> (result: GraphResult<()>)
        ensures
            result is Ok <==> layout_fits(*self, node_count as nat),
            result matches Err(error) ==> error@ is CorruptFile,
    {
        if let Some(base) = &self.mapped_base {
            if base.node_count() != node_count || base.column_count() != self.columns.len() {
                return Err(
                    corrupt("mapped filter index does not match artifact node or column count"),
                );
            }
            return Ok(());
        }
        let count: usize = self.columns.len();
        if self.storage.len() != count || self.text_dictionaries.len() != count {
            return Err(corrupt("filter index parallel column arrays have different lengths"));
        }
        let mut at: usize = 0;
        while at < count
            invariant
                at <= count == self.columns@.len() == self.storage@.len()
                    == self.text_dictionaries@.len(),
                self.mapped_base is None,
                forall|i: int|
                    0 <= i < at ==> (#[trigger] self.storage@[i]).fits(
                        self.columns@[i].column_type,
                        node_count as nat,
                    ),
                forall|i: int|
                    0 <= i < at && !(self.columns@[i].column_type is Text) ==> (
                    #[trigger] self.text_dictionaries@[i])@.len() == 0,
            decreases count - at,
        {
            if let Err(error) = self.storage[at].validate_persisted_layout(
                self.columns[at].column_type,
                node_count as usize,
            ) {
                assert(!self.storage@[at as int].fits(
                    self.columns@[at as int].column_type,
                    node_count as nat,
                ));
                return Err(error);
            }
            if self.columns[at].column_type != FilterColumnType::Text
                && self.text_dictionaries[at].len() != 0 {
                assert(self.text_dictionaries@[at as int]@.len() != 0);
                return Err(corrupt("non-text filter column has a text dictionary"));
            }
            at = at + 1;
        }
        Ok(())
    }
}

/// Copies dictionaries.
fn copy_dictionaries(list: &Vec<TextDictionary>) -> (copy: Vec<TextDictionary>)
    ensures
        copy@.len() == list@.len(),
        forall|i: int| 0 <= i < copy@.len() ==> (#[trigger] copy@[i])@ == list@[i]@,
        forall|i: int| 0 <= i < copy@.len() && list@[i].wf() ==> (#[trigger] copy@[i]).wf(),
{
    let mut copy: Vec<TextDictionary> = Vec::new();
    let mut at: usize = 0;
    while at < list.len()
        invariant
            at <= list@.len(),
            copy@.len() == at,
            forall|i: int| 0 <= i < copy@.len() ==> (#[trigger] copy@[i])@ == list@[i]@,
            forall|i: int| 0 <= i < copy@.len() && list@[i].wf() ==> (#[trigger] copy@[i]).wf(),
        decreases list@.len() - at,
    {
        copy.push(list[at].clone());
        at = at + 1;
    }
    copy
}

impl Clone for FilterIndex {
    /// A copy with the same columns, values and texts. Later changes of one do
    /// not show in the other.
    fn clone(&self) -> (copy: Self)
        ensures
            self.sound() ==> {
                &&& copy.sound()
                &&& copy.registered() == self.registered()
                &&& copy.dictionary_count() == self.dictionary_count()
                &&& copy.mapped() == self.mapped()
                &&& copy.stored_columns() == self.stored_columns()
                &&& copy.base_columns() == self.base_columns()
                &&& forall|column: int, node: u32| #[trigger]
                    copy.value(column, node) == self.value(column, node)
                &&& forall|column: int| #[trigger] copy.texts(column) == self.texts(column)
                &&& forall|column: int| #[trigger]
                    copy.column_nodes(column) == self.column_nodes(column)
                &&& forall|column: int|
                    0 <= column < self.stored_columns() ==> (#[trigger] copy.storage_of(
                        column,
                    )).form() == self.storage_of(column).form() && copy.storage_of(column).slots()
                        == self.storage_of(column).slots()
            },
    {
        let mut columns: Vec<FilterColumnMeta> = Vec::new();
        let mut at: usize = 0;
        while at < self.columns.len()
            invariant
                at <= self.columns@.len(),
                columns@.len() == at,
                forall|i: int| 0 <= i < at ==> (#[trigger] columns@[i])@ == self.columns@[i]@,
            decreases self.columns@.len() - at,
        {
            let column = &self.columns[at];
            columns.push(
                FilterColumnMeta {
                    table_oid: column.table_oid,
                    column_name: column.column_name.clone(),
                    column_type: column.column_type,
                },
            );
            at = at + 1;
        }
        let mut storage: Vec<FilterColumnStorage> = Vec::new();
        let mut at: usize = 0;
        while at < self.storage.len()
            invariant
                at <= self.storage@.len(),
                storage@.len() == at,
                forall|i: int|
                    0 <= i < at ==> (#[trigger] storage@[i]).form() == self.storage@[i].form()
                        && storage@[i].slots() == self.storage@[i].slots(),
                forall|i: int|
                    0 <= i < at && self.storage@[i].wf() ==> (#[trigger] storage@[i]).wf()
                        && forall|node: u32| #[trigger]
                        storage@[i].at(node) == self.storage@[i].at(node),
            decreases self.storage@.len() - at,
        {
            storage.push(self.storage[at].clone());
            at = at + 1;
        }
        let mut delta: Vec<HashMap<u32, Option<EncodedFilterValue>>> = Vec::new();
        let mut at: usize = 0;
        while at < self.delta.len()
            invariant
                at <= self.delta@.len(),
                delta@.len() == at,
                forall|i: int| 0 <= i < at ==> (#[trigger] delta@[i])@ == self.delta@[i]@,
            decreases self.delta@.len() - at,
        {
            delta.push(self.delta[at].clone());
            at = at + 1;
        }
        let mut node_counts: Vec<usize> = Vec::new();
        let mut at: usize = 0;
        while at < self.node_counts.len()
            invariant
                at <= self.node_counts@.len(),
                node_counts@ =~= self.node_counts@.take(at as int),
            decreases self.node_counts@.len() - at,
        {
            node_counts.push(self.node_counts[at]);
            at = at + 1;
        }
        assert(node_counts@ =~= self.node_counts@);
        let mapped_base: Option<MappedFilterBase> = match &self.mapped_base {
            Some(base) => Some(base.share()),
            None => None,
        };
        let copy = FilterIndex {
            columns,
            text_dictionaries: copy_dictionaries(&self.text_dictionaries),
            storage,
            mapped_base,
            delta,
            text_delta: copy_dictionaries(&self.text_delta),
            node_counts,
        };
        proof {
            if self.sound() {
                lemma_copied(*self, copy);
            }
        }
        copy
    }
}

proof fn lemma_copied(index: FilterIndex, copy: FilterIndex)
    requires
        index.sound(),
        copy.columns@.len() == index.columns@.len(),
        forall|i: int|
            0 <= i < index.columns@.len() ==> (#[trigger] copy.columns@[i])@ == index.columns@[i]@,
        copy.storage@.len() == index.storage@.len(),
        forall|i: int|
            0 <= i < index.storage@.len() ==> {
                &&& (#[trigger] copy.storage@[i]).form() == index.storage@[i].form()
                &&& copy.storage@[i].slots() == index.storage@[i].slots()
                &&& copy.storage@[i].wf()
                &&& forall|node: u32| #[trigger]
                    copy.storage@[i].at(node) == index.storage@[i].at(node)
            },
        copy.node_counts@ == index.node_counts@,
        copy.delta@.len() == index.delta@.len(),
        forall|i: int|
            0 <= i < index.delta@.len() ==> (#[trigger] copy.delta@[i])@ == index.delta@[i]@,
        copy.text_dictionaries@.len() == index.text_dictionaries@.len(),
        forall|i: int|
            0 <= i < index.text_dictionaries@.len() ==> (#[trigger] copy.text_dictionaries@[i])@
                == index.text_dictionaries@[i]@ && copy.text_dictionaries@[i].wf(),
        copy.text_delta@.len() == index.text_delta@.len(),
        forall|i: int|
            0 <= i < index.text_delta@.len() ==> (#[trigger] copy.text_delta@[i])@
                == index.text_delta@[i]@ && copy.text_delta@[i].wf(),
        match (index.mapped_base, copy.mapped_base) {
            (Some(base), Some(other)) => {
                &&& other.wf()
                &&& other.places() == base.places()
                &&& other.content() == base.content()
                &&& other.nodes() == base.nodes()
            },
            (None, None) => true,
            _ => false,
        },
    ensures
        copy.sound(),
        copy.registered() == index.registered(),
        copy.dictionary_count() == index.dictionary_count(),
        copy.mapped() == index.mapped(),
        copy.base_columns() == index.base_columns(),
        forall|column: int, node: u32| #[trigger]
            copy.value(column, node) == index.value(column, node),
        forall|column: int| #[trigger] copy.texts(column) == index.texts(column),
{
    assert(copy.registered() =~= index.registered());
    if index.mapped_base is Some {
        let base = copy.mapped_base->Some_0;
        assert forall|i: int| 0 <= i < copy.text_delta@.len() implies #[trigger] no_shared_text(
            base.texts(i),
            copy.text_delta@[i]@,
        ) by {
            assert(no_shared_text(index.mapped_base->Some_0.texts(i), index.text_delta@[i]@));
            assert(copy.text_delta@[i]@ == index.text_delta@[i]@);
        }
    } else {
        assert forall|i: int| 0 <= i < copy.delta@.len() implies (#[trigger] copy.delta@[i])@
            == Map::<u32, Option<EncodedFilterValue>>::empty() by {
            assert(copy.delta@[i]@ == index.delta@[i]@);
        }
    }
    assert forall|column: int, node: u32| #[trigger] copy.value(column, node) == index.value(
        column,
        node,
    ) by {
        if 0 <= column < index.delta@.len() {
            assert(copy.delta@[column]@ == index.delta@[column]@);
        }
        if 0 <= column < index.storage@.len() {
            assert(copy.storage@[column].at(node) == index.storage@[column].at(node));
        }
    }
    assert forall|column: int| #[trigger] copy.texts(column) == index.texts(column) by {
        if 0 <= column < index.text_delta@.len() {
            assert(copy.text_delta@[column]@ == index.text_delta@[column]@);
        }
        if 0 <= column < index.text_dictionaries@.len() {
            assert(copy.text_dictionaries@[column]@ == index.text_dictionaries@[column]@);
        }
    }
}

/// What the dictionaries of a list take.
spec fn dictionaries_needs(list: Seq<TextDictionary>, count: nat) -> Seq<Need>
    decreases count,
{
    if count == 0 {
        Seq::empty()
    } else {
        dictionaries_needs(list, (count - 1) as nat) + dictionary_needs(list[count - 1]@)
    }
}

/// What a list of dictionaries takes: its items, and each dictionary.
spec fn dictionary_list_needs(list: Seq<TextDictionary>) -> Seq<Need> {
    seq![Need::Items { count: list.len(), unit: vstd::layout::size_of::<TextDictionary>() }]
        + dictionaries_needs(list, list.len())
}

/// What the columns take: their descriptions and names.
spec fn column_needs(columns: Seq<FilterColumnMeta>) -> Seq<Need> {
    seq![Need::Items { count: columns.len(), unit: vstd::layout::size_of::<FilterColumnMeta>() }]
        + Seq::new(columns.len(), |i: int| text_need(columns[i].column_name@))
}

/// What the columns' storage takes.
spec fn storage_needs(storage: Seq<FilterColumnStorage>) -> Seq<Need> {
    seq![
        Need::Items { count: storage.len(), unit: vstd::layout::size_of::<FilterColumnStorage>() },
    ] + Seq::new(storage.len(), |i: int| Need::Bytes { bytes: storage[i].bytes() })
}

/// What the columns' later values take.
spec fn delta_needs(delta: Seq<HashMap<u32, Option<EncodedFilterValue>>>) -> Seq<Need> {
    seq![
        Need::Items {
            count: delta.len(),
            unit: vstd::layout::size_of::<HashMap<u32, Option<EncodedFilterValue>>>(),
        },
    ] + Seq::new(
        delta.len(),
        |i: int|
            Need::Buckets {
                count: delta[i]@.len(),
                entry: vstd::layout::size_of::<(u32, Option<EncodedFilterValue>)>(),
            },
    )
}

/// What the places of columns in an artifact take.
spec fn place_needs(base: Option<MappedFilterBase>) -> Seq<Need> {
    match base {
        Some(base) => seq![
            Need::Items {
                count: base.places().len(),
                unit: vstd::layout::size_of::<crate::filter_catalog::MappedColumn>(),
            },
        ],
        None => Seq::empty(),
    }
}

/// What the columns' node counts take.
spec fn count_needs(counts: Seq<usize>) -> Seq<Need> {
    seq![Need::Items { count: counts.len(), unit: vstd::layout::size_of::<usize>() }]
}

/// What an index has to hold, allocation by allocation.
pub closed spec fn index_needs(index: FilterIndex) -> Seq<Need> {
    column_needs(index.columns@) + storage_needs(index.storage@) + dictionary_list_needs(
        index.text_dictionaries@,
    ) + place_needs(index.mapped_base) + delta_needs(index.delta@) + dictionary_list_needs(
        index.text_delta@,
    ) + count_needs(index.node_counts@)
}

/// Adds the room of a list's dictionaries.
fn push_dictionaries(rooms: &mut Vec<Room>, list: &Vec<TextDictionary>)
    requires
        forall|i: int| 0 <= i < list@.len() ==> (#[trigger] list@[i]).wf(),
    ensures
        adds(old(rooms)@, final(rooms)@, dictionary_list_needs(list@)),
{
    let ghost start = rooms@;
    let ghost head = seq![
        Need::Items { count: list@.len(), unit: vstd::layout::size_of::<TextDictionary>() },
    ];
    push_list(rooms, list);
    let mut at: usize = 0;
    assert(head + dictionaries_needs(list@, 0) =~= head);
    while at < list.len()
        invariant
            at <= list@.len(),
            forall|i: int| 0 <= i < list@.len() ==> (#[trigger] list@[i]).wf(),
            adds(start, rooms@, head + dictionaries_needs(list@, at as nat)),
        decreases list@.len() - at,
    {
        let ghost before = rooms@;
        let ghost taken = head + dictionaries_needs(list@, at as nat);
        list[at].push_rooms(rooms);
        proof {
            let own = dictionary_needs(list@[at as int]@);
            lemma_adds(start, before, rooms@, taken, own);
            assert(head + dictionaries_needs(list@, (at + 1) as nat) =~= taken + own);
        }
        at = at + 1;
    }
}

impl FilterIndex {
    /// Adds the room of the columns.
    fn push_columns(&self, rooms: &mut Vec<Room>)
        ensures
            adds(old(rooms)@, final(rooms)@, column_needs(self.columns@)),
    {
        let ghost start = rooms@;
        let ghost needs = Seq::new(
            self.columns@.len(),
            |i: int| text_need(self.columns@[i].column_name@),
        );
        let ghost head = seq![
            Need::Items {
                count: self.columns@.len(),
                unit: vstd::layout::size_of::<FilterColumnMeta>(),
            },
        ];
        push_list(rooms, &self.columns);
        let mut at: usize = 0;
        assert(head + needs.take(0) =~= head);
        while at < self.columns.len()
            invariant
                at <= self.columns@.len() == needs.len(),
                needs == Seq::new(
                    self.columns@.len(),
                    |i: int| text_need(self.columns@[i].column_name@),
                ),
                adds(start, rooms@, head + needs.take(at as int)),
            decreases self.columns@.len() - at,
        {
            let ghost before = rooms@;
            push_text(rooms, &self.columns[at].column_name);
            proof {
                let own = seq![needs[at as int]];
                lemma_adds(start, before, rooms@, head + needs.take(at as int), own);
                assert(head + needs.take(at + 1) =~= head + needs.take(at as int) + own);
            }
            at = at + 1;
        }
        assert(head + needs.take(self.columns@.len() as int) =~= column_needs(self.columns@));
    }

    /// Adds the room of the columns' storage.
    fn push_storage(&self, rooms: &mut Vec<Room>)
        ensures
            adds(old(rooms)@, final(rooms)@, storage_needs(self.storage@)),
    {
        let ghost start = rooms@;
        let ghost needs = Seq::new(
            self.storage@.len(),
            |i: int| Need::Bytes { bytes: self.storage@[i].bytes() },
        );
        let ghost head = seq![
            Need::Items {
                count: self.storage@.len(),
                unit: vstd::layout::size_of::<FilterColumnStorage>(),
            },
        ];
        push_list(rooms, &self.storage);
        let mut at: usize = 0;
        assert(head + needs.take(0) =~= head);
        while at < self.storage.len()
            invariant
                at <= self.storage@.len() == needs.len(),
                needs == Seq::new(
                    self.storage@.len(),
                    |i: int| Need::Bytes { bytes: self.storage@[i].bytes() },
                ),
                adds(start, rooms@, head + needs.take(at as int)),
            decreases self.storage@.len() - at,
        {
            let ghost before = rooms@;
            let bytes: usize = self.storage[at].estimated_bytes();
            rooms.push(Room::Bytes { bytes });
            proof {
                let own = seq![needs[at as int]];
                assert(adds(before, rooms@, own));
                lemma_adds(start, before, rooms@, head + needs.take(at as int), own);
                assert(head + needs.take(at + 1) =~= head + needs.take(at as int) + own);
            }
            at = at + 1;
        }
        assert(head + needs.take(self.storage@.len() as int) =~= storage_needs(self.storage@));
    }

    /// Adds the room of the columns' later values.
    fn push_delta(&self, rooms: &mut Vec<Room>)
        ensures
            adds(old(rooms)@, final(rooms)@, delta_needs(self.delta@)),
    {
        let ghost start = rooms@;
        let ghost needs = Seq::new(
            self.delta@.len(),
            |i: int|
                Need::Buckets {
                    count: self.delta@[i]@.len(),
                    entry: vstd::layout::size_of::<(u32, Option<EncodedFilterValue>)>(),
                },
        );
        let ghost head = seq![
            Need::Items {
                count: self.delta@.len(),
                unit: vstd::layout::size_of::<HashMap<u32, Option<EncodedFilterValue>>>(),
            },
        ];
        push_list(rooms, &self.delta);
        let mut at: usize = 0;
        assert(head + needs.take(0) =~= head);
        while at < self.delta.len()
            invariant
                at <= self.delta@.len() == needs.len(),
                needs == Seq::new(
                    self.delta@.len(),
                    |i: int|
                        Need::Buckets {
                            count: self.delta@[i]@.len(),
                            entry: vstd::layout::size_of::<(u32, Option<EncodedFilterValue>)>(),
                        },
                ),
                adds(start, rooms@, head + needs.take(at as int)),
            decreases self.delta@.len() - at,
        {
            let ghost before = rooms@;
            push_map(rooms, &self.delta[at]);
            proof {
                let own = seq![needs[at as int]];
                lemma_adds(start, before, rooms@, head + needs.take(at as int), own);
                assert(head + needs.take(at + 1) =~= head + needs.take(at as int) + own);
            }
            at = at + 1;
        }
        assert(head + needs.take(self.delta@.len() as int) =~= delta_needs(self.delta@));
    }

    /// Adds what the index has allocated.
    pub fn push_rooms(&self, rooms: &mut Vec<Room>)
        requires
            self.sound(),
        ensures
            adds(old(rooms)@, final(rooms)@, index_needs(*self)),
    {
        let ghost start = rooms@;
        self.push_columns(rooms);
        let ghost columns = rooms@;
        self.push_storage(rooms);
        let ghost storage = rooms@;
        push_dictionaries(rooms, &self.text_dictionaries);
        let ghost dictionaries = rooms@;
        if let Some(base) = &self.mapped_base {
            base.push_rooms(rooms);
        }
        let ghost places = rooms@;
        proof {
            if self.mapped_base is None {
                lemma_adds_nothing(dictionaries);
            }
        }
        self.push_delta(rooms);
        let ghost delta = rooms@;
        push_dictionaries(rooms, &self.text_delta);
        let ghost texts = rooms@;
        push_list(rooms, &self.node_counts);
        proof {
            let a = column_needs(self.columns@);
            let b = storage_needs(self.storage@);
            let c = dictionary_list_needs(self.text_dictionaries@);
            let d = place_needs(self.mapped_base);
            let e = delta_needs(self.delta@);
            let f = dictionary_list_needs(self.text_delta@);
            lemma_adds(start, columns, storage, a, b);
            lemma_adds(start, storage, dictionaries, a + b, c);
            lemma_adds(start, dictionaries, places, a + b + c, d);
            lemma_adds(start, places, delta, a + b + c + d, e);
            let n = count_needs(self.node_counts@);
            lemma_adds(start, delta, texts, a + b + c + d + e, f);
            lemma_adds(start, texts, rooms@, a + b + c + d + e + f, n);
        }
    }

    /// What the index has allocated.
    pub fn allocations(&self) -> (rooms: Vec<Room>)
        requires
            self.sound(),
        ensures
            have_room(room_views(rooms@), index_needs(*self)),
    {
        let mut rooms: Vec<Room> = Vec::new();
        self.push_rooms(&mut rooms);
        proof {
            lemma_adds_room(rooms@, index_needs(*self));
        }
        rooms
    }

    /// Estimated bytes that the index owns: those of its allocations.
    pub fn estimated_heap_bytes(&self) -> (bytes: usize)
        requires
            self.sound(),
        ensures
            exists|have: Seq<Need>| #[trigger]
                have_room(have, index_needs(*self)) && bytes == total_of(have),
            bytes >= total_of(index_needs(*self)),
    {
        let rooms: Vec<Room> = self.allocations();
        proof {
            lemma_total_grows(room_views(rooms@), index_needs(*self));
        }
        total_bytes(&rooms)
    }
}

} // verus!
