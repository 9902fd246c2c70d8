//! Writing the persisted filter sections of an index, and how large they are.
use std::collections::HashMap;
use vstd::prelude::*;
use vstd::utf8::encode_utf8;

use crate::codec::{push_bytes, push_le, read_le, lemma_radix_values};
use crate::errors::{corrupt, internal, ErrorView, GraphResult};
use crate::filter_catalog::{
    catalog_count, catalog_names_len, FilterColumnMeta, MappedColumn, FILTER_CATALOG_HEADER_SIZE,
    FILTER_DESCRIPTOR_SIZE,
};
use crate::filter_column::{presence_len, push_value};
use crate::filter_dictionary::{
    dictionary_bytes, joined_texts, lemma_lexical_unique, lexical, offset_table, text_end,
};
use crate::filter_image::{
    catalog_of, column_dictionary, data_bytes, data_of, descriptors_of, descriptor_fields,
    dictionaries_of, names_of, packed, populated_count, presence_bytes, slot_bytes, slots_bytes,
    ColumnImage,
};
use crate::filter_index::FilterIndex;
use crate::filter_value::{encoded_value_matches, in_domain, EncodedFilterValue, FilterColumnType};
use crate::text_dictionary::{lemma_token, token_of, TextDictionary};

verus! {

/// Bytes of the first columns' names.
pub open spec fn names_size(index: FilterIndex, count: nat) -> nat
    decreases count,
{
    if count == 0 {
        0
    } else {
        names_size(index, (count - 1) as nat) + encode_utf8(
            index.registered()[count - 1].name,
        ).len()
    }
}

/// Bytes of the catalog section.
pub open spec fn catalog_size(index: FilterIndex) -> nat {
    16 + 64 * index.registered().len() + names_size(index, index.registered().len())
}

/// Bytes of the first columns' values.
pub open spec fn data_size(index: FilterIndex, nodes: nat, count: nat) -> nat
    decreases count,
{
    if count == 0 {
        0
    } else {
        data_size(index, nodes, (count - 1) as nat) + nodes
            * index.registered()[count - 1].column_type.width() + presence_len(nodes)
    }
}

/// Bytes of the texts of the first nodes, each with a table entry.
pub open spec fn text_size(index: FilterIndex, column: int, nodes: nat) -> nat
    decreases nodes,
{
    if nodes == 0 {
        0
    } else {
        text_size(index, column, (nodes - 1) as nat) + match index.value(
            column,
            (nodes - 1) as u32,
        ) {
            Some(EncodedFilterValue::Text(token)) => 8 + encode_utf8(
                index.text_at(column, token)->Some_0,
            ).len(),
            _ => 0,
        }
    }
}

/// Bytes that the first columns' dictionaries take at most.
pub open spec fn dictionary_size(index: FilterIndex, nodes: nat, count: nat) -> nat
    decreases count,
{
    if count == 0 {
        0
    } else {
        dictionary_size(index, nodes, (count - 1) as nat)
            + if index.registered()[count - 1].column_type is Text {
            8 + text_size(index, count - 1, nodes)
        } else {
            0
        }
    }
}

/// Whether a node's text token, if it has one, is interned.
pub open spec fn token_known(index: FilterIndex, column: int, node: int) -> bool {
    index.value(column, node as u32) matches Some(EncodedFilterValue::Text(token))
        ==> index.text_at(column, token) is Some
}

/// Whether every text token of a column is interned.
pub open spec fn tokens_known(index: FilterIndex, column: int, nodes: nat) -> bool {
    forall|node: int| 0 <= node < nodes ==> #[trigger] token_known(index, column, node)
}

/// Whether every text column's tokens are interned.
pub open spec fn texts_known(index: FilterIndex, nodes: nat) -> bool {
    forall|column: int|
        0 <= column < index.registered().len()
            && (#[trigger] index.registered()[column]).column_type is Text ==> tokens_known(
            index,
            column,
            nodes,
        )
}

/// Whether the three sections have lengths, at most those given.
pub open spec fn sections_bounded(index: FilterIndex, nodes: nat) -> bool {
    &&& catalog_size(index) <= usize::MAX
    &&& data_size(index, nodes, index.registered().len()) <= usize::MAX
    &&& dictionary_size(index, nodes, index.registered().len()) <= usize::MAX
    &&& texts_known(index, nodes)
}

proof fn lemma_names_grow(index: FilterIndex, small: nat, large: nat)
    requires
        small <= large,
    ensures
        names_size(index, small) <= names_size(index, large),
    decreases large,
{
    if small < large {
        lemma_names_grow(index, small, (large - 1) as nat);
    }
}

proof fn lemma_data_grow(index: FilterIndex, nodes: nat, small: nat, large: nat)
    requires
        small <= large,
    ensures
        data_size(index, nodes, small) <= data_size(index, nodes, large),
    decreases large,
{
    if small < large {
        lemma_data_grow(index, nodes, small, (large - 1) as nat);
        assert(0 <= nodes * index.registered()[large - 1].column_type.width())
            by (nonlinear_arith);
    }
}

proof fn lemma_text_grow(index: FilterIndex, column: int, small: nat, large: nat)
    requires
        small <= large,
    ensures
        text_size(index, column, small) <= text_size(index, column, large),
    decreases large,
{
    if small < large {
        lemma_text_grow(index, column, small, (large - 1) as nat);
    }
}

proof fn lemma_dictionary_grow(index: FilterIndex, nodes: nat, small: nat, large: nat)
    requires
        small <= large,
    ensures
        dictionary_size(index, nodes, small) <= dictionary_size(index, nodes, large),
    decreases large,
{
    if small < large {
        lemma_dictionary_grow(index, nodes, small, (large - 1) as nat);
    }
}

impl FilterIndex {
    /// Bytes of all column names, if they can be counted from a start.
    fn add_names(&self, start: usize) -> (total: Option<usize>)
        ensures
            match total {
                Some(total) => total == start + names_size(*self, self.registered().len()),
                None => start + names_size(*self, self.registered().len()) > usize::MAX,
            },
    {
        let mut total: usize = start;
        let count: usize = self.column_count();
        let mut at: usize = 0;
        while at < count
            invariant
                at <= count == self.registered().len(),
                total == start + names_size(*self, at as nat),
            decreases count - at,
        {
            let length: usize = self.column(at).column_name.as_str().as_bytes().len();
            total = match total.checked_add(length) {
                Some(total) => total,
                None => {
                    proof {
                        lemma_names_grow(*self, (at + 1) as nat, count as nat);
                    }
                    return None;
                },
            };
            at = at + 1;
        }
        Some(total)
    }

    /// Bytes of all columns' values, if they can be counted.
    fn add_data(&self, node_count: u32) -> (total: Option<usize>)
        ensures
            match total {
                Some(total) => total == data_size(
                    *self,
                    node_count as nat,
                    self.registered().len(),
                ),
                None => data_size(*self, node_count as nat, self.registered().len()) > usize::MAX,
            },
    {
        let presence: u64 = (node_count as u64 + 7) / 8;
        let mut total: usize = 0;
        let count: usize = self.column_count();
        let mut at: usize = 0;
        while at < count
            invariant
                at <= count == self.registered().len(),
                presence == presence_len(node_count as nat),
                presence <= 0x2000_0000,
                total == data_size(*self, node_count as nat, at as nat),
            decreases count - at,
        {
            let width: usize = self.column(at).column_type.persisted_width();
            proof {
                assert(node_count * width <= 0xffff_ffff * 16) by (nonlinear_arith)
                    requires
                        node_count <= 0xffff_ffff,
                        width <= 16,
                ;
            }
            let grown: u128 = total as u128 + (node_count as u128 * width as u128)
                + presence as u128;
            if grown > usize::MAX as u128 {
                proof {
                    lemma_data_grow(*self, node_count as nat, (at + 1) as nat, count as nat);
                }
                return None;
            }
            total = grown as usize;
            at = at + 1;
        }
        Some(total)
    }

    /// Bytes that a text column's dictionary takes at most, from a start.
    fn add_texts(&self, start: usize, column: usize, node_count: u32) -> (result: GraphResult<
        usize,
    >)
        requires
            self.sound(),
        ensures
            result is Ok <==> tokens_known(*self, column as int, node_count as nat) && start
                + text_size(*self, column as int, node_count as nat) <= usize::MAX,
            result matches Ok(total) ==> total == start + text_size(
                *self,
                column as int,
                node_count as nat,
            ),
            result matches Err(error) ==> {
                ||| error@ is CorruptFile && !tokens_known(*self, column as int, node_count as nat)
                ||| error@ == ErrorView::Internal("filter dictionaries overflowed"@) && start
                    + text_size(*self, column as int, node_count as nat) > usize::MAX
            },
    {
        let mut total: usize = start;
        let mut node: u32 = 0;
        while node < node_count
            invariant
                node <= node_count,
                self.sound(),
                total == start + text_size(*self, column as int, node as nat),
                forall|n: int| 0 <= n < node ==> #[trigger] token_known(*self, column as int, n),
            decreases node_count - node,
        {
            if let Some(EncodedFilterValue::Text(token)) = self.persistent_value(column, node) {
                match self.text_value(column, token) {
                    Some(text) => {
                        let length: usize = text.as_bytes().len();
                        let grown: u128 = total as u128 + 8 + length as u128;
                        if grown > usize::MAX as u128 {
                            proof {
                                lemma_text_grow(
                                    *self,
                                    column as int,
                                    (node + 1) as nat,
                                    node_count as nat,
                                );
                            }
                            return Err(internal("filter dictionaries overflowed"));
                        }
                        total = grown as usize;
                    },
                    None => {
                        assert(!token_known(*self, column as int, node as int));
                        return Err(corrupt("text filter column references an unknown token"));
                    },
                }
            }
            assert(token_known(*self, column as int, node as int));
            node = node + 1;
        }
        Ok(total)
    }

    /// The lengths of the catalog and value sections, and a bound on that of the
    /// dictionary section.
    pub fn v5_section_size_upper_bounds(&self, node_count: u32) -> (result: GraphResult<
        (usize, usize, usize),
    >)
        requires
            self.sound(),
        ensures
            result is Ok <==> sections_bounded(*self, node_count as nat),
            result matches Ok((catalog, data, dictionaries)) ==> {
                &&& catalog == catalog_size(*self)
                &&& data == data_size(*self, node_count as nat, self.registered().len())
                &&& dictionaries == dictionary_size(
                    *self,
                    node_count as nat,
                    self.registered().len(),
                )
            },
            result matches Err(error) ==> if catalog_size(*self) > usize::MAX {
                error@ == ErrorView::Internal("filter catalog overflowed"@)
            } else if data_size(*self, node_count as nat, self.registered().len()) > usize::MAX {
                error@ == ErrorView::Internal("filter data overflowed"@)
            } else {
                ||| error@ is CorruptFile && !texts_known(*self, node_count as nat)
                ||| error@ == ErrorView::Internal("filter dictionaries overflowed"@)
                    && dictionary_size(*self, node_count as nat, self.registered().len())
                    > usize::MAX
            },
    {
        let count: usize = self.column_count();
        let fixed: u128 = 16 + 64 * (count as u128);
        if fixed > usize::MAX as u128 {
            return Err(internal("filter catalog overflowed"));
        }
        let catalog: usize = match self.add_names(fixed as usize) {
            Some(total) => total,
            None => return Err(internal("filter catalog overflowed")),
        };
        let data: usize = match self.add_data(node_count) {
            Some(total) => total,
            None => return Err(internal("filter data overflowed")),
        };
        let mut dictionaries: usize = 0;
        let mut at: usize = 0;
        while at < count
            invariant
                at <= count == self.registered().len(),
                self.sound(),
                catalog == catalog_size(*self),
                data == data_size(*self, node_count as nat, self.registered().len()),
                dictionaries == dictionary_size(*self, node_count as nat, at as nat),
                forall|column: int|
                    0 <= column < at && (#[trigger] self.registered()[column]).column_type is Text
                        ==> tokens_known(*self, column, node_count as nat),
            decreases count - at,
        {
            if self.column(at).column_type == FilterColumnType::Text {
                proof {
                    lemma_dictionary_grow(
                        *self,
                        node_count as nat,
                        (at + 1) as nat,
                        count as nat,
                    );
                    assert(self.registered()[at as int].column_type is Text);
                }
                if dictionaries > usize::MAX - 8 {
                    return Err(internal("filter dictionaries overflowed"));
                }
                dictionaries = match self.add_texts(dictionaries + 8, at, node_count) {
                    Ok(total) => total,
                    Err(error) => return Err(error),
                };
            }
            at = at + 1;
        }
        Ok((catalog, data, dictionaries))
    }

    /// A bound on the memory that writing the sections takes.
    pub fn v5_encoding_workspace_upper_bound(&self, node_count: u32) -> (result: GraphResult<usize>)
        requires
            self.sound(),
        ensures
            result is Ok <==> sections_bounded(*self, node_count as nat) && workspace_size(
                *self,
                node_count as nat,
            ) <= usize::MAX,
            result matches Ok(bytes) ==> bytes == workspace_size(*self, node_count as nat),
            result matches Err(error) ==> sections_bounded(*self, node_count as nat) ==> error@
                == ErrorView::Internal("filter encoding workspace overflowed"@),
    {
        let (catalog, data, dictionaries) = match self.v5_section_size_upper_bounds(node_count) {
            Ok(sizes) => sizes,
            Err(error) => return Err(error),
        };
        let count: usize = self.column_count();
        let names: usize = match self.add_names(0) {
            Some(names) => names,
            None => return Err(internal("filter encoding workspace overflowed")),
        };
        let mut any_text: bool = false;
        let mut at: usize = 0;
        while at < count
            invariant
                at <= count == self.registered().len(),
                any_text == exists|i: int|
                    0 <= i < at && (#[trigger] self.registered()[i]).column_type is Text,
            decreases count - at,
        {
            if self.column(at).column_type == FilterColumnType::Text {
                assert(self.registered()[at as int].column_type is Text);
                any_text = true;
            }
            at = at + 1;
        }
        let scratch: u128 = if any_text {
            proof {
                assert(node_count * vstd::layout::size_of::<&str>() <= 0xffff_ffff
                    * vstd::layout::size_of::<&str>()) by (nonlinear_arith)
                    requires
                        node_count <= 0xffff_ffff,
                ;
            }
            let entry: usize = core::mem::size_of::<&str>();
            match (node_count as usize).checked_mul(entry) {
                Some(bytes) => bytes as u128,
                None => return Err(internal("filter encoding workspace overflowed")),
            }
        } else {
            0
        };
        let total: u128 = catalog as u128 + data as u128 + dictionaries as u128 + names as u128
            + 64 * (count as u128) + scratch;
        if total > usize::MAX as u128 {
            return Err(internal("filter encoding workspace overflowed"));
        }
        Ok(total as usize)
    }
}

/// The sections, the names and descriptors once more, and a text reference per
/// node where a column holds text.
pub open spec fn workspace_size(index: FilterIndex, nodes: nat) -> nat {
    let count = index.registered().len();
    catalog_size(index) + data_size(index, nodes, count) + dictionary_size(index, nodes, count)
        + names_size(index, count) + 64 * count + if exists|i: int|
        0 <= i < count && (#[trigger] index.registered()[i]).column_type is Text {
        nodes * vstd::layout::size_of::<&str>()
    } else {
        0
    }
}

/// A value whose text token is replaced by the text's position in a list.
pub open spec fn ranked_value(
    index: FilterIndex,
    column: int,
    texts: Seq<Seq<char>>,
    value: Option<EncodedFilterValue>,
) -> Option<EncodedFilterValue> {
    match value {
        Some(EncodedFilterValue::Text(token)) => Some(
            EncodedFilterValue::Text(
                token_of(texts, index.text_at(column, token)->Some_0)->Some_0,
            ),
        ),
        other => other,
    }
}

/// A column as it is persisted with these texts.
pub open spec fn column_image(
    index: FilterIndex,
    column: int,
    nodes: nat,
    texts: Seq<Seq<char>>,
) -> ColumnImage {
    ColumnImage {
        meta: index.registered()[column],
        values: Seq::new(
            nodes,
            |node: int| ranked_value(index, column, texts, index.value(column, node as u32)),
        ),
        texts,
    }
}

/// Whether a node has a text.
pub open spec fn has_text(index: FilterIndex, column: int, node: int, text: Seq<char>) -> bool {
    index.value(column, node as u32) matches Some(EncodedFilterValue::Text(token))
        && index.text_at(column, token) == Some(text)
}

/// Whether a text is in use among the first nodes.
pub open spec fn text_used(index: FilterIndex, column: int, nodes: nat, text: Seq<char>) -> bool {
    exists|node: int| 0 <= node < nodes && #[trigger] has_text(index, column, node, text)
}

/// Whether a list holds the texts in use, in lexical order.
pub open spec fn texts_in_use(
    index: FilterIndex,
    column: int,
    nodes: nat,
    texts: Seq<Seq<char>>,
) -> bool {
    &&& lexical(texts)
    &&& if index.registered()[column].column_type is Text {
        forall|text: Seq<char>| #[trigger]
            texts.contains(text) <==> text_used(index, column, nodes, text)
    } else {
        texts.len() == 0
    }
}

/// The texts that a column uses, in lexical order.
pub open spec fn used_text_list(index: FilterIndex, column: int, nodes: nat) -> Seq<Seq<char>> {
    choose|texts: Seq<Seq<char>>| texts_in_use(index, column, nodes, texts)
}

/// The columns as they are persisted.
pub open spec fn index_images(index: FilterIndex, nodes: nat) -> Seq<ColumnImage> {
    Seq::new(
        index.registered().len(),
        |column: int|
            column_image(index, column, nodes, used_text_list(index, column, nodes)),
    )
}

/// The list of texts in use is the only one.
pub proof fn lemma_used_texts(
    index: FilterIndex,
    column: int,
    nodes: nat,
    texts: Seq<Seq<char>>,
)
    requires
        texts_in_use(index, column, nodes, texts),
    ensures
        used_text_list(index, column, nodes) == texts,
{
    let chosen = used_text_list(index, column, nodes);
    assert(texts_in_use(index, column, nodes, chosen));
    if index.registered()[column].column_type is Text {
        assert forall|text: Seq<char>| #[trigger] chosen.contains(text) <==> texts.contains(
            text,
        ) by {}
        lemma_lexical_unique(chosen, texts);
    } else {
        assert(chosen =~= texts);
    }
}

/// Whether every value of a column is of its domain.
pub open spec fn values_in_domain(index: FilterIndex, column: int, nodes: nat) -> bool {
    forall|node: int|
        0 <= node < nodes ==> (#[trigger] index.value(column, node as u32) matches Some(value)
            ==> in_domain(index.registered()[column].column_type, value))
}

/// Whether the sections of an index can be written.
pub open spec fn encodable(index: FilterIndex, nodes: nat) -> bool {
    &&& sections_bounded(index, nodes)
    &&& index.registered().len() <= u32::MAX
    &&& forall|column: int|
        0 <= column < index.registered().len() ==> encode_utf8(
            (#[trigger] index.registered()[column]).name,
        ).len() <= u32::MAX
    &&& forall|column: int|
        0 <= column < index.registered().len() ==> #[trigger] values_in_domain(
            index,
            column,
            nodes,
        )
}

/// Whether an index is small enough for the numbers that sections hold.
pub open spec fn fits_sections(index: FilterIndex, nodes: nat) -> bool {
    &&& catalog_size(index) <= usize::MAX
    &&& data_size(index, nodes, index.registered().len()) <= usize::MAX
    &&& dictionary_size(index, nodes, index.registered().len()) <= usize::MAX
    &&& index.registered().len() <= u32::MAX
    &&& forall|column: int|
        0 <= column < index.registered().len() ==> encode_utf8(
            (#[trigger] index.registered()[column]).name,
        ).len() <= u32::MAX
}

/// Inserting a text adds its bytes to the total.
pub proof fn lemma_text_end_insert(texts: Seq<Seq<char>>, at: int, text: Seq<char>, count: nat)
    requires
        0 <= at <= texts.len(),
        count <= texts.len(),
    ensures
        count <= at ==> text_end(texts.insert(at, text), count) == text_end(texts, count),
        at <= count ==> text_end(texts.insert(at, text), (count + 1) as nat) == text_end(
            texts,
            count,
        ) + encode_utf8(text).len(),
    decreases count,
{
    let grown = texts.insert(at, text);
    if count > 0 {
        lemma_text_end_insert(texts, at, text, (count - 1) as nat);
        if count <= at {
            assert(grown[count - 1] == texts[count - 1]);
        }
    }
    if at < count {
        assert(grown[count as int] == texts[count - 1]);
        assert(text_end(grown, (count + 1) as nat) == text_end(grown, count) + encode_utf8(
            grown[count as int],
        ).len());
    }
    if at == count {
        assert(grown[count as int] == text);
        assert(text_end(grown, count) == text_end(texts, count));
        assert(text_end(grown, (count + 1) as nat) == text_end(grown, count) + encode_utf8(
            grown[count as int],
        ).len());
    }
}

impl FilterIndex {
    /// The texts that a text column uses.
    fn used_texts(&self, column: usize, node_count: u32) -> (texts: TextDictionary)
        requires
            self.sound(),
            tokens_known(*self, column as int, node_count as nat),
        ensures
            texts.wf(),
            forall|text: Seq<char>| #[trigger]
                texts@.contains(text) <==> text_used(
                    *self,
                    column as int,
                    node_count as nat,
                    text,
                ),
            texts@.len() <= node_count,
            text_end(texts.ranked(), texts.ranked().len()) + 8 * texts.ranked().len() <= text_size(
                *self,
                column as int,
                node_count as nat,
            ),
    {
        let mut texts = TextDictionary::new();
        let mut node: u32 = 0;
        proof {
            assert forall|text: Seq<char>| #[trigger] texts@.contains(text) <==> text_used(
                *self,
                column as int,
                0,
                text,
            ) by {}
        }
        while node < node_count
            invariant
                node <= node_count,
                self.sound(),
                tokens_known(*self, column as int, node_count as nat),
                texts.wf(),
                texts@.len() <= node,
                texts.ranked().len() == texts@.len(),
                forall|text: Seq<char>| #[trigger]
                    texts@.contains(text) <==> text_used(*self, column as int, node as nat, text),
                text_end(texts.ranked(), texts.ranked().len()) + 8 * texts.ranked().len()
                    <= text_size(*self, column as int, node as nat),
            decreases node_count - node,
        {
            let ghost before = texts;
            let value: Option<EncodedFilterValue> = self.persistent_value(column, node);
            assert(token_known(*self, column as int, node as int));
            if let Some(EncodedFilterValue::Text(token)) = value {
                if let Some(text) = self.text_value(column, token) {
                    let _ = texts.intern(text);
                    proof {
                        if !before@.contains(text@) {
                            let at = choose|at: int|
                                0 <= at <= before.ranked().len() && texts.ranked()
                                    == #[trigger] before.ranked().insert(at, text@);
                            lemma_text_end_insert(
                                before.ranked(),
                                at,
                                text@,
                                before.ranked().len(),
                            );
                        }
                        texts.lemma_ranked();
                        assert(has_text(*self, column as int, node as int, text@));
                        assert forall|other: Seq<char>| #[trigger] texts@.contains(other)
                            <==> (before@.contains(other) || other == text@) by {
                            if !before@.contains(text@) {
                                lemma_push_contains(before@, text@, other);
                            }
                        }
                    }
                }
            }
            proof {
                assert forall|text: Seq<char>| #[trigger] texts@.contains(text) <==> text_used(
                    *self,
                    column as int,
                    (node + 1) as nat,
                    text,
                ) by {
                    lemma_used_step(*self, column as int, node as int, text);
                }
            }
            node = node + 1;
        }
        texts
    }

    /// A node's value with the lexical rank of its text.
    fn persisted_value(&self, column: usize, node: u32, texts: &TextDictionary) -> (value: Option<
        EncodedFilterValue,
    >)
        requires
            self.sound(),
            texts.wf(),
            texts@.len() <= u32::MAX,
            token_known(*self, column as int, node as int),
            forall|text: Seq<char>|
                #![trigger texts@.contains(text)]
                has_text(*self, column as int, node as int, text) ==> texts@.contains(text),
        ensures
            value == ranked_value(
                *self,
                column as int,
                texts.ranked(),
                self.value(column as int, node),
            ),
            value matches Some(EncodedFilterValue::Text(token)) ==> token < texts@.len(),
    {
        match self.persistent_value(column, node) {
            Some(EncodedFilterValue::Text(token)) => {
                match self.text_value(column, token) {
                    Some(text) => {
                        assert(has_text(*self, column as int, node as int, text@));
                        assert(texts@.contains(text@));
                        let rank: usize = texts.rank(text);
                        proof {
                            texts.lemma_ranked();
                            lemma_token(texts.ranked(), rank as int, text@);
                        }
                        Some(EncodedFilterValue::Text(rank as u32))
                    },
                    None => None,
                }
            },
            other => other,
        }
    }

    /// Whether every value of a column is of its domain.
    fn check_domain(&self, column: usize, node_count: u32) -> (result: bool)
        requires
            self.sound(),
            column < self.registered().len(),
        ensures
            result == values_in_domain(*self, column as int, node_count as nat),
    {
        let column_type: FilterColumnType = self.column(column).column_type;
        let mut node: u32 = 0;
        while node < node_count
            invariant
                node <= node_count,
                self.sound(),
                column_type == self.registered()[column as int].column_type,
                forall|n: int|
                    0 <= n < node ==> (#[trigger] self.value(column as int, n as u32) matches Some(
                        value,
                    ) ==> in_domain(column_type, value)),
            decreases node_count - node,
        {
            if let Some(value) = self.persistent_value(column, node) {
                if !encoded_value_matches(column_type, value) {
                    assert(self.value(column as int, node as int as u32) is Some);
                    return false;
                }
            }
            node = node + 1;
        }
        true
    }
}

proof fn lemma_push_contains(texts: Seq<Seq<char>>, text: Seq<char>, other: Seq<char>)
    ensures
        texts.push(text).contains(other) <==> texts.contains(other) || other == text,
{
    let grown = texts.push(text);
    if texts.contains(other) {
        let i = choose|i: int| 0 <= i < texts.len() && texts[i] == other;
        assert(grown[i] == other);
    }
    if other == text {
        assert(grown[texts.len() as int] == other);
    }
    if grown.contains(other) {
        let i = choose|i: int| 0 <= i < grown.len() && grown[i] == other;
        if i < texts.len() {
            assert(texts[i] == other);
        }
    }
}

pub proof fn lemma_used_step(index: FilterIndex, column: int, node: int, text: Seq<char>)
    requires
        0 <= node,
    ensures
        text_used(index, column, (node + 1) as nat, text) <==> (text_used(
            index,
            column,
            node as nat,
            text,
        ) || has_text(index, column, node, text)),
{
    if text_used(index, column, (node + 1) as nat, text) {
        let n = choose|n: int| 0 <= n < node + 1 && #[trigger] has_text(index, column, n, text);
        if n < node {
            assert(has_text(index, column, n, text));
        }
    }
    if text_used(index, column, node as nat, text) {
        let n = choose|n: int| 0 <= n < node && #[trigger] has_text(index, column, n, text);
        assert(has_text(index, column, n, text));
    }
}

/// Appends a dictionary: the offset table, then the texts.
fn push_dictionary(out: &mut Vec<u8>, texts: &TextDictionary)
    requires
        texts.wf(),
        text_end(texts.ranked(), texts.ranked().len()) <= usize::MAX,
    ensures
        final(out)@ == old(out)@ + dictionary_bytes(texts.ranked()),
{
    let ghost start = out@;
    let ghost ranked = texts.ranked();
    let count: usize = texts.len();
    proof {
        texts.lemma_ranked();
        assert(start + offset_table(ranked, 0) =~= start);
    }
    push_le(out, 0, 8);
    let mut offset: u64 = 0;
    let mut rank: usize = 0;
    proof {
        assert(offset_table(ranked, 1) =~= crate::codec::le_bytes(0, 8)) by {
            assert(offset_table(ranked, 0) =~= Seq::<u8>::empty());
        }
    }
    while rank < count
        invariant
            rank <= count == ranked.len() == texts@.len(),
            texts.wf(),
            ranked == texts.ranked(),
            text_end(ranked, ranked.len()) <= usize::MAX,
            offset == text_end(ranked, rank as nat),
            out@ == start + offset_table(ranked, (rank + 1) as nat),
        decreases count - rank,
    {
        proof {
            crate::filter_dictionary::lemma_joined(ranked, ranked.len(), rank + 1);
        }
        let length: usize = texts.nth(rank).as_bytes().len();
        offset = offset + length as u64;
        push_le(out, offset as u128, 8);
        rank = rank + 1;
        proof {
            assert(out@ =~= start + offset_table(ranked, (rank + 1) as nat));
        }
    }
    let ghost table = out@;
    let mut rank: usize = 0;
    proof {
        assert(table + joined_texts(ranked, 0) =~= table);
    }
    while rank < count
        invariant
            rank <= count == ranked.len() == texts@.len(),
            texts.wf(),
            ranked == texts.ranked(),
            out@ == table + joined_texts(ranked, rank as nat),
        decreases count - rank,
    {
        push_bytes(out, texts.nth(rank).as_bytes());
        rank = rank + 1;
        proof {
            assert(out@ =~= table + joined_texts(ranked, rank as nat));
        }
    }
    proof {
        assert(out@ =~= start + dictionary_bytes(ranked));
    }
}

impl FilterIndex {
    /// Appends the presence bits of a column, and counts the values.
    fn push_presence(
        &self,
        out: &mut Vec<u8>,
        column: usize,
        node_count: u32,
        texts: &TextDictionary,
    ) -> (populated: u32)
        requires
            self.sound(),
        ensures
            ({
                let image = column_image(
                    *self,
                    column as int,
                    node_count as nat,
                    texts.ranked(),
                );
                &&& final(out)@ == old(out)@ + presence_bytes(image.values)
                &&& populated == populated_count(image.values, node_count as nat)
            }),
    {
        let ghost start = out@;
        let ghost values = column_image(
            *self,
            column as int,
            node_count as nat,
            texts.ranked(),
        ).values;
        let length: u64 = (node_count as u64 + 7) / 8;
        let mut populated: u32 = 0;
        let mut byte: u64 = 0;
        proof {
            assert(start + presence_bytes(values).take(0) =~= start);
        }
        while byte < length
            invariant
                byte <= length == presence_len(node_count as nat),
                self.sound(),
                values == column_image(
                    *self,
                    column as int,
                    node_count as nat,
                    texts.ranked(),
                ).values,
                values.len() == node_count,
                out@ == start + presence_bytes(values).take(byte as int),
                populated == populated_count(
                    values,
                    if 8 * byte < node_count {
                        (8 * byte) as nat
                    } else {
                        node_count as nat
                    },
                ),
                populated <= 8 * byte,
                populated <= node_count,
            decreases length - byte,
        {
            let mut bits: u8 = 0;
            let mut bit: u8 = 0;
            while bit < 8
                invariant
                    bit <= 8,
                    byte < length == presence_len(node_count as nat),
                    self.sound(),
                    values == column_image(
                        *self,
                        column as int,
                        node_count as nat,
                        texts.ranked(),
                    ).values,
                    values.len() == node_count,
                    bits == packed(values, 8 * byte as int, bit as nat),
                    populated == populated_count(
                        values,
                        if 8 * byte + bit < node_count {
                            (8 * byte + bit) as nat
                        } else {
                            node_count as nat
                        },
                    ),
                    populated <= 8 * byte + bit,
                    populated <= node_count,
                decreases 8 - bit,
            {
                let node: u64 = 8 * byte + bit as u64;
                if node < node_count as u64 {
                    let value: Option<EncodedFilterValue> = self.persistent_value(
                        column,
                        node as u32,
                    );
                    assert(values[node as int] == ranked_value(
                        *self,
                        column as int,
                        texts.ranked(),
                        self.value(column as int, node as u32),
                    ));
                    proof {
                        lemma_populated_bound(values, (node + 1) as nat);
                    }
                    if value.is_some() {
                        bits = bits | (1u8 << bit);
                        populated = populated + 1;
                    } else {
                        proof {
                            assert(bits | 0u8 == bits) by (bit_vector);
                        }
                    }
                } else {
                    proof {
                        assert(bits | 0u8 == bits) by (bit_vector);
                    }
                }
                bit = bit + 1;
            }
            out.push(bits);
            proof {
                let grown = presence_bytes(values).take(byte + 1);
                assert(grown =~= presence_bytes(values).take(byte as int).push(bits));
                assert(out@ =~= start + grown);
            }
            byte = byte + 1;
        }
        proof {
            assert(presence_bytes(values).take(length as int) =~= presence_bytes(values));
            assert(8 * length >= node_count);
        }
        populated
    }

    /// Appends one slot per node.
    fn push_slots(
        &self,
        out: &mut Vec<u8>,
        column: usize,
        node_count: u32,
        texts: &TextDictionary,
    )
        requires
            self.sound(),
            column < self.registered().len(),
            texts.wf(),
            texts@.len() <= u32::MAX,
            tokens_known(*self, column as int, node_count as nat),
            forall|text: Seq<char>|
                text_used(*self, column as int, node_count as nat, text) ==> #[trigger]
                    texts@.contains(text),
        ensures
            ({
                let image = column_image(
                    *self,
                    column as int,
                    node_count as nat,
                    texts.ranked(),
                );
                final(out)@ == old(out)@ + slots_bytes(
                    image.meta.column_type,
                    image.values,
                    node_count as nat,
                )
            }),
    {
        let ghost start = out@;
        let ghost image = column_image(
            *self,
            column as int,
            node_count as nat,
            texts.ranked(),
        );
        let column_type: FilterColumnType = self.column(column).column_type;
        let width: usize = column_type.persisted_width();
        let mut node: u32 = 0;
        proof {
            assert(start + slots_bytes(column_type, image.values, 0) =~= start);
        }
        while node < node_count
            invariant
                node <= node_count,
                self.sound(),
                column < self.registered().len(),
                column_type == self.registered()[column as int].column_type,
                width == column_type.width(),
                texts.wf(),
                texts@.len() <= u32::MAX,
                tokens_known(*self, column as int, node_count as nat),
                forall|text: Seq<char>|
                    text_used(*self, column as int, node_count as nat, text) ==> #[trigger]
                        texts@.contains(text),
                image == column_image(
                    *self,
                    column as int,
                    node_count as nat,
                    texts.ranked(),
                ),
                out@ == start + slots_bytes(column_type, image.values, node as nat),
            decreases node_count - node,
        {
            proof {
                assert(token_known(*self, column as int, node as int));
                assert forall|text: Seq<char>|
                    #![trigger texts@.contains(text)]
                    has_text(*self, column as int, node as int, text) implies texts@.contains(
                    text,
                ) by {
                    assert(text_used(*self, column as int, node_count as nat, text));
                }
            }
            let value: Option<EncodedFilterValue> = self.persisted_value(column, node, texts);
            assert(image.values[node as int] == value);
            match value {
                Some(value) => push_value(out, value),
                None => {
                    let ghost before = out@;
                    let mut filled: usize = 0;
                    proof {
                        assert(before + Seq::new(0nat, |i: int| 0u8) =~= before);
                    }
                    while filled < width
                        invariant
                            filled <= width,
                            out@ == before + Seq::new(filled as nat, |i: int| 0u8),
                        decreases width - filled,
                    {
                        out.push(0);
                        filled = filled + 1;
                        proof {
                            assert(out@ =~= before + Seq::new(filled as nat, |i: int| 0u8));
                        }
                    }
                    assert(out@ =~= before + slot_bytes(column_type, value));
                },
            }
            node = node + 1;
            proof {
                assert(out@ =~= start + slots_bytes(column_type, image.values, node as nat));
            }
        }
    }
}

proof fn lemma_populated_bound(values: Seq<Option<EncodedFilterValue>>, count: nat)
    ensures
        populated_count(values, count) <= count,
    decreases count,
{
    if count > 0 {
        lemma_populated_bound(values, (count - 1) as nat);
    }
}

/// Appends a descriptor.
pub(crate) fn push_descriptor(
    out: &mut Vec<u8>,
    table_oid: u32,
    column_type: FilterColumnType,
    name_start: usize,
    name_length: usize,
    rows: u32,
    data_start: usize,
    data_length: usize,
    dictionary_start: usize,
    dictionary_length: usize,
    texts: usize,
)
    ensures
        final(out)@ == old(out)@ + descriptor_fields(
            table_oid as nat,
            column_type,
            name_start as nat,
            name_length as nat,
            rows as nat,
            data_start as nat,
            data_length as nat,
            dictionary_start as nat,
            dictionary_length as nat,
            texts as nat,
        ),
{
    let ghost before = out@;
    push_le(out, table_oid as u128, 4);
    out.push(column_type.persisted_tag());
    out.push(0);
    out.push(column_type.persisted_width() as u8);
    out.push(0);
    push_le(out, name_start as u128, 8);
    push_le(out, name_length as u128, 4);
    push_le(out, rows as u128, 4);
    push_le(out, data_start as u128, 8);
    push_le(out, data_length as u128, 8);
    push_le(out, dictionary_start as u128, 8);
    push_le(out, dictionary_length as u128, 8);
    push_le(out, texts as u128, 4);
    out.push(0);
    out.push(0);
    out.push(0);
    out.push(0);
    proof {
        assert(out@ =~= before + descriptor_fields(
            table_oid as nat,
            column_type,
            name_start as nat,
            name_length as nat,
            rows as nat,
            data_start as nat,
            data_length as nat,
            dictionary_start as nat,
            dictionary_length as nat,
            texts as nat,
        ));
    }
}

/// The sections while they are written.
struct SectionWriter {
    names: Vec<u8>,
    data: Vec<u8>,
    dictionaries: Vec<u8>,
    descriptors: Vec<u8>,
}

impl SectionWriter {
    /// The sections hold the first columns.
    spec fn holds(&self, images: Seq<ColumnImage>, count: nat) -> bool {
        &&& self.names@ == names_of(images, count)
        &&& self.data@ == data_of(images, count)
        &&& self.dictionaries@ == dictionaries_of(images, count)
        &&& self.descriptors@ == descriptors_of(images, count)
    }
}

/// A column without text uses no text.
proof fn lemma_no_text(index: FilterIndex, column: int, nodes: nat)
    requires
        !(index.registered()[column].column_type is Text),
        values_in_domain(index, column, nodes),
    ensures
        tokens_known(index, column, nodes),
        forall|text: Seq<char>| !#[trigger] text_used(index, column, nodes, text),
{
    assert forall|node: int| 0 <= node < nodes implies #[trigger] token_known(
        index,
        column,
        node,
    ) by {
        assert(index.value(column, node as u32) matches Some(value) ==> in_domain(
            index.registered()[column].column_type,
            value,
        ));
    }
    assert forall|text: Seq<char>| !#[trigger] text_used(index, column, nodes, text) by {
        if text_used(index, column, nodes, text) {
            let node = choose|node: int|
                0 <= node < nodes && #[trigger] has_text(index, column, node, text);
            assert(index.value(column, node as u32) matches Some(value) ==> in_domain(
                index.registered()[column].column_type,
                value,
            ));
        }
    }
}

impl FilterIndex {
    /// The texts that a column uses, in lexical order.
    fn column_texts(&self, column: usize, node_count: u32) -> (texts: TextDictionary)
        requires
            self.sound(),
            column < self.registered().len(),
            sections_bounded(*self, node_count as nat),
            values_in_domain(*self, column as int, node_count as nat),
        ensures
            texts.wf(),
            texts@.len() == texts.ranked().len() <= u32::MAX,
            texts.ranked() == used_text_list(*self, column as int, node_count as nat),
            text_end(texts.ranked(), texts.ranked().len()) <= usize::MAX,
            tokens_known(*self, column as int, node_count as nat),
            forall|text: Seq<char>|
                text_used(*self, column as int, node_count as nat, text) ==> #[trigger]
                    texts@.contains(text),
    {
        let texts: TextDictionary = if self.column(column).column_type == FilterColumnType::Text {
            assert(self.registered()[column as int].column_type is Text);
            proof {
                lemma_dictionary_grow(
                    *self,
                    node_count as nat,
                    (column + 1) as nat,
                    self.registered().len(),
                );
            }
            self.used_texts(column, node_count)
        } else {
            proof {
                lemma_no_text(*self, column as int, node_count as nat);
            }
            TextDictionary::new()
        };
        proof {
            texts.lemma_ranked();
            assert(texts_in_use(*self, column as int, node_count as nat, texts.ranked()));
            lemma_used_texts(*self, column as int, node_count as nat, texts.ranked());
        }
        texts
    }

    /// Writes one column.
    #[verifier::rlimit(40)]
    fn write_column(&self, writer: &mut SectionWriter, column: usize, node_count: u32)
        requires
            self.sound(),
            column < self.registered().len(),
            sections_bounded(*self, node_count as nat),
            values_in_domain(*self, column as int, node_count as nat),
            old(writer).holds(index_images(*self, node_count as nat), column as nat),
        ensures
            final(writer).holds(index_images(*self, node_count as nat), (column + 1) as nat),
    {
        let ghost images = index_images(*self, node_count as nat);
        proof {
            crate::filter_image::lemma_name_part(images, column as nat, column as int);
            crate::filter_image::lemma_data_part(images, column as nat, column as int);
            crate::filter_image::lemma_dictionary_part(images, column as nat, column as int);
        }
        let meta: &FilterColumnMeta = self.column(column);
        let texts: TextDictionary = self.column_texts(column, node_count);
        let ghost image = images[column as int];
        assert(image == column_image(*self, column as int, node_count as nat, texts.ranked()));
        let name: &[u8] = meta.column_name.as_str().as_bytes();
        let name_start: usize = writer.names.len();
        push_bytes(&mut writer.names, name);
        let dictionary_start: usize = writer.dictionaries.len();
        let ghost dictionaries = writer.dictionaries@;
        if meta.column_type == FilterColumnType::Text {
            push_dictionary(&mut writer.dictionaries, &texts);
        }
        proof {
            assert(writer.dictionaries@ =~= dictionaries + column_dictionary(image));
        }
        let dictionary_length: usize = writer.dictionaries.len() - dictionary_start;
        let data_start: usize = writer.data.len();
        let ghost data = writer.data@;
        let rows: u32 = self.push_presence(&mut writer.data, column, node_count, &texts);
        self.push_slots(&mut writer.data, column, node_count, &texts);
        proof {
            assert(writer.data@ =~= data + data_bytes(image));
        }
        let data_length: usize = writer.data.len() - data_start;
        push_descriptor(
            &mut writer.descriptors,
            meta.table_oid,
            meta.column_type,
            name_start,
            name.len(),
            rows,
            data_start,
            data_length,
            dictionary_start,
            dictionary_length,
            texts.len(),
        );
    }

    /// Writes the catalog, value and dictionary sections. Values are dense, and
    /// dictionaries hold the texts in use in lexical order.
    pub fn encode_v5_sections(&self, node_count: u32) -> (result: GraphResult<
        (Vec<u8>, Vec<u8>, Vec<u8>),
    >)
        requires
            self.sound(),
        ensures
            result is Ok <==> encodable(*self, node_count as nat),
            result matches Ok((catalog, data, dictionaries)) ==> {
                let images = index_images(*self, node_count as nat);
                &&& catalog@ == catalog_of(images)
                &&& data@ == data_of(images, images.len())
                &&& dictionaries@ == dictionaries_of(images, images.len())
            },
            result matches Err(error) ==> {
                ||| error@ is CorruptFile && (!texts_known(*self, node_count as nat) || exists|
                    column: int,
                |
                    0 <= column < self.registered().len() && !#[trigger] values_in_domain(
                        *self,
                        column,
                        node_count as nat,
                    ))
                ||| error@ is Internal && !fits_sections(*self, node_count as nat)
            },
    {
        if let Err(error) = self.v5_section_size_upper_bounds(node_count) {
            return Err(error);
        }
        let count: usize = self.column_count();
        if count > u32::MAX as usize {
            return Err(internal("filter catalog exceeds u32 columns"));
        }
        let ghost images = index_images(*self, node_count as nat);
        let mut writer = SectionWriter {
            names: Vec::new(),
            data: Vec::new(),
            dictionaries: Vec::new(),
            descriptors: Vec::new(),
        };
        let mut column: usize = 0;
        while column < count
            invariant
                column <= count == self.registered().len() == images.len(),
                self.sound(),
                images == index_images(*self, node_count as nat),
                sections_bounded(*self, node_count as nat),
                writer.holds(images, column as nat),
                forall|c: int|
                    0 <= c < column ==> encode_utf8((#[trigger] self.registered()[c]).name).len()
                        <= u32::MAX,
                forall|c: int|
                    0 <= c < column ==> #[trigger] values_in_domain(
                        *self,
                        c,
                        node_count as nat,
                    ),
            decreases count - column,
        {
            if self.column(column).column_name.as_str().as_bytes().len() > u32::MAX as usize {
                assert(encode_utf8(self.registered()[column as int].name).len() > u32::MAX);
                return Err(internal("filter column name exceeds u32"));
            }
            if !self.check_domain(column, node_count) {
                assert(!values_in_domain(*self, column as int, node_count as nat));
                return Err(corrupt("filter column contains a value from another domain"));
            }
            self.write_column(&mut writer, column, node_count);
            column = column + 1;
        }
        proof {
            crate::filter_image::lemma_name_part(images, count as nat, count as int);
        }
        let mut catalog: Vec<u8> = Vec::new();
        push_le(&mut catalog, count as u128, 4);
        push_le(&mut catalog, FILTER_DESCRIPTOR_SIZE as u128, 4);
        push_le(&mut catalog, writer.names.len() as u128, 8);
        push_bytes(&mut catalog, writer.descriptors.as_slice());
        push_bytes(&mut catalog, writer.names.as_slice());
        proof {
            assert(catalog@ =~= catalog_of(images));
        }
        Ok((catalog, writer.data, writer.dictionaries))
    }
}

/// Bytes that each column of a loaded catalog takes at most, before doubling:
/// what is kept, and an entry of the uniqueness check.
pub open spec fn column_load_size() -> nat {
    vstd::layout::size_of::<FilterColumnMeta>() + vstd::layout::size_of::<MappedColumn>()
        + vstd::layout::size_of::<TextDictionary>() + vstd::layout::size_of::<
        HashMap<u32, Option<EncodedFilterValue>>,
    >() + vstd::layout::size_of::<TextDictionary>() + vstd::layout::size_of::<(u32, &str)>() + 18
}

/// Bytes that loading a catalog takes at most.
pub open spec fn load_bound(columns: nat, names: nat) -> nat {
    2 * column_load_size() * columns + 2 * names + 256
}

impl FilterIndex {
    /// A bound on what loading a catalog allocates, known from its header.
    pub fn mapped_load_metadata_upper_bound(catalog: &[u8]) -> (result: GraphResult<usize>)
        ensures
            result is Ok <==> catalog@.len() >= 16 && catalog_names_len(catalog@) <= usize::MAX
                && load_bound(catalog_count(catalog@), catalog_names_len(catalog@)) <= usize::MAX,
            result matches Ok(bytes) ==> bytes == load_bound(
                catalog_count(catalog@),
                catalog_names_len(catalog@),
            ),
            result matches Err(error) ==> if catalog@.len() < 16 {
                error@ == ErrorView::CorruptFile("filter catalog header is truncated"@)
            } else if catalog_names_len(catalog@) > usize::MAX {
                error@ == ErrorView::CorruptFile("filter catalog names exceed usize"@)
            } else {
                error@ == ErrorView::Internal("filter metadata size overflowed"@)
            },
    {
        if catalog.len() < FILTER_CATALOG_HEADER_SIZE {
            return Err(corrupt("filter catalog header is truncated"));
        }
        proof {
            lemma_radix_values();
        }
        let columns: u128 = read_le(catalog, 0, 4);
        let names: u128 = read_le(catalog, 8, 8);
        if names > usize::MAX as u128 {
            return Err(corrupt("filter catalog names exceed usize"));
        }
        let each: u128 = core::mem::size_of::<FilterColumnMeta>() as u128
            + core::mem::size_of::<MappedColumn>() as u128
            + core::mem::size_of::<TextDictionary>() as u128
            + core::mem::size_of::<HashMap<u32, Option<EncodedFilterValue>>>() as u128
            + core::mem::size_of::<TextDictionary>() as u128
            + core::mem::size_of::<(u32, &str)>() as u128 + 18;
        proof {
            assert(2 * each * columns <= 2 * 0x7_0000_0000_0000_0000 * 0xffff_ffff)
                by (nonlinear_arith)
                requires
                    0 <= each <= 0x7_0000_0000_0000_0000,
                    0 <= columns <= 0xffff_ffff,
            ;
        }
        let total: u128 = 2 * each * columns + 2 * names + 256;
        if total > usize::MAX as u128 {
            return Err(internal("filter metadata size overflowed"));
        }
        Ok(total as usize)
    }
}

} // verus!
