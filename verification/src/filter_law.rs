//! Reading the written sections of an index gives the index's columns back.
use core::ops::Range;
use vstd::prelude::*;
use vstd::utf8::encode_utf8;

use crate::codec::{lemma_le_len, lemma_lex_total, lemma_lex_transitive, lex_less};
use crate::filter_catalog::{
    catalog_count, column_meta, column_place, column_valid, in_region, place_texts, place_value,
    sections_valid,
};
use crate::filter_column::presence_len;
use crate::filter_dictionary::{dictionary_bytes, lexical, text_end};
use crate::filter_encode::{
    catalog_size, data_size, dictionary_size, encodable, has_text, index_images,
    lemma_text_end_insert, lemma_used_step, lemma_used_texts, names_size, ranked_value, text_size,
    text_used, texts_in_use, token_known, tokens_known, values_in_domain,
};
use crate::filter_image::{
    catalog_of, data_bytes, data_end, data_of, dictionaries_end, dictionaries_of, image_valid,
    images_fit, law_sections_read_back, lemma_descriptors_len, lemma_name_part, lemma_slots_len,
    names_end,
};
use crate::filter_index::{reads_artifact, FilterIndex};
use crate::filter_value::{in_domain, EncodedFilterValue};
use crate::text::lemma_utf8_injective;

verus! {

/// Where a new text stands in a lexical list.
proof fn lemma_place(texts: Seq<Seq<char>>, text: Seq<char>) -> (at: int)
    requires
        lexical(texts),
        !texts.contains(text),
    ensures
        0 <= at <= texts.len(),
        forall|i: int| 0 <= i < at ==> lex_less(encode_utf8(#[trigger] texts[i]), encode_utf8(text)),
        forall|i: int|
            at <= i < texts.len() ==> lex_less(
                encode_utf8(text),
                encode_utf8(#[trigger] texts[i]),
            ),
    decreases texts.len(),
{
    if texts.len() == 0 {
        0
    } else {
        let last = texts.last();
        assert(texts.contains(last));
        lemma_lex_total(encode_utf8(last), encode_utf8(text));
        lemma_utf8_injective(last, text);
        if lex_less(encode_utf8(last), encode_utf8(text)) {
            assert forall|i: int| 0 <= i < texts.len() implies lex_less(
                encode_utf8(#[trigger] texts[i]),
                encode_utf8(text),
            ) by {
                if i < texts.len() - 1 {
                    assert(lex_less(encode_utf8(texts[i]), encode_utf8(texts[texts.len() - 1])));
                    lemma_lex_transitive(
                        encode_utf8(texts[i]),
                        encode_utf8(last),
                        encode_utf8(text),
                    );
                }
            }
            texts.len() as int
        } else {
            let rest = texts.drop_last();
            assert forall|i: int, j: int| 0 <= i < j < rest.len() implies lex_less(
                encode_utf8(#[trigger] rest[i]),
                encode_utf8(#[trigger] rest[j]),
            ) by {
                assert(lex_less(encode_utf8(texts[i]), encode_utf8(texts[j])));
            }
            if rest.contains(text) {
                let i = choose|i: int| 0 <= i < rest.len() && rest[i] == text;
                assert(texts[i] == text);
            }
            let at = lemma_place(rest, text);
            assert forall|i: int| 0 <= i < at implies lex_less(
                encode_utf8(#[trigger] texts[i]),
                encode_utf8(text),
            ) by {
                assert(rest[i] == texts[i]);
            }
            assert forall|i: int| at <= i < texts.len() implies lex_less(
                encode_utf8(text),
                encode_utf8(#[trigger] texts[i]),
            ) by {
                if i < texts.len() - 1 {
                    assert(rest[i] == texts[i]);
                }
            }
            at
        }
    }
}

/// The texts in use form a list: no longer than the nodes, nor larger than what
/// is counted for them.
proof fn lemma_text_list(index: FilterIndex, column: int, nodes: nat) -> (texts: Seq<Seq<char>>)
    requires
        tokens_known(index, column, nodes),
    ensures
        lexical(texts),
        forall|text: Seq<char>| #[trigger]
            texts.contains(text) <==> text_used(index, column, nodes, text),
        texts.len() <= nodes,
        text_end(texts, texts.len()) + 8 * texts.len() <= text_size(index, column, nodes),
    decreases nodes,
{
    if nodes == 0 {
        let texts = Seq::<Seq<char>>::empty();
        assert forall|text: Seq<char>| #[trigger] texts.contains(text) <==> text_used(
            index,
            column,
            0,
            text,
        ) by {}
        texts
    } else {
        let node = nodes - 1;
        assert(tokens_known(index, column, node as nat)) by {
            assert forall|n: int| 0 <= n < node implies #[trigger] token_known(
                index,
                column,
                n,
            ) by {}
        }
        let texts = lemma_text_list(index, column, node as nat);
        assert(token_known(index, column, node));
        let grown = match index.value(column, node as u32) {
            Some(EncodedFilterValue::Text(token)) => {
                let text = index.text_at(column, token)->Some_0;
                assert(has_text(index, column, node, text));
                if texts.contains(text) {
                    texts
                } else {
                    let at = lemma_place(texts, text);
                    let grown = texts.insert(at, text);
                    lemma_text_end_insert(texts, at, text, texts.len());
                    assert forall|i: int, j: int| 0 <= i < j < grown.len() implies lex_less(
                        encode_utf8(#[trigger] grown[i]),
                        encode_utf8(#[trigger] grown[j]),
                    ) by {
                        let i0 = if i < at { i } else { i - 1 };
                        let j0 = if j < at { j } else { j - 1 };
                        if i == at {
                            assert(grown[j] == texts[j0]);
                        } else if j == at {
                            assert(grown[i] == texts[i0]);
                        } else {
                            assert(grown[i] == texts[i0] && grown[j] == texts[j0]);
                            assert(lex_less(encode_utf8(texts[i0]), encode_utf8(texts[j0])));
                        }
                    }
                    assert forall|other: Seq<char>| #[trigger] grown.contains(other) <==> (
                    texts.contains(other) || other == text) by {
                        if grown.contains(other) {
                            let i = choose|i: int| 0 <= i < grown.len() && grown[i] == other;
                            if i != at {
                                let i0 = if i < at { i } else { i - 1 };
                                assert(texts[i0] == other);
                            }
                        }
                        if texts.contains(other) {
                            let i = choose|i: int| 0 <= i < texts.len() && texts[i] == other;
                            let i1 = if i < at { i } else { i + 1 };
                            assert(grown[i1] == other);
                        }
                        if other == text {
                            assert(grown[at] == other);
                        }
                    }
                    grown
                }
            },
            _ => texts,
        };
        assert forall|text: Seq<char>| #[trigger] grown.contains(text) <==> text_used(
            index,
            column,
            nodes,
            text,
        ) by {
            lemma_used_step(index, column, node, text);
            assert(texts.contains(text) <==> text_used(index, column, node as nat, text));
        }
        grown
    }
}

/// The persisted form of a column is valid, and its dictionary no larger than
/// what is counted for it.
proof fn lemma_image(index: FilterIndex, column: int, nodes: nat)
    requires
        encodable(index, nodes),
        nodes <= u32::MAX,
        0 <= column < index.registered().len(),
    ensures
        image_valid(index_images(index, nodes)[column], nodes),
        index.registered()[column].column_type is Text ==> {
            let texts = index_images(index, nodes)[column].texts;
            &&& text_end(texts, texts.len()) + 8 * texts.len() <= text_size(index, column, nodes)
            &&& tokens_known(index, column, nodes)
            &&& forall|text: Seq<char>| #[trigger]
                texts.contains(text) <==> text_used(index, column, nodes, text)
        },
{
    let image = index_images(index, nodes)[column];
    let meta = index.registered()[column];
    assert(values_in_domain(index, column, nodes));
    assert(encode_utf8(meta.name).len() <= u32::MAX);
    if meta.column_type is Text {
        assert(tokens_known(index, column, nodes));
        let texts = lemma_text_list(index, column, nodes);
        assert(texts_in_use(index, column, nodes, texts));
        lemma_used_texts(index, column, nodes, texts);
        assert(image.texts == texts);
    } else {
        let texts = Seq::<Seq<char>>::empty();
        assert(texts_in_use(index, column, nodes, texts));
        lemma_used_texts(index, column, nodes, texts);
    }
    assert forall|node: int| 0 <= node < nodes implies (#[trigger] image.values[node] matches Some(
        value,
    ) ==> {
        &&& in_domain(meta.column_type, value)
        &&& value matches EncodedFilterValue::Text(token) ==> token < image.texts.len()
    }) by {
        let stored = index.value(column, node as u32);
        assert(stored matches Some(value) ==> in_domain(meta.column_type, value));
        if let Some(EncodedFilterValue::Text(token)) = stored {
            assert(token_known(index, column, node));
            let text = index.text_at(column, token)->Some_0;
            assert(has_text(index, column, node, text));
            assert(text_used(index, column, nodes, text));
            assert(image.texts.contains(text));
            let i = choose|i: int| 0 <= i < image.texts.len() && image.texts[i] == text;
            assert(0 <= i <= u32::MAX && image.texts[i] == text);
        }
    }
}

proof fn lemma_sizes(index: FilterIndex, nodes: nat, count: nat)
    requires
        encodable(index, nodes),
        nodes <= u32::MAX,
        count <= index.registered().len(),
    ensures
        names_end(index_images(index, nodes), count) == names_size(index, count),
        data_end(index_images(index, nodes), count) == data_size(index, nodes, count),
        dictionaries_end(index_images(index, nodes), count) <= dictionary_size(
            index,
            nodes,
            count,
        ),
    decreases count,
{
    let images = index_images(index, nodes);
    if count > 0 {
        let column = count - 1;
        lemma_sizes(index, nodes, column as nat);
        lemma_image(index, column, nodes);
        let image = images[column];
        lemma_slots_len(image.meta.column_type, image.values, nodes);
        assert(data_bytes(image).len() == presence_len(nodes) + nodes
            * image.meta.column_type.width());
        if image.meta.column_type is Text {
            let texts = image.texts;
            crate::filter_dictionary::lemma_joined(texts, texts.len(), texts.len() as int);
            crate::filter_dictionary::lemma_table_len(texts, texts.len() + 1);
            assert(dictionary_bytes(texts).len() == 8 * (texts.len() + 1) + text_end(
                texts,
                texts.len(),
            ));
        }
    }
}

/// Whether no two registered columns have the same table and name.
pub open spec fn columns_differ(index: FilterIndex) -> bool {
    forall|i: int, j: int|
        0 <= i < j < index.registered().len() ==> {
            let left = #[trigger] index.registered()[i];
            let right = #[trigger] index.registered()[j];
            left.table_oid != right.table_oid || left.name != right.name
        }
}

/// Whether two values mean the same: equal, or tokens of the same text.
pub open spec fn same_meaning(
    index: FilterIndex,
    column: int,
    value: Option<EncodedFilterValue>,
    read: Option<EncodedFilterValue>,
    read_texts: Seq<Seq<char>>,
) -> bool {
    match value {
        Some(EncodedFilterValue::Text(token)) => read matches Some(
            EncodedFilterValue::Text(found),
        ) && found < read_texts.len() && index.text_at(column, token) == Some(
            read_texts[found as int],
        ),
        other => read == other,
    }
}

/// Reading the sections that an index writes gives back its columns, and every
/// node's value with the same meaning.
pub proof fn law_written_index_reads_back(index: FilterIndex, nodes: nat)
    requires
        encodable(index, nodes),
        nodes <= u32::MAX,
        columns_differ(index),
    ensures
        ({
            let images = index_images(index, nodes);
            let catalog = catalog_of(images);
            let data = data_of(images, images.len());
            let dictionaries = dictionaries_of(images, images.len());
            &&& sections_valid(catalog, data, dictionaries, nodes)
            &&& catalog_count(catalog) == index.registered().len()
            &&& forall|column: int|
                0 <= column < index.registered().len() ==> column_meta(catalog, column)
                    == #[trigger] index.registered()[column]
            &&& forall|column: int, node: int|
                0 <= column < index.registered().len() && 0 <= node < nodes ==> {
                    let place = column_place(catalog, column, 0, 0);
                    same_meaning(
                        index,
                        column,
                        #[trigger] index.value(column, node as u32),
                        place_value(data, place, nodes, node),
                        place_texts(dictionaries, place),
                    )
                }
        }),
{
    let images = index_images(index, nodes);
    let count = index.registered().len();
    let catalog = catalog_of(images);
    lemma_sizes(index, nodes, count);
    assert forall|i: int| 0 <= i < images.len() implies image_valid(
        #[trigger] images[i],
        nodes,
    ) by {
        lemma_image(index, i, nodes);
    }
    assert forall|i: int, j: int| 0 <= i < j < images.len() implies {
        let left = (#[trigger] images[i]).meta;
        let right = (#[trigger] images[j]).meta;
        left.table_oid != right.table_oid || left.name != right.name
    } by {
        assert(index.registered()[i].table_oid != index.registered()[j].table_oid
            || index.registered()[i].name != index.registered()[j].name);
    }
    assert(catalog.len() == catalog_size(index)) by {
        lemma_le_len(images.len(), 4);
        lemma_le_len(64, 4);
        lemma_le_len(names_end(images, images.len()), 8);
        lemma_descriptors_len(images, images.len());
        lemma_name_part(images, images.len(), images.len() as int);
    }
    assert(images_fit(images));
    law_sections_read_back(images, nodes);
    assert forall|column: int| 0 <= column < count implies column_meta(catalog, column)
        == #[trigger] index.registered()[column] by {
        assert(images[column].meta == index.registered()[column]);
    }
    assert forall|column: int, node: int| 0 <= column < count && 0 <= node < nodes implies {
        let place = column_place(catalog, column, 0, 0);
        same_meaning(
            index,
            column,
            #[trigger] index.value(column, node as u32),
            place_value(data_of(images, images.len()), place, nodes, node),
            place_texts(dictionaries_of(images, images.len()), place),
        )
    } by {
        let place = column_place(catalog, column, 0, 0);
        let image = images[column];
        let value = index.value(column, node as u32);
        assert(place_value(data_of(images, images.len()), place, nodes, node)
            == image.values[node]);
        assert(image.values[node] == ranked_value(index, column, image.texts, value));
        lemma_image(index, column, nodes);
        assert(values_in_domain(index, column, nodes));
        if let Some(EncodedFilterValue::Text(token)) = value {
            assert(column_meta(catalog, column) == image.meta);
            assert(in_domain(image.meta.column_type, EncodedFilterValue::Text(token)));
            assert(token_known(index, column, node));
            let text = index.text_at(column, token)->Some_0;
            assert(has_text(index, column, node, text));
            assert(text_used(index, column, nodes, text));
            assert(image.texts.contains(text));
            let i = choose|i: int| 0 <= i < image.texts.len() && image.texts[i] == text;
            assert(0 <= i <= u32::MAX && image.texts[i] == text);
            assert(place_texts(dictionaries_of(images, images.len()), place) == image.texts);
        }
    }
}

/// What a node's value means: the value, with a text in place of its token.
pub open spec fn meaning(index: FilterIndex, column: int, node: int) -> (
    Option<EncodedFilterValue>,
    Option<Seq<char>>,
) {
    match index.value(column, node as u32) {
        Some(EncodedFilterValue::Text(token)) => (
            Some(EncodedFilterValue::Text(0)),
            index.text_at(column, token),
        ),
        other => (other, None),
    }
}

/// Whether two indexes have the same columns, and every node the same values.
pub open spec fn same_values(left: FilterIndex, right: FilterIndex, nodes: nat) -> bool {
    &&& left.registered() == right.registered()
    &&& forall|column: int, node: int|
        0 <= column < left.registered().len() && 0 <= node < nodes ==> #[trigger] meaning(
            left,
            column,
            node,
        ) == meaning(right, column, node)
}

/// A column is the same wherever its sections stand in an artifact.
proof fn lemma_place_moved(
    bytes: Seq<u8>,
    catalog: Seq<u8>,
    data_range: Range<usize>,
    dictionary_range: Range<usize>,
    nodes: nat,
    column: int,
    node: int,
)
    requires
        in_region(data_range, bytes.len()),
        in_region(dictionary_range, bytes.len()),
        column_valid(
            catalog,
            bytes.subrange(data_range.start as int, data_range.end as int),
            bytes.subrange(dictionary_range.start as int, dictionary_range.end as int),
            nodes,
            column,
        ),
    ensures
        ({
            let data = bytes.subrange(data_range.start as int, data_range.end as int);
            let dictionaries = bytes.subrange(
                dictionary_range.start as int,
                dictionary_range.end as int,
            );
            let place = column_place(catalog, column, 0, 0);
            let moved = column_place(
                catalog,
                column,
                data_range.start as int,
                dictionary_range.start as int,
            );
            &&& moved.column_type == place.column_type
            &&& place_value(bytes, moved, nodes, node) == place_value(data, place, nodes, node)
            &&& place_texts(bytes, moved) == place_texts(dictionaries, place)
        }),
{
    let data = bytes.subrange(data_range.start as int, data_range.end as int);
    let dictionaries = bytes.subrange(dictionary_range.start as int, dictionary_range.end as int);
    let place = column_place(catalog, column, 0, 0);
    let moved = column_place(
        catalog,
        column,
        data_range.start as int,
        dictionary_range.start as int,
    );
    assert(bytes.subrange(moved.data_start as int, moved.data_end as int) =~= data.subrange(
        place.data_start as int,
        place.data_end as int,
    ));
    assert(bytes.subrange(moved.dictionary_start as int, moved.dictionary_end as int)
        =~= dictionaries.subrange(place.dictionary_start as int, place.dictionary_end as int));
}

/// An index read from an artifact that holds written sections, at whatever
/// places, is accepted and has the columns and values of the index written.
pub proof fn law_artifact_reads_back(
    index: FilterIndex,
    bytes: Seq<u8>,
    catalog_range: Range<usize>,
    data_range: Range<usize>,
    dictionary_range: Range<usize>,
    node_count: u32,
    read: FilterIndex,
)
    requires
        encodable(index, node_count as nat),
        columns_differ(index),
        in_region(catalog_range, bytes.len()),
        in_region(data_range, bytes.len()),
        in_region(dictionary_range, bytes.len()),
        ({
            let images = index_images(index, node_count as nat);
            &&& bytes.subrange(catalog_range.start as int, catalog_range.end as int) == catalog_of(
                images,
            )
            &&& bytes.subrange(data_range.start as int, data_range.end as int) == data_of(
                images,
                images.len(),
            )
            &&& bytes.subrange(dictionary_range.start as int, dictionary_range.end as int)
                == dictionaries_of(images, images.len())
        }),
    ensures
        sections_valid(
            bytes.subrange(catalog_range.start as int, catalog_range.end as int),
            bytes.subrange(data_range.start as int, data_range.end as int),
            bytes.subrange(dictionary_range.start as int, dictionary_range.end as int),
            node_count as nat,
        ),
        reads_artifact(read, bytes, catalog_range, data_range, dictionary_range, node_count)
            ==> same_values(index, read, node_count as nat),
{
    let nodes = node_count as nat;
    let images = index_images(index, nodes);
    let catalog = catalog_of(images);
    let data = data_of(images, images.len());
    let dictionaries = dictionaries_of(images, images.len());
    law_written_index_reads_back(index, nodes);
    assert(sections_valid(catalog, data, dictionaries, nodes));
    if reads_artifact(read, bytes, catalog_range, data_range, dictionary_range, node_count) {
        assert(read.registered() =~= index.registered());
        assert forall|column: int, node: int|
            0 <= column < index.registered().len() && 0 <= node < nodes implies #[trigger] meaning(
            index,
            column,
            node,
        ) == meaning(read, column, node) by {
            let place = column_place(catalog, column, 0, 0);
            let moved = read.base().places()[column];
            assert(column_valid(catalog, data, dictionaries, nodes, column));
            lemma_place_moved(
                bytes,
                catalog,
                data_range,
                dictionary_range,
                nodes,
                column,
                node,
            );
            let value = index.value(column, node as u32);
            assert(read.value(column, node as u32) == place_value(data, place, nodes, node));
            assert(same_meaning(
                index,
                column,
                value,
                place_value(data, place, nodes, node),
                place_texts(dictionaries, place),
            ));
            if let Some(EncodedFilterValue::Text(token)) = value {
                assert(values_in_domain(index, column, nodes));
                assert(column_meta(catalog, column) == index.registered()[column]);
                assert(moved.column_type is Text);
                assert(read.texts(column) == read.base().texts(column));
            }
        }
    }
}

/// An index read from its three written sections, joined in one piece of bytes,
/// is accepted and has the columns and values of the index written.
pub proof fn law_joined_sections_read_back(
    index: FilterIndex,
    catalog_range: Range<usize>,
    data_range: Range<usize>,
    dictionary_range: Range<usize>,
    node_count: u32,
    read: FilterIndex,
)
    requires
        encodable(index, node_count as nat),
        columns_differ(index),
        ({
            let images = index_images(index, node_count as nat);
            &&& catalog_range.start == 0
            &&& catalog_range.end == catalog_of(images).len()
            &&& data_range.start == catalog_range.end
            &&& data_range.end - data_range.start == data_of(images, images.len()).len()
            &&& dictionary_range.start == data_range.end
            &&& dictionary_range.end - dictionary_range.start == dictionaries_of(
                images,
                images.len(),
            ).len()
        }),
    ensures
        ({
            let images = index_images(index, node_count as nat);
            let bytes = catalog_of(images) + data_of(images, images.len()) + dictionaries_of(
                images,
                images.len(),
            );
            &&& in_region(catalog_range, bytes.len())
            &&& in_region(data_range, bytes.len())
            &&& in_region(dictionary_range, bytes.len())
            &&& sections_valid(
                bytes.subrange(catalog_range.start as int, catalog_range.end as int),
                bytes.subrange(data_range.start as int, data_range.end as int),
                bytes.subrange(dictionary_range.start as int, dictionary_range.end as int),
                node_count as nat,
            )
            &&& reads_artifact(
                read,
                bytes,
                catalog_range,
                data_range,
                dictionary_range,
                node_count,
            ) ==> same_values(index, read, node_count as nat)
        }),
{
    let images = index_images(index, node_count as nat);
    let catalog = catalog_of(images);
    let data = data_of(images, images.len());
    let dictionaries = dictionaries_of(images, images.len());
    let bytes = catalog + data + dictionaries;
    assert(bytes.subrange(catalog_range.start as int, catalog_range.end as int) =~= catalog);
    assert(bytes.subrange(data_range.start as int, data_range.end as int) =~= data);
    assert(bytes.subrange(dictionary_range.start as int, dictionary_range.end as int)
        =~= dictionaries);
    law_artifact_reads_back(
        index,
        bytes,
        catalog_range,
        data_range,
        dictionary_range,
        node_count,
        read,
    );
}

proof fn lemma_text_size_same(left: FilterIndex, right: FilterIndex, column: int, nodes: nat)
    requires
        0 <= column < left.registered().len(),
        same_values(left, right, nodes),
    ensures
        text_size(left, column, nodes) == text_size(right, column, nodes),
    decreases nodes,
{
    if nodes > 0 {
        lemma_text_size_same(left, right, column, (nodes - 1) as nat);
        assert(meaning(left, column, nodes - 1) == meaning(right, column, nodes - 1));
    }
}

proof fn lemma_sizes_same(left: FilterIndex, right: FilterIndex, nodes: nat, count: nat)
    requires
        count <= left.registered().len(),
        same_values(left, right, nodes),
    ensures
        names_size(left, count) == names_size(right, count),
        data_size(left, nodes, count) == data_size(right, nodes, count),
        dictionary_size(left, nodes, count) == dictionary_size(right, nodes, count),
    decreases count,
{
    if count > 0 {
        lemma_sizes_same(left, right, nodes, (count - 1) as nat);
        lemma_text_size_same(left, right, count - 1, nodes);
    }
}

proof fn lemma_encodable_same(left: FilterIndex, right: FilterIndex, nodes: nat)
    requires
        same_values(left, right, nodes),
        encodable(left, nodes),
    ensures
        encodable(right, nodes),
{
    lemma_sizes_same(left, right, nodes, left.registered().len());
    assert forall|column: int|
        0 <= column < right.registered().len()
            && (#[trigger] right.registered()[column]).column_type is Text implies tokens_known(
        right,
        column,
        nodes,
    ) by {
        assert(left.registered()[column].column_type is Text);
        assert(tokens_known(left, column, nodes));
        assert forall|node: int| 0 <= node < nodes implies #[trigger] token_known(
            right,
            column,
            node,
        ) by {
            assert(token_known(left, column, node));
            assert(meaning(left, column, node) == meaning(right, column, node));
        }
    }
    assert forall|column: int| 0 <= column < right.registered().len() implies encode_utf8(
        (#[trigger] right.registered()[column]).name,
    ).len() <= u32::MAX by {
        assert(encode_utf8(left.registered()[column].name).len() <= u32::MAX);
    }
    assert forall|column: int| 0 <= column < right.registered().len() implies #[trigger]
        values_in_domain(right, column, nodes) by {
        assert(values_in_domain(left, column, nodes));
        assert forall|node: int| 0 <= node < nodes implies (#[trigger] right.value(
            column,
            node as u32,
        ) matches Some(value) ==> in_domain(right.registered()[column].column_type, value)) by {
            assert(meaning(left, column, node) == meaning(right, column, node));
            let other = left.value(column, node as u32);
            assert(other matches Some(value) ==> in_domain(
                left.registered()[column].column_type,
                value,
            ));
        }
    }
}

/// Two indexes with the same columns and the same values, however they number
/// their texts and hold their values, can both be written or neither, and write
/// the same bytes.
pub proof fn law_equal_values_write_equal_bytes(
    left: FilterIndex,
    right: FilterIndex,
    nodes: nat,
)
    requires
        same_values(left, right, nodes),
        nodes <= u32::MAX,
    ensures
        encodable(left, nodes) == encodable(right, nodes),
        encodable(left, nodes) ==> {
            let images = index_images(left, nodes);
            let others = index_images(right, nodes);
            &&& catalog_of(images) == catalog_of(others)
            &&& data_of(images, images.len()) == data_of(others, others.len())
            &&& dictionaries_of(images, images.len()) == dictionaries_of(others, others.len())
        },
{
    assert(same_values(right, left, nodes)) by {
        assert forall|column: int, node: int|
            0 <= column < right.registered().len() && 0 <= node < nodes implies #[trigger] meaning(
            right,
            column,
            node,
        ) == meaning(left, column, node) by {
            assert(meaning(left, column, node) == meaning(right, column, node));
        }
    }
    if encodable(right, nodes) {
        lemma_encodable_same(right, left, nodes);
    }
    if encodable(left, nodes) {
        lemma_encodable_same(left, right, nodes);
        let images = index_images(left, nodes);
        let others = index_images(right, nodes);
        assert forall|column: int| 0 <= column < images.len() implies #[trigger] images[column]
            == others[column] by {
            lemma_column_same(left, right, column, nodes);
        }
        assert(images =~= others);
    }
}

/// A column with the same values is persisted the same.
proof fn lemma_column_same(left: FilterIndex, right: FilterIndex, column: int, nodes: nat)
    requires
        same_values(left, right, nodes),
        encodable(left, nodes),
        encodable(right, nodes),
        nodes <= u32::MAX,
        0 <= column < left.registered().len(),
    ensures
        index_images(left, nodes)[column] == index_images(right, nodes)[column],
{
    let image = index_images(left, nodes)[column];
    let other = index_images(right, nodes)[column];
    assert(values_in_domain(left, column, nodes));
    assert forall|text: Seq<char>| #[trigger] text_used(left, column, nodes, text) <==> text_used(
        right,
        column,
        nodes,
        text,
    ) by {
        if text_used(left, column, nodes, text) {
            let node = choose|node: int| 0 <= node < nodes && #[trigger] has_text(left, column, node, text);
            assert(meaning(left, column, node) == meaning(right, column, node));
            assert(has_text(right, column, node, text));
        }
        if text_used(right, column, nodes, text) {
            let node = choose|node: int| 0 <= node < nodes && #[trigger] has_text(right, column, node, text);
            assert(meaning(left, column, node) == meaning(right, column, node));
            assert(has_text(left, column, node, text));
        }
    }
    assert(left.registered()[column] == right.registered()[column]);
    let texts = if left.registered()[column].column_type is Text {
        assert(tokens_known(left, column, nodes));
        lemma_text_list(left, column, nodes)
    } else {
        Seq::<Seq<char>>::empty()
    };
    assert(texts_in_use(left, column, nodes, texts));
    assert(texts_in_use(right, column, nodes, texts));
    lemma_used_texts(left, column, nodes, texts);
    lemma_used_texts(right, column, nodes, texts);
    assert forall|node: int| 0 <= node < nodes implies #[trigger] image.values[node]
        == other.values[node] by {
        assert(meaning(left, column, node) == meaning(right, column, node));
    }
    assert(image.values =~= other.values);
}

} // verus!
