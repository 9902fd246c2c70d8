//! What the persisted filter sections hold for given columns, and that reading
//! them gives the columns back.
use vstd::prelude::*;
use vstd::utf8::{encode_utf8, encode_utf8_decode_utf8, encode_utf8_valid_utf8};

use crate::codec::{law_le_read_gives_back_write, le_bytes, lemma_le_len, lemma_radix_values};
use crate::filter_catalog::{
    bytes_valid, catalog_count, catalog_names_len, column_meta, column_place, column_valid, data_at,
    descriptor, dictionary_at, header_valid, name_at, name_bytes, names_start, place_texts,
    place_value, sections_valid, ColumnView,
};
use crate::filter_column::{
    dense_valid, is_present, law_value_reads_back, presence_len, present_count, slot, stored_value,
    value_accepted, value_bytes, word,
};
use crate::filter_dictionary::{dictionary_bytes, law_dictionary_reads_back, lexical, text_end};
use crate::filter_storage::FilterStorageKind;
use crate::filter_value::{in_domain, EncodedFilterValue, FilterColumnType};
use crate::node_store::bit_of;

verus! {

/// A column as it is persisted: tokens of text are positions in `texts`.
#[verifier::ext_equal]
pub struct ColumnImage {
    pub meta: ColumnView,
    /// The value of each node.
    pub values: Seq<Option<EncodedFilterValue>>,
    /// The texts in use, in lexical order.
    pub texts: Seq<Seq<char>>,
}

/// Whether a column can be persisted.
pub open spec fn image_valid(image: ColumnImage, nodes: nat) -> bool {
    &&& image.values.len() == nodes <= u32::MAX
    &&& forall|node: int|
        0 <= node < nodes ==> (#[trigger] image.values[node] matches Some(value) ==> {
            &&& in_domain(image.meta.column_type, value)
            &&& value matches EncodedFilterValue::Text(token) ==> token < image.texts.len()
        })
    &&& lexical(image.texts)
    &&& image.texts.len() <= u32::MAX
    &&& !(image.meta.column_type is Text) ==> image.texts.len() == 0
    &&& encode_utf8(image.meta.name).len() <= u32::MAX
}

/// The low presence bits of a byte, for nodes from a position.
pub open spec fn packed(values: Seq<Option<EncodedFilterValue>>, at: int, bits: nat) -> u8
    decreases bits,
{
    if bits == 0 {
        0
    } else {
        let node = at + bits - 1;
        packed(values, at, (bits - 1) as nat) | if node < values.len() && values[node] is Some {
            1u8 << ((bits - 1) as u8)
        } else {
            0u8
        }
    }
}

/// One bit per node: whether it has a value.
pub open spec fn presence_bytes(values: Seq<Option<EncodedFilterValue>>) -> Seq<u8> {
    Seq::new(presence_len(values.len()), |byte: int| packed(values, 8 * byte, 8))
}

/// The bytes of one slot.
pub open spec fn slot_bytes(
    column_type: FilterColumnType,
    value: Option<EncodedFilterValue>,
) -> Seq<u8> {
    match value {
        Some(value) => value_bytes(value),
        None => Seq::new(column_type.width(), |i: int| 0u8),
    }
}

/// The bytes of the first slots.
pub open spec fn slots_bytes(
    column_type: FilterColumnType,
    values: Seq<Option<EncodedFilterValue>>,
    count: nat,
) -> Seq<u8>
    decreases count,
{
    if count == 0 {
        Seq::empty()
    } else {
        slots_bytes(column_type, values, (count - 1) as nat) + slot_bytes(
            column_type,
            values[count - 1],
        )
    }
}

/// How many of the first nodes have a value.
pub open spec fn populated_count(values: Seq<Option<EncodedFilterValue>>, count: nat) -> nat
    decreases count,
{
    if count == 0 {
        0
    } else {
        populated_count(values, (count - 1) as nat) + if values[count - 1] is Some {
            1nat
        } else {
            0nat
        }
    }
}

/// The value bytes of a column.
pub open spec fn data_bytes(image: ColumnImage) -> Seq<u8> {
    presence_bytes(image.values) + slots_bytes(
        image.meta.column_type,
        image.values,
        image.values.len(),
    )
}

/// The dictionary bytes of a column.
pub open spec fn column_dictionary(image: ColumnImage) -> Seq<u8> {
    if image.meta.column_type is Text {
        dictionary_bytes(image.texts)
    } else {
        Seq::empty()
    }
}

/// Setting one bit of a byte sets that bit alone.
proof fn lemma_set_bit(byte: u8, at: u8, bit: u8)
    requires
        at < 8,
        bit < 8,
    ensures
        ((byte | (1u8 << at)) >> bit) & 1u8 == (if bit == at {
            1u8
        } else {
            (byte >> bit) & 1u8
        }),
        ((byte | 0u8) >> bit) & 1u8 == (byte >> bit) & 1u8,
        (0u8 >> bit) & 1u8 == 0u8,
{
    assert(((byte | (1u8 << at)) >> bit) & 1u8 == (if bit == at {
        1u8
    } else {
        (byte >> bit) & 1u8
    })) by (bit_vector)
        requires
            at < 8,
            bit < 8,
    ;
    assert(((byte | 0u8) >> bit) & 1u8 == (byte >> bit) & 1u8) by (bit_vector)
        requires
            bit < 8,
    ;
    assert((0u8 >> bit) & 1u8 == 0u8) by (bit_vector)
        requires
            bit < 8,
    ;
}

/// A packed byte has the bits of its nodes.
pub proof fn lemma_packed(
    values: Seq<Option<EncodedFilterValue>>,
    at: int,
    bits: nat,
    bit: int,
)
    requires
        0 <= at,
        bits <= 8,
        0 <= bit < 8,
    ensures
        bit_of(packed(values, at, bits), bit) == (bit < bits && at + bit < values.len() && values[at
            + bit] is Some),
    decreases bits,
{
    if bits == 0 {
        lemma_set_bit(0, 0, bit as u8);
    } else {
        let low = (bits - 1) as nat;
        lemma_packed(values, at, low, bit);
        lemma_set_bit(packed(values, at, low), low as u8, bit as u8);
    }
}

proof fn lemma_slots(
    column_type: FilterColumnType,
    values: Seq<Option<EncodedFilterValue>>,
    count: nat,
    node: int,
)
    requires
        count <= values.len(),
        forall|n: int|
            0 <= n < values.len() ==> (#[trigger] values[n] matches Some(value) ==> in_domain(
                column_type,
                value,
            )),
    ensures
        slots_bytes(column_type, values, count).len() == count * column_type.width(),
        0 <= node < count ==> slots_bytes(column_type, values, count).subrange(
            node * column_type.width(),
            node * column_type.width() + column_type.width(),
        ) == slot_bytes(column_type, values[node]),
    decreases count,
{
    if count > 0 {
        let width = column_type.width() as int;
        let low = (count - 1) as nat;
        lemma_slots(column_type, values, low, node);
        let last = slot_bytes(column_type, values[low as int]);
        assert(last.len() == width) by {
            if let Some(value) = values[low as int] {
                law_value_reads_back(column_type, value);
            }
        }
        assert(low * width + width == count * width) by (nonlinear_arith)
            requires
                count == low + 1,
        ;
        if 0 <= node < low {
            assert(node * width + width <= low * width && 0 <= node * width) by (nonlinear_arith)
                requires
                    0 <= node < low,
                    width >= 0,
            ;
            assert(slots_bytes(column_type, values, count).subrange(
                node * width,
                node * width + width,
            ) =~= slots_bytes(column_type, values, low).subrange(
                node * width,
                node * width + width,
            ));
        } else if node == low {
            assert(slots_bytes(column_type, values, count).subrange(
                node * width,
                node * width + width,
            ) =~= last);
        }
    }
}

proof fn lemma_present_counts(
    data: Seq<u8>,
    values: Seq<Option<EncodedFilterValue>>,
    count: nat,
)
    requires
        count <= values.len(),
        forall|node: int|
            0 <= node < values.len() ==> #[trigger] is_present(data, node) == (values[node] is Some),
    ensures
        present_count(data, count) == populated_count(values, count),
        populated_count(values, count) <= count,
    decreases count,
{
    if count > 0 {
        lemma_present_counts(data, values, (count - 1) as nat);
        assert(is_present(data, count - 1) == (values[count - 1] is Some));
    }
}

/// Reading the value bytes of a column gives back each node's value.
pub proof fn law_values_read_back(image: ColumnImage, nodes: nat)
    requires
        image_valid(image, nodes),
    ensures
        dense_valid(
            data_bytes(image),
            image.meta.column_type,
            populated_count(image.values, nodes),
            image.texts.len(),
            nodes,
        ),
        populated_count(image.values, nodes) <= nodes,
        forall|node: int|
            0 <= node < nodes ==> #[trigger] stored_value(
                data_bytes(image),
                image.meta.column_type,
                FilterStorageKind::Dense,
                populated_count(image.values, nodes),
                nodes,
                node,
            ) == image.values[node],
{
    let data = data_bytes(image);
    let column_type = image.meta.column_type;
    let values = image.values;
    let presence = presence_bytes(values);
    lemma_slots(column_type, values, nodes, 0);
    assert forall|bit: int| 0 <= bit < 8 * presence_len(nodes) implies #[trigger] is_present(
        data,
        bit,
    ) == (bit < nodes && values[bit] is Some) by {
        assert(data[bit / 8] == presence[bit / 8]);
        lemma_packed(values, 8 * (bit / 8), 8, bit % 8);
        assert(8 * (bit / 8) + bit % 8 == bit);
    }
    assert forall|node: int| 0 <= node < nodes implies #[trigger] is_present(data, node) == (
    values[node] is Some) by {
        assert(node < 8 * presence_len(nodes));
    }
    lemma_present_counts(data, values, nodes);
    assert forall|node: int| 0 <= node < nodes implies slot(data, column_type, nodes, node)
        == slot_bytes(column_type, values[node]) by {
        lemma_slots(column_type, values, nodes, node);
        let width = column_type.width() as int;
        assert(node * width + width <= nodes * width && 0 <= node * width) by (nonlinear_arith)
            requires
                0 <= node < nodes,
                width >= 0,
        ;
        assert(slot(data, column_type, nodes, node) =~= slots_bytes(
            column_type,
            values,
            nodes,
        ).subrange(node * width, node * width + width));
    }
    assert forall|node: int| 0 <= node < nodes && #[trigger] is_present(data, node) implies
        value_accepted(column_type, slot(data, column_type, nodes, node), image.texts.len()) by {
        assert(values[node] is Some);
        law_value_reads_back(column_type, values[node]->Some_0);
    }
    assert forall|node: int| 0 <= node < nodes implies #[trigger] stored_value(
        data,
        column_type,
        FilterStorageKind::Dense,
        populated_count(values, nodes),
        nodes,
        node,
    ) == values[node] by {
        assert(is_present(data, node) == (values[node] is Some));
        if let Some(value) = values[node] {
            law_value_reads_back(column_type, value);
        }
    }
}

/// Bytes of the first columns' names.
pub open spec fn names_end(images: Seq<ColumnImage>, count: nat) -> nat
    decreases count,
{
    if count == 0 {
        0
    } else {
        names_end(images, (count - 1) as nat) + encode_utf8(images[count - 1].meta.name).len()
    }
}

/// Bytes of the first columns' values.
pub open spec fn data_end(images: Seq<ColumnImage>, count: nat) -> nat
    decreases count,
{
    if count == 0 {
        0
    } else {
        data_end(images, (count - 1) as nat) + data_bytes(images[count - 1]).len()
    }
}

/// Bytes of the first columns' dictionaries.
pub open spec fn dictionaries_end(images: Seq<ColumnImage>, count: nat) -> nat
    decreases count,
{
    if count == 0 {
        0
    } else {
        dictionaries_end(images, (count - 1) as nat) + column_dictionary(images[count - 1]).len()
    }
}

/// The first columns' names.
pub open spec fn names_of(images: Seq<ColumnImage>, count: nat) -> Seq<u8>
    decreases count,
{
    if count == 0 {
        Seq::empty()
    } else {
        names_of(images, (count - 1) as nat) + encode_utf8(images[count - 1].meta.name)
    }
}

/// The value section of the first columns.
pub open spec fn data_of(images: Seq<ColumnImage>, count: nat) -> Seq<u8>
    decreases count,
{
    if count == 0 {
        Seq::empty()
    } else {
        data_of(images, (count - 1) as nat) + data_bytes(images[count - 1])
    }
}

/// The dictionary section of the first columns.
pub open spec fn dictionaries_of(images: Seq<ColumnImage>, count: nat) -> Seq<u8>
    decreases count,
{
    if count == 0 {
        Seq::empty()
    } else {
        dictionaries_of(images, (count - 1) as nat) + column_dictionary(images[count - 1])
    }
}

/// The bytes of a descriptor with these fields. Its column is dense.
pub open spec fn descriptor_fields(
    table_oid: nat,
    column_type: FilterColumnType,
    name_start: nat,
    name_length: nat,
    rows: nat,
    data_start: nat,
    data_length: nat,
    dictionary_start: nat,
    dictionary_length: nat,
    texts: nat,
) -> Seq<u8> {
    le_bytes(table_oid, 4) + seq![column_type.tag(), 0u8, column_type.width() as u8, 0u8]
        + le_bytes(name_start, 8) + le_bytes(name_length, 4) + le_bytes(rows, 4) + le_bytes(
        data_start,
        8,
    ) + le_bytes(data_length, 8) + le_bytes(dictionary_start, 8) + le_bytes(dictionary_length, 8)
        + le_bytes(texts, 4) + seq![0u8, 0u8, 0u8, 0u8]
}

/// The descriptor of a column.
pub open spec fn descriptor_of(images: Seq<ColumnImage>, column: int) -> Seq<u8> {
    let image = images[column];
    let at = column as nat;
    descriptor_fields(
        image.meta.table_oid as nat,
        image.meta.column_type,
        names_end(images, at),
        encode_utf8(image.meta.name).len(),
        populated_count(image.values, image.values.len()),
        data_end(images, at),
        data_bytes(image).len(),
        dictionaries_end(images, at),
        column_dictionary(image).len(),
        image.texts.len(),
    )
}

/// The descriptors of the first columns.
pub open spec fn descriptors_of(images: Seq<ColumnImage>, count: nat) -> Seq<u8>
    decreases count,
{
    if count == 0 {
        Seq::empty()
    } else {
        descriptors_of(images, (count - 1) as nat) + descriptor_of(images, count - 1)
    }
}

/// The catalog section.
pub open spec fn catalog_of(images: Seq<ColumnImage>) -> Seq<u8> {
    le_bytes(images.len(), 4) + le_bytes(64, 4) + le_bytes(names_end(images, images.len()), 8)
        + descriptors_of(images, images.len()) + names_of(images, images.len())
}

/// Whether the sections of columns can be written: every length fits its field.
pub open spec fn images_fit(images: Seq<ColumnImage>) -> bool {
    &&& images.len() <= u32::MAX
    &&& catalog_of(images).len() <= usize::MAX
    &&& data_end(images, images.len()) <= usize::MAX
    &&& dictionaries_end(images, images.len()) <= usize::MAX
}

/// Whether columns can be persisted together.
pub open spec fn images_valid(images: Seq<ColumnImage>, nodes: nat) -> bool {
    &&& forall|i: int| 0 <= i < images.len() ==> image_valid(#[trigger] images[i], nodes)
    &&& forall|i: int, j: int|
        0 <= i < j < images.len() ==> {
            let left = (#[trigger] images[i]).meta;
            let right = (#[trigger] images[j]).meta;
            left.table_oid != right.table_oid || left.name != right.name
        }
}

/// A column's part of the section stands between two ends.
pub proof fn lemma_name_part(images: Seq<ColumnImage>, count: nat, at: int)
    requires
        0 <= at <= count <= images.len(),
    ensures
        names_of(images, count).len() == names_end(images, count),
        names_end(images, at as nat) <= names_end(images, count),
        at < count ==> names_end(images, (at + 1) as nat) <= names_end(images, count)
            && names_of(images, count).subrange(
            names_end(images, at as nat) as int,
            names_end(images, (at + 1) as nat) as int,
        ) == encode_utf8(images[at].meta.name),
    decreases count,
{
    if count > 0 {
        let last = (count - 1) as nat;
        if at < count {
            lemma_name_part(images, last, at);
            let from = names_end(images, at as nat) as int;
            let to = names_end(images, (at + 1) as nat) as int;
            if at < last {
                assert(names_of(images, count).subrange(from, to) =~= names_of(images, last).subrange(
                    from,
                    to,
                ));
            } else {
                assert(names_of(images, count).subrange(from, to) =~= encode_utf8(images[at].meta.name));
            }
        } else {
            lemma_name_part(images, last, last as int);
        }
    }
}

/// A column's part of the section stands between two ends.
pub proof fn lemma_data_part(images: Seq<ColumnImage>, count: nat, at: int)
    requires
        0 <= at <= count <= images.len(),
    ensures
        data_of(images, count).len() == data_end(images, count),
        data_end(images, at as nat) <= data_end(images, count),
        at < count ==> data_end(images, (at + 1) as nat) <= data_end(images, count)
            && data_of(images, count).subrange(
            data_end(images, at as nat) as int,
            data_end(images, (at + 1) as nat) as int,
        ) == data_bytes(images[at]),
    decreases count,
{
    if count > 0 {
        let last = (count - 1) as nat;
        if at < count {
            lemma_data_part(images, last, at);
            let from = data_end(images, at as nat) as int;
            let to = data_end(images, (at + 1) as nat) as int;
            if at < last {
                assert(data_of(images, count).subrange(from, to) =~= data_of(images, last).subrange(
                    from,
                    to,
                ));
            } else {
                assert(data_of(images, count).subrange(from, to) =~= data_bytes(images[at]));
            }
        } else {
            lemma_data_part(images, last, last as int);
        }
    }
}

/// A column's part of the section stands between two ends.
pub proof fn lemma_dictionary_part(images: Seq<ColumnImage>, count: nat, at: int)
    requires
        0 <= at <= count <= images.len(),
    ensures
        dictionaries_of(images, count).len() == dictionaries_end(images, count),
        dictionaries_end(images, at as nat) <= dictionaries_end(images, count),
        at < count ==> dictionaries_end(images, (at + 1) as nat) <= dictionaries_end(images, count)
            && dictionaries_of(images, count).subrange(
            dictionaries_end(images, at as nat) as int,
            dictionaries_end(images, (at + 1) as nat) as int,
        ) == column_dictionary(images[at]),
    decreases count,
{
    if count > 0 {
        let last = (count - 1) as nat;
        if at < count {
            lemma_dictionary_part(images, last, at);
            let from = dictionaries_end(images, at as nat) as int;
            let to = dictionaries_end(images, (at + 1) as nat) as int;
            if at < last {
                assert(dictionaries_of(images, count).subrange(from, to) =~= dictionaries_of(images, last).subrange(
                    from,
                    to,
                ));
            } else {
                assert(dictionaries_of(images, count).subrange(from, to) =~= column_dictionary(images[at]));
            }
        } else {
            lemma_dictionary_part(images, last, last as int);
        }
    }
}

/// Whether a column's numbers fit the fields of its descriptor.
pub open spec fn descriptor_fits(images: Seq<ColumnImage>, column: int) -> bool {
    let image = images[column];
    let at = column as nat;
    &&& names_end(images, at) < 0x1_0000_0000_0000_0000
    &&& encode_utf8(image.meta.name).len() <= u32::MAX
    &&& populated_count(image.values, image.values.len()) <= u32::MAX
    &&& data_end(images, at) < 0x1_0000_0000_0000_0000
    &&& data_bytes(image).len() < 0x1_0000_0000_0000_0000
    &&& dictionaries_end(images, at) < 0x1_0000_0000_0000_0000
    &&& column_dictionary(image).len() < 0x1_0000_0000_0000_0000
    &&& image.texts.len() <= u32::MAX
}

/// A descriptor has sixty-four bytes.
pub proof fn lemma_descriptor_len(images: Seq<ColumnImage>, column: int)
    ensures
        descriptor_of(images, column).len() == 64,
{
    let image = images[column];
    let at = column as nat;
    lemma_le_len(image.meta.table_oid as nat, 4);
    lemma_le_len(names_end(images, at), 8);
    lemma_le_len(encode_utf8(image.meta.name).len(), 4);
    lemma_le_len(populated_count(image.values, image.values.len()), 4);
    lemma_le_len(data_end(images, at), 8);
    lemma_le_len(data_bytes(image).len(), 8);
    lemma_le_len(dictionaries_end(images, at), 8);
    lemma_le_len(column_dictionary(image).len(), 8);
    lemma_le_len(image.texts.len(), 4);
}

/// Reading a descriptor gives back its fields.
#[verifier::spinoff_prover]
#[verifier::rlimit(60)]
proof fn lemma_descriptor_fields(images: Seq<ColumnImage>, column: int)
    requires
        descriptor_fits(images, column),
    ensures
        ({
            let d = descriptor_of(images, column);
            let image = images[column];
            let at = column as nat;
            &&& d[4] == image.meta.column_type.tag()
            &&& d[5] == 0
            &&& d[6] == image.meta.column_type.width()
            &&& d[7] == 0
            &&& d[60] == 0
            &&& d[61] == 0
            &&& d[62] == 0
            &&& d[63] == 0
            &&& word(d, 0, 4) == image.meta.table_oid
            &&& word(d, 8, 8) == names_end(images, at)
            &&& word(d, 16, 4) == encode_utf8(image.meta.name).len()
            &&& word(d, 20, 4) == populated_count(image.values, image.values.len())
            &&& word(d, 24, 8) == data_end(images, at)
            &&& word(d, 32, 8) == data_bytes(image).len()
            &&& word(d, 40, 8) == dictionaries_end(images, at)
            &&& word(d, 48, 8) == column_dictionary(image).len()
            &&& word(d, 56, 4) == image.texts.len()
        }),
{
    let image = images[column];
    let at = column as nat;
    let d = descriptor_of(images, column);
    lemma_radix_values();
    lemma_descriptor_len(images, column);
    let a = le_bytes(image.meta.table_oid as nat, 4);
    let b = seq![
        image.meta.column_type.tag(),
        0u8,
        image.meta.column_type.width() as u8,
        0u8,
    ];
    let c = le_bytes(names_end(images, at), 8);
    let e = le_bytes(encode_utf8(image.meta.name).len(), 4);
    let f = le_bytes(populated_count(image.values, image.values.len()), 4);
    let g = le_bytes(data_end(images, at), 8);
    let h = le_bytes(data_bytes(image).len(), 8);
    let i = le_bytes(dictionaries_end(images, at), 8);
    let j = le_bytes(column_dictionary(image).len(), 8);
    let k = le_bytes(image.texts.len(), 4);
    let z = seq![0u8, 0u8, 0u8, 0u8];
    lemma_le_len(image.meta.table_oid as nat, 4);
    lemma_le_len(names_end(images, at), 8);
    lemma_le_len(encode_utf8(image.meta.name).len(), 4);
    lemma_le_len(populated_count(image.values, image.values.len()), 4);
    lemma_le_len(data_end(images, at), 8);
    lemma_le_len(data_bytes(image).len(), 8);
    lemma_le_len(dictionaries_end(images, at), 8);
    lemma_le_len(column_dictionary(image).len(), 8);
    lemma_le_len(image.texts.len(), 4);
    assert(d =~= a + b + c + e + f + g + h + i + j + k + z);
    law_le_read_gives_back_write(image.meta.table_oid as nat, 4);
    law_le_read_gives_back_write(names_end(images, at), 8);
    law_le_read_gives_back_write(encode_utf8(image.meta.name).len(), 4);
    law_le_read_gives_back_write(populated_count(image.values, image.values.len()), 4);
    law_le_read_gives_back_write(data_end(images, at), 8);
    law_le_read_gives_back_write(data_bytes(image).len(), 8);
    law_le_read_gives_back_write(dictionaries_end(images, at), 8);
    law_le_read_gives_back_write(column_dictionary(image).len(), 8);
    law_le_read_gives_back_write(image.texts.len(), 4);
    assert(d.subrange(0, 4) =~= a);
    assert(d.subrange(8, 16) =~= c);
    assert(d.subrange(16, 20) =~= e);
    assert(d.subrange(20, 24) =~= f);
    assert(d.subrange(24, 32) =~= g);
    assert(d.subrange(32, 40) =~= h);
    assert(d.subrange(40, 48) =~= i);
    assert(d.subrange(48, 56) =~= j);
    assert(d.subrange(56, 60) =~= k);
    assert(image.meta.column_type.width() <= 16);
}

proof fn lemma_descriptors_part(images: Seq<ColumnImage>, count: nat, at: int)
    requires
        count <= images.len(),
    ensures
        descriptors_of(images, count).len() == 64 * count,
        0 <= at < count ==> descriptors_of(images, count).subrange(64 * at, 64 * at + 64)
            == descriptor_of(images, at),
    decreases count,
{
    if count > 0 {
        let last = (count - 1) as nat;
        lemma_descriptor_len(images, last as int);
        lemma_descriptors_part(images, last, at);
        if 0 <= at < last {
            assert(descriptors_of(images, count).subrange(64 * at, 64 * at + 64)
                =~= descriptors_of(images, last).subrange(64 * at, 64 * at + 64));
        } else if at == last {
            assert(descriptors_of(images, count).subrange(64 * at, 64 * at + 64)
                =~= descriptor_of(images, at));
        }
    }
}

/// The parts of a written catalog.
proof fn lemma_catalog_parts(images: Seq<ColumnImage>)
    requires
        images_fit(images),
    ensures
        header_valid(catalog_of(images)),
        catalog_count(catalog_of(images)) == images.len(),
        catalog_names_len(catalog_of(images)) == names_end(images, images.len()),
        names_start(catalog_of(images)) == 16 + 64 * images.len(),
        forall|i: int|
            0 <= i < images.len() ==> #[trigger] descriptor(catalog_of(images), i)
                == descriptor_of(images, i),
        catalog_of(images).len() == 16 + 64 * images.len() + names_end(images, images.len()),
        catalog_of(images).subrange(
            16 + 64 * images.len() as int,
            catalog_of(images).len() as int,
        ) == names_of(images, images.len()),
{
    let count = images.len();
    let catalog = catalog_of(images);
    lemma_radix_values();
    lemma_le_len(count, 4);
    lemma_le_len(64, 4);
    lemma_le_len(names_end(images, count), 8);
    lemma_descriptors_part(images, count, 0);
    lemma_name_part(images, count, count as int);
    law_le_read_gives_back_write(count, 4);
    law_le_read_gives_back_write(64, 4);
    law_le_read_gives_back_write(names_end(images, count), 8);
    assert(catalog.subrange(0, 4) =~= le_bytes(count, 4));
    assert(catalog.subrange(4, 8) =~= le_bytes(64, 4));
    assert(catalog.subrange(8, 16) =~= le_bytes(names_end(images, count), 8));
    assert(catalog.subrange(16 + 64 * count as int, catalog.len() as int) =~= names_of(
        images,
        count,
    ));
    assert forall|i: int| 0 <= i < count implies #[trigger] descriptor(catalog, i)
        == descriptor_of(images, i) by {
        lemma_descriptors_part(images, count, i);
        assert(descriptor(catalog, i) =~= descriptors_of(images, count).subrange(
            64 * i,
            64 * i + 64,
        ));
    }
}

/// The positions that a written catalog gives its columns.
proof fn lemma_positions(images: Seq<ColumnImage>, nodes: nat, column: nat)
    requires
        images_fit(images),
        images_valid(images, nodes),
        column <= images.len(),
    ensures
        name_at(catalog_of(images), column) == names_end(images, column),
        data_at(catalog_of(images), column) == data_end(images, column),
        dictionary_at(catalog_of(images), column) == dictionaries_end(images, column),
    decreases column,
{
    if column > 0 {
        let last = column - 1;
        lemma_positions(images, nodes, last as nat);
        lemma_catalog_parts(images);
        assert(descriptor(catalog_of(images), last) == descriptor_of(images, last));
        lemma_fits(images, nodes, last);
        lemma_descriptor_fields(images, last);
    }
}

proof fn lemma_fits(images: Seq<ColumnImage>, nodes: nat, column: int)
    requires
        images_fit(images),
        images_valid(images, nodes),
        0 <= column < images.len(),
    ensures
        descriptor_fits(images, column),
{
    let count = images.len();
    assert(image_valid(images[column], nodes));
    lemma_catalog_parts(images);
    lemma_name_part(images, count, column);
    lemma_data_part(images, count, column);
    lemma_dictionary_part(images, count, column);
    law_values_read_back(images[column], nodes);
}

/// What a reader finds in written sections: the columns, each node's value, and
/// the texts of each column.
#[verifier::spinoff_prover]
#[verifier::rlimit(40)]
proof fn lemma_column_reads_back(images: Seq<ColumnImage>, nodes: nat, column: int)
    requires
        images_fit(images),
        images_valid(images, nodes),
        0 <= column < images.len(),
    ensures
        column_valid(
            catalog_of(images),
            data_of(images, images.len()),
            dictionaries_of(images, images.len()),
            nodes,
            column,
        ),
        column_meta(catalog_of(images), column) == images[column].meta,
        ({
            let place = column_place(catalog_of(images), column, 0, 0);
            &&& place.storage_kind is Dense
            &&& place.column_type == images[column].meta.column_type
            &&& forall|node: int|
                0 <= node < nodes ==> #[trigger] place_value(
                    data_of(images, images.len()),
                    place,
                    nodes,
                    node,
                ) == images[column].values[node]
            &&& place.column_type is Text ==> place_texts(
                dictionaries_of(images, images.len()),
                place,
            ) == images[column].texts
        }),
{
    let count = images.len();
    let image = images[column];
    let catalog = catalog_of(images);
    let data = data_of(images, count);
    let dictionaries = dictionaries_of(images, count);
    let place = column_place(catalog, column, 0, 0);
    assert(image_valid(image, nodes));
    lemma_catalog_parts(images);
    lemma_fits(images, nodes, column);
    lemma_descriptor_fields(images, column);
    lemma_positions(images, nodes, column as nat);
    lemma_name_part(images, count, column);
    lemma_data_part(images, count, column);
    lemma_dictionary_part(images, count, column);
    assert(descriptor(catalog, column) == descriptor_of(images, column));
    // The name.
    let name = encode_utf8(image.meta.name);
    assert(name_bytes(catalog, column) =~= names_of(images, count).subrange(
        names_end(images, column as nat) as int,
        names_end(images, (column + 1) as nat) as int,
    ));
    assert(name_bytes(catalog, column) == name);
    encode_utf8_valid_utf8(image.meta.name);
    encode_utf8_decode_utf8(image.meta.name);
    crate::filter_value::law_type_tag_reads_back(image.meta.column_type);
    assert(column_meta(catalog, column) == image.meta);
    // The values.
    assert(place.data_start == data_end(images, column as nat));
    assert(place.data_end == data_end(images, (column + 1) as nat));
    assert(data.subrange(place.data_start as int, place.data_end as int) == data_bytes(image));
    law_values_read_back(image, nodes);
    // The dictionary.
    assert(place.dictionary_start == dictionaries_end(images, column as nat));
    assert(place.dictionary_end == dictionaries_end(images, (column + 1) as nat));
    assert(dictionaries.subrange(place.dictionary_start as int, place.dictionary_end as int)
        == column_dictionary(image));
    if image.meta.column_type is Text {
        lemma_text_end_bound(image.texts);
        law_dictionary_reads_back(image.texts);
    }
    assert(bytes_valid(
        data.subrange(place.data_start as int, place.data_end as int),
        dictionaries.subrange(place.dictionary_start as int, place.dictionary_end as int),
        place,
        nodes,
    ));
    assert forall|node: int| 0 <= node < nodes implies #[trigger] place_value(
        data,
        place,
        nodes,
        node,
    ) == image.values[node] by {
        assert(stored_value(
            data_bytes(image),
            image.meta.column_type,
            FilterStorageKind::Dense,
            populated_count(image.values, nodes),
            nodes,
            node,
        ) == image.values[node]);
    }
}

/// The texts of a dictionary are no longer than the dictionary.
proof fn lemma_text_end_bound(texts: Seq<Seq<char>>)
    ensures
        text_end(texts, texts.len()) <= dictionary_bytes(texts).len(),
{
    crate::filter_dictionary::lemma_joined(texts, texts.len(), texts.len() as int);
}

/// Reading written filter sections gives back the columns: the sections are
/// canonical, and the catalog names the columns, each node's value and the texts.
pub proof fn law_sections_read_back(images: Seq<ColumnImage>, nodes: nat)
    requires
        images_fit(images),
        images_valid(images, nodes),
    ensures
        sections_valid(
            catalog_of(images),
            data_of(images, images.len()),
            dictionaries_of(images, images.len()),
            nodes,
        ),
        catalog_count(catalog_of(images)) == images.len(),
        forall|column: int|
            #![trigger images[column]]
            0 <= column < images.len() ==> {
                let place = column_place(catalog_of(images), column, 0, 0);
                &&& column_meta(catalog_of(images), column) == images[column].meta
                &&& forall|node: int|
                    0 <= node < nodes ==> #[trigger] place_value(
                        data_of(images, images.len()),
                        place,
                        nodes,
                        node,
                    ) == images[column].values[node]
                &&& place.column_type is Text ==> place_texts(
                    dictionaries_of(images, images.len()),
                    place,
                ) == images[column].texts
            },
{
    let count = images.len();
    let catalog = catalog_of(images);
    lemma_catalog_parts(images);
    lemma_positions(images, nodes, count);
    lemma_data_part(images, count, count as int);
    lemma_dictionary_part(images, count, count as int);
    assert forall|column: int| 0 <= column < count implies #[trigger] column_valid(
        catalog,
        data_of(images, count),
        dictionaries_of(images, count),
        nodes,
        column,
    ) by {
        lemma_column_reads_back(images, nodes, column);
    }
    assert forall|i: int, j: int| 0 <= i < j < count implies {
        let left = #[trigger] column_meta(catalog, i);
        let right = #[trigger] column_meta(catalog, j);
        left.table_oid != right.table_oid || left.name != right.name
    } by {
        lemma_column_reads_back(images, nodes, i);
        lemma_column_reads_back(images, nodes, j);
        assert(images[i].meta.table_oid != images[j].meta.table_oid || images[i].meta.name
            != images[j].meta.name);
    }
    assert forall|column: int|
        #![trigger images[column]]
        0 <= column < count implies {
        let place = column_place(catalog, column, 0, 0);
        &&& column_meta(catalog, column) == images[column].meta
        &&& forall|node: int|
            0 <= node < nodes ==> #[trigger] place_value(
                data_of(images, count),
                place,
                nodes,
                node,
            ) == images[column].values[node]
        &&& place.column_type is Text ==> place_texts(dictionaries_of(images, count), place)
            == images[column].texts
    } by {
        lemma_column_reads_back(images, nodes, column);
    }
}

/// The length of written slots.
pub proof fn lemma_slots_len(
    column_type: FilterColumnType,
    values: Seq<Option<EncodedFilterValue>>,
    count: nat,
)
    requires
        count <= values.len(),
        forall|n: int|
            0 <= n < values.len() ==> (#[trigger] values[n] matches Some(value) ==> in_domain(
                column_type,
                value,
            )),
    ensures
        slots_bytes(column_type, values, count).len() == count * column_type.width(),
{
    lemma_slots(column_type, values, count, 0);
}

/// The length of written descriptors.
pub proof fn lemma_descriptors_len(images: Seq<ColumnImage>, count: nat)
    requires
        count <= images.len(),
    ensures
        descriptors_of(images, count).len() == 64 * count,
{
    lemma_descriptors_part(images, count, 0);
}

} // verus!
