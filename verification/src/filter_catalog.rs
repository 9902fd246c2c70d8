//! The persisted filter sections: a catalog of column descriptors, the value
//! bytes and the dictionaries of all columns.
use core::ops::Range;
use vstd::prelude::*;
use vstd::slice::slice_subrange;
use vstd::string::StringExecFns;
use vstd::utf8::{decode_utf8, valid_utf8};

use crate::codec::{lemma_radix_values, read_le};
use crate::errors::{corrupt, ErrorView, GraphError, GraphResult};
use crate::filter_column::{
    data_valid, form_suits, stored_value, validate_data, value_at, word,
};
use crate::filter_dictionary::{
    dictionary_texts, dictionary_valid, lemma_dictionary_different, text_of_token, token_of_text,
    validate_dictionary,
};
use crate::filter_storage::FilterStorageKind;
use crate::filter_value::{EncodedFilterValue, FilterColumnType};
use crate::mapped_bytes::MappedBytes;
use crate::rooms::{adds, push_list, Need, Room};
use crate::text::{decimal, decimal_text, same_text, utf8_text};

verus! {

/// Bytes before the first descriptor.
pub const FILTER_CATALOG_HEADER_SIZE: usize = 16;

/// Bytes of a descriptor.
pub const FILTER_DESCRIPTOR_SIZE: usize = 64;

/// A registered filter column.
#[derive(Debug)]
pub struct FilterColumnMeta {
    /// Table that owns the column.
    pub table_oid: u32,
    /// Name of the column.
    pub column_name: String,
    /// Domain of its values.
    pub column_type: FilterColumnType,
}

/// A registered filter column, its name as characters.
#[verifier::ext_equal]
pub struct ColumnView {
    pub table_oid: u32,
    pub name: Seq<char>,
    pub column_type: FilterColumnType,
}

impl View for FilterColumnMeta {
    type V = ColumnView;

    open spec fn view(&self) -> ColumnView {
        ColumnView {
            table_oid: self.table_oid,
            name: self.column_name@,
            column_type: self.column_type,
        }
    }
}

/// Where the bytes of a column stand in an artifact.
#[derive(Debug, Clone, Copy)]
pub struct MappedColumn {
    pub column_type: FilterColumnType,
    pub storage_kind: FilterStorageKind,
    pub row_count: u32,
    pub data_start: usize,
    pub data_end: usize,
    pub dictionary_start: usize,
    pub dictionary_end: usize,
    pub dictionary_count: u32,
}

/// The form that an artifact tag stands for.
pub open spec fn kind_of_tag(tag: u8) -> Option<FilterStorageKind> {
    if tag == 0 {
        Some(FilterStorageKind::Dense)
    } else if tag == 1 {
        Some(FilterStorageKind::SparseBool)
    } else if tag == 2 {
        Some(FilterStorageKind::SparseLookup)
    } else if tag == 3 {
        Some(FilterStorageKind::SparseOrdered)
    } else {
        None
    }
}

/// The form that an artifact tag stands for.
pub fn parse_storage_kind(value: u8) -> (result: GraphResult<FilterStorageKind>)
    ensures
        match kind_of_tag(value) {
            Some(kind) => result matches Ok(found) && found == kind,
            None => result matches Err(error) && error@ == ErrorView::CorruptFile(
                "unknown filter storage kind "@ + decimal(value as nat),
            ),
        },
{
    match value {
        0 => Ok(FilterStorageKind::Dense),
        1 => Ok(FilterStorageKind::SparseBool),
        2 => Ok(FilterStorageKind::SparseLookup),
        3 => Ok(FilterStorageKind::SparseOrdered),
        _ => Err(
            GraphError::CorruptFile {
                reason: "unknown filter storage kind ".to_owned().concat(
                    decimal_text(value as u64).as_str(),
                ),
            },
        ),
    }
}

/// Accepts a form that suits a column's domain.
pub fn validate_storage_kind(column_type: FilterColumnType, kind: FilterStorageKind) -> (result:
    GraphResult<()>)
    ensures
        result is Ok <==> form_suits(column_type, kind),
        result matches Err(error) ==> error@ is CorruptFile,
{
    let valid: bool = match kind {
        FilterStorageKind::Dense => true,
        FilterStorageKind::SparseBool => column_type == FilterColumnType::Boolean,
        FilterStorageKind::SparseLookup => column_type == FilterColumnType::Text || column_type
            == FilterColumnType::Uuid,
        FilterStorageKind::SparseOrdered => column_type == FilterColumnType::Numeric || column_type
            == FilterColumnType::Date || column_type == FilterColumnType::Timestamptz,
    };
    if valid {
        Ok(())
    } else {
        Err(corrupt("filter column storage kind does not match its type"))
    }
}

/// Number of columns of a catalog.
pub open spec fn catalog_count(catalog: Seq<u8>) -> nat {
    word(catalog, 0, 4)
}

/// Bytes of all column names.
pub open spec fn catalog_names_len(catalog: Seq<u8>) -> nat {
    word(catalog, 8, 8)
}

/// Where the column names start.
pub open spec fn names_start(catalog: Seq<u8>) -> int {
    16 + 64 * catalog_count(catalog) as int
}

/// A column's descriptor.
pub open spec fn descriptor(catalog: Seq<u8>, column: int) -> Seq<u8> {
    catalog.subrange(16 + 64 * column, 80 + 64 * column)
}

/// Bytes of a column's name.
pub open spec fn name_len(catalog: Seq<u8>, column: int) -> nat {
    word(descriptor(catalog, column), 16, 4)
}

/// Bytes of a column's values.
pub open spec fn data_len(catalog: Seq<u8>, column: int) -> nat {
    word(descriptor(catalog, column), 32, 8)
}

/// Bytes of a column's dictionary.
pub open spec fn dictionary_len(catalog: Seq<u8>, column: int) -> nat {
    word(descriptor(catalog, column), 48, 8)
}

/// Where a column's name stands: after those before it.
pub open spec fn name_at(catalog: Seq<u8>, column: nat) -> int
    decreases column,
{
    if column == 0 {
        0
    } else {
        name_at(catalog, (column - 1) as nat) + name_len(catalog, column - 1)
    }
}

/// Where a column's values stand: after those before it.
pub open spec fn data_at(catalog: Seq<u8>, column: nat) -> int
    decreases column,
{
    if column == 0 {
        0
    } else {
        data_at(catalog, (column - 1) as nat) + data_len(catalog, column - 1)
    }
}

/// Where a column's dictionary stands: after those before it.
pub open spec fn dictionary_at(catalog: Seq<u8>, column: nat) -> int
    decreases column,
{
    if column == 0 {
        0
    } else {
        dictionary_at(catalog, (column - 1) as nat) + dictionary_len(catalog, column - 1)
    }
}

/// The bytes of a column's name.
pub open spec fn name_bytes(catalog: Seq<u8>, column: int) -> Seq<u8> {
    let at = names_start(catalog) + name_at(catalog, column as nat);
    catalog.subrange(at, at + name_len(catalog, column))
}

/// The column that a valid descriptor describes.
pub open spec fn column_meta(catalog: Seq<u8>, column: int) -> ColumnView {
    ColumnView {
        table_oid: word(descriptor(catalog, column), 0, 4) as u32,
        name: decode_utf8(name_bytes(catalog, column)),
        column_type: FilterColumnType::of_tag(descriptor(catalog, column)[4])->Some_0,
    }
}

/// Where the bytes of a column stand, in an artifact whose value section and
/// dictionary section start at the given positions.
pub open spec fn column_place(
    catalog: Seq<u8>,
    column: int,
    data_start: int,
    dictionary_start: int,
) -> MappedColumn {
    let fields = descriptor(catalog, column);
    let data = data_start + data_at(catalog, column as nat);
    let dictionary = dictionary_start + dictionary_at(catalog, column as nat);
    MappedColumn {
        column_type: FilterColumnType::of_tag(fields[4])->Some_0,
        storage_kind: kind_of_tag(fields[5])->Some_0,
        row_count: word(fields, 20, 4) as u32,
        data_start: data as usize,
        data_end: (data + data_len(catalog, column)) as usize,
        dictionary_start: dictionary as usize,
        dictionary_end: (dictionary + dictionary_len(catalog, column)) as usize,
        dictionary_count: word(fields, 56, 4) as u32,
    }
}

/// Whether the fixed part of a descriptor is canonical.
pub open spec fn fields_valid(fields: Seq<u8>) -> bool {
    &&& fields[7] == 0
    &&& fields[60] == 0
    &&& fields[61] == 0
    &&& fields[62] == 0
    &&& fields[63] == 0
    &&& FilterColumnType::of_tag(fields[4]) matches Some(column_type) && kind_of_tag(
        fields[5],
    ) matches Some(kind) && fields[6] == column_type.width() && form_suits(column_type, kind)
}

/// Whether a column is canonical: its name, values and dictionary follow those
/// of the columns before it and hold what its descriptor says.
pub open spec fn column_valid(
    catalog: Seq<u8>,
    data: Seq<u8>,
    dictionaries: Seq<u8>,
    nodes: nat,
    column: int,
) -> bool {
    let fields = descriptor(catalog, column);
    let place = column_place(catalog, column, 0, 0);
    &&& fields_valid(fields)
    &&& word(fields, 8, 8) == name_at(catalog, column as nat)
    &&& names_start(catalog) + name_at(catalog, column as nat) + name_len(catalog, column)
        <= catalog.len()
    &&& valid_utf8(name_bytes(catalog, column))
    &&& word(fields, 24, 8) == data_at(catalog, column as nat)
    &&& data_at(catalog, column as nat) + data_len(catalog, column) <= data.len()
    &&& word(fields, 40, 8) == dictionary_at(catalog, column as nat)
    &&& dictionary_at(catalog, column as nat) + dictionary_len(catalog, column)
        <= dictionaries.len()
    &&& bytes_valid(
        data.subrange(place.data_start as int, place.data_end as int),
        dictionaries.subrange(place.dictionary_start as int, place.dictionary_end as int),
        place,
        nodes,
    )
}

/// Whether a column's values and dictionary are canonical.
pub open spec fn bytes_valid(
    data: Seq<u8>,
    dictionary: Seq<u8>,
    place: MappedColumn,
    nodes: nat,
) -> bool {
    &&& data_valid(
        data,
        place.column_type,
        place.storage_kind,
        place.row_count as nat,
        place.dictionary_count as nat,
        nodes,
    )
    &&& if place.column_type is Text {
        dictionary_valid(dictionary, place.dictionary_count as nat)
    } else {
        dictionary.len() == 0 && place.dictionary_count == 0
    }
}

/// Whether a catalog has as many bytes as its header says.
pub open spec fn header_valid(catalog: Seq<u8>) -> bool {
    &&& 16 <= catalog.len()
    &&& word(catalog, 4, 4) == 64
    &&& names_start(catalog) + catalog_names_len(catalog) == catalog.len()
}

/// Whether no two of the first columns have the same table and name.
pub open spec fn identities_differ(catalog: Seq<u8>, count: int) -> bool {
    forall|i: int, j: int|
        0 <= i < j < count ==> {
            let left = #[trigger] column_meta(catalog, i);
            let right = #[trigger] column_meta(catalog, j);
            left.table_oid != right.table_oid || left.name != right.name
        }
}

/// Whether the three sections are canonical.
pub open spec fn sections_valid(
    catalog: Seq<u8>,
    data: Seq<u8>,
    dictionaries: Seq<u8>,
    nodes: nat,
) -> bool {
    let count = catalog_count(catalog);
    &&& header_valid(catalog)
    &&& forall|column: int|
        0 <= column < count ==> #[trigger] column_valid(catalog, data, dictionaries, nodes, column)
    &&& name_at(catalog, count) == catalog_names_len(catalog)
    &&& data_at(catalog, count) == data.len()
    &&& dictionary_at(catalog, count) == dictionaries.len()
    &&& identities_differ(catalog, count as int)
}

/// Accepts a column's canonical values and dictionary.
pub fn validate_mapped_column(data: &[u8], dictionary: &[u8], place: &MappedColumn, nodes: u32) -> (result:
    GraphResult<()>)
    ensures
        result is Ok <==> bytes_valid(data@, dictionary@, *place, nodes as nat),
        result matches Err(error) ==> error@ is CorruptFile,
{
    if let Err(error) = validate_data(
        data,
        place.column_type,
        place.storage_kind,
        place.row_count,
        place.dictionary_count,
        nodes,
    ) {
        return Err(error);
    }
    if place.column_type == FilterColumnType::Text {
        validate_dictionary(dictionary, place.dictionary_count)
    } else if dictionary.len() != 0 || place.dictionary_count != 0 {
        Err(corrupt("non-text filter column has a dictionary"))
    } else {
        Ok(())
    }
}

/// Reads a field of a descriptor.
fn field(catalog: &[u8], column: u32, at: usize, width: usize) -> (value: u64)
    requires
        80 + 64 * column <= catalog@.len(),
        at + width <= 64,
        width == 4 || width == 8,
    ensures
        value == word(descriptor(catalog@, column as int), at as int, width as int),
        width == 4 ==> value <= u32::MAX,
{
    let length: usize = catalog.len();
    proof {
        lemma_radix_values();
        assert(descriptor(catalog@, column as int).subrange(at as int, at + width)
            =~= catalog@.subrange(16 + 64 * column + at, 16 + 64 * column + at + width));
    }
    read_le(catalog, 16 + 64 * column as usize + at, width) as u64
}

/// What a column's descriptor adds to those before it.
struct ParsedColumn {
    meta: FilterColumnMeta,
    place: MappedColumn,
    name_end: usize,
    data_end: usize,
    dictionary_end: usize,
}

/// Reads and checks one column.
#[verifier::rlimit(40)]
fn parse_column(
    catalog: &[u8],
    data: &[u8],
    dictionaries: &[u8],
    nodes: u32,
    column: u32,
    name_start: usize,
    data_start: usize,
    dictionary_start: usize,
) -> (result: GraphResult<ParsedColumn>)
    requires
        header_valid(catalog@),
        column < catalog_count(catalog@),
        name_start == name_at(catalog@, column as nat),
        names_start(catalog@) + name_start <= catalog@.len(),
        data_start == data_at(catalog@, column as nat),
        data_start <= data@.len(),
        dictionary_start == dictionary_at(catalog@, column as nat),
        dictionary_start <= dictionaries@.len(),
    ensures
        result is Ok <==> column_valid(
            catalog@,
            data@,
            dictionaries@,
            nodes as nat,
            column as int,
        ),
        result matches Err(error) ==> error@ is CorruptFile,
        result matches Ok(parsed) ==> {
            &&& parsed.meta@ == column_meta(catalog@, column as int)
            &&& parsed.place == column_place(catalog@, column as int, 0, 0)
            &&& parsed.name_end == name_at(catalog@, (column + 1) as nat)
            &&& parsed.data_end == data_at(catalog@, (column + 1) as nat)
            &&& parsed.dictionary_end == dictionary_at(catalog@, (column + 1) as nat)
        },
{
    let catalog_length: usize = catalog.len();
    let data_length: usize = data.len();
    let dictionary_length: usize = dictionaries.len();
    let ghost fields = descriptor(catalog@, column as int);
    let base: usize = 16 + 64 * column as usize;
    proof {
        assert(forall|k: int| 0 <= k < 64 ==> fields[k] == catalog@[base + k]);
    }
    if catalog[base + 7] != 0 || catalog[base + 60] != 0 || catalog[base + 61] != 0 || catalog[base
        + 62] != 0 || catalog[base + 63] != 0 {
        return Err(corrupt("filter column has nonzero reserved bytes"));
    }
    let column_type = match FilterColumnType::from_persisted_tag(catalog[base + 4]) {
        Ok(column_type) => column_type,
        Err(error) => return Err(error),
    };
    let storage_kind = match parse_storage_kind(catalog[base + 5]) {
        Ok(kind) => kind,
        Err(error) => return Err(error),
    };
    if catalog[base + 6] as usize != column_type.persisted_width() {
        return Err(corrupt("filter column has an invalid value width"));
    }
    if let Err(error) = validate_storage_kind(column_type, storage_kind) {
        return Err(error);
    }
    let names: usize = 16 + 64 * (read_le(catalog, 0, 4) as usize);
    let name_offset: u64 = field(catalog, column, 8, 8);
    if name_offset != name_start as u64 {
        return Err(corrupt("filter catalog names are not contiguous and canonical"));
    }
    let length: u64 = field(catalog, column, 16, 4);
    if length > (catalog_length - names - name_start) as u64 {
        return Err(corrupt("filter name is outside catalog"));
    }
    let name_end: usize = name_start + length as usize;
    let column_name: String = match utf8_text(
        slice_subrange(catalog, names + name_start, names + name_end),
    ) {
        Some(text) => text.to_owned(),
        None => return Err(corrupt("filter column name is not UTF-8")),
    };
    let row_count: u32 = field(catalog, column, 20, 4) as u32;
    let data_offset: u64 = field(catalog, column, 24, 8);
    let data_size: u64 = field(catalog, column, 32, 8);
    let dictionary_offset: u64 = field(catalog, column, 40, 8);
    let dictionary_size: u64 = field(catalog, column, 48, 8);
    if data_offset != data_start as u64 || dictionary_offset != dictionary_start as u64 {
        return Err(
            corrupt("filter value or dictionary ranges are not contiguous and canonical"),
        );
    }
    if data_size > (data_length - data_start) as u64 {
        return Err(corrupt("filter data range exceeds its section"));
    }
    if dictionary_size > (dictionary_length - dictionary_start) as u64 {
        return Err(corrupt("filter dictionary range exceeds its section"));
    }
    let data_end: usize = data_start + data_size as usize;
    let dictionary_end: usize = dictionary_start + dictionary_size as usize;
    let place = MappedColumn {
        column_type,
        storage_kind,
        row_count,
        data_start,
        data_end,
        dictionary_start,
        dictionary_end,
        dictionary_count: field(catalog, column, 56, 4) as u32,
    };
    assert(place == column_place(catalog@, column as int, 0, 0));
    if let Err(error) = validate_mapped_column(
        slice_subrange(data, data_start, data_end),
        slice_subrange(dictionaries, dictionary_start, dictionary_end),
        &place,
        nodes,
    ) {
        return Err(error);
    }
    let meta = FilterColumnMeta {
        table_oid: field(catalog, column, 0, 4) as u32,
        column_name,
        column_type,
    };
    Ok(ParsedColumn { meta, place, name_end, data_end, dictionary_end })
}

/// Whether a range stands inside a region.
pub open spec fn in_region(range: Range<usize>, length: nat) -> bool {
    range.start <= range.end <= length
}

/// Accepts a range inside a region.
pub fn validate_range(range: &Range<usize>, length: usize, label: &str) -> (result: GraphResult<()>)
    ensures
        result is Ok <==> in_region(*range, length as nat),
        result matches Err(error) ==> error@ == ErrorView::CorruptFile(
            label@ + " range is outside the artifact"@,
        ),
{
    if range.start > range.end || range.end > length {
        Err(
            GraphError::CorruptFile {
                reason: label.to_owned().concat(" range is outside the artifact"),
            },
        )
    } else {
        Ok(())
    }
}

/// Accepts a catalog that has as many bytes as its header says.
fn validate_header(catalog: &[u8]) -> (result: GraphResult<u32>)
    ensures
        result is Ok <==> header_valid(catalog@),
        result matches Err(error) ==> error@ is CorruptFile,
        result matches Ok(count) ==> count == catalog_count(catalog@),
{
    let length: usize = catalog.len();
    if length < FILTER_CATALOG_HEADER_SIZE {
        return Err(corrupt("filter catalog header is truncated"));
    }
    proof {
        lemma_radix_values();
    }
    let count: u32 = read_le(catalog, 0, 4) as u32;
    if read_le(catalog, 4, 4) != FILTER_DESCRIPTOR_SIZE as u128 {
        return Err(corrupt("unexpected filter descriptor size"));
    }
    let names: u128 = read_le(catalog, 8, 8);
    if 16 + 64 * (count as u128) + names != length as u128 {
        return Err(corrupt("filter catalog length does not match its header"));
    }
    Ok(count)
}

/// Whether a listed column has the table and name of one before it.
fn has_duplicate(columns: &Vec<FilterColumnMeta>) -> (found: bool)
    ensures
        found == exists|i: int, j: int|
            0 <= i < j < columns@.len() && (#[trigger] columns@[i]).table_oid == (
            #[trigger] columns@[j]).table_oid && columns@[i].column_name@
                == columns@[j].column_name@,
{
    let mut right: usize = 0;
    while right < columns.len()
        invariant
            right <= columns@.len(),
            forall|i: int, j: int|
                0 <= i < j < right ==> !((#[trigger] columns@[i]).table_oid == (
                #[trigger] columns@[j]).table_oid && columns@[i].column_name@
                    == columns@[j].column_name@),
        decreases columns@.len() - right,
    {
        let mut left: usize = 0;
        while left < right
            invariant
                left <= right < columns@.len(),
                forall|i: int|
                    0 <= i < left ==> !((#[trigger] columns@[i]).table_oid
                        == columns@[right as int].table_oid && columns@[i].column_name@
                        == columns@[right as int].column_name@),
            decreases right - left,
        {
            if columns[left].table_oid == columns[right].table_oid && same_text(
                columns[left].column_name.as_str(),
                columns[right].column_name.as_str(),
            ) {
                assert(columns@[left as int].table_oid == columns@[right as int].table_oid);
                return true;
            }
            left = left + 1;
        }
        right = right + 1;
    }
    false
}

/// The columns of an artifact whose values and dictionaries stay in its bytes.
#[derive(Debug)]
pub struct MappedFilterBase {
    bytes: MappedBytes,
    columns: Vec<MappedColumn>,
    node_count: u32,
}

/// Whether a column's bytes stand in an artifact and are canonical.
pub open spec fn place_valid(bytes: Seq<u8>, place: MappedColumn, nodes: nat) -> bool {
    &&& place.data_start <= place.data_end <= bytes.len()
    &&& place.dictionary_start <= place.dictionary_end <= bytes.len()
    &&& bytes_valid(
        bytes.subrange(place.data_start as int, place.data_end as int),
        bytes.subrange(place.dictionary_start as int, place.dictionary_end as int),
        place,
        nodes,
    )
}

/// The value of a node in a column of an artifact.
pub open spec fn place_value(
    bytes: Seq<u8>,
    place: MappedColumn,
    nodes: nat,
    node: int,
) -> Option<EncodedFilterValue> {
    stored_value(
        bytes.subrange(place.data_start as int, place.data_end as int),
        place.column_type,
        place.storage_kind,
        place.row_count as nat,
        nodes,
        node,
    )
}

/// The texts of a column of an artifact.
pub open spec fn place_texts(bytes: Seq<u8>, place: MappedColumn) -> Seq<Seq<char>> {
    dictionary_texts(
        bytes.subrange(place.dictionary_start as int, place.dictionary_end as int),
        place.dictionary_count as nat,
    )
}

impl MappedFilterBase {
    /// What every base keeps.
    pub closed spec fn wf(&self) -> bool {
        forall|i: int|
            0 <= i < self.columns@.len() ==> place_valid(
                self.bytes@,
                #[trigger] self.columns@[i],
                self.node_count as nat,
            )
    }

    /// The columns.
    pub closed spec fn places(&self) -> Seq<MappedColumn> {
        self.columns@
    }

    /// The artifact.
    pub closed spec fn content(&self) -> Seq<u8> {
        self.bytes@
    }

    /// Number of nodes.
    pub closed spec fn nodes(&self) -> nat {
        self.node_count as nat
    }

    /// The value of a node.
    pub open spec fn at(&self, column: int, node: int) -> Option<EncodedFilterValue> {
        if 0 <= column < self.places().len() {
            place_value(self.content(), self.places()[column], self.nodes(), node)
        } else {
            None
        }
    }

    /// The texts of a column.
    pub open spec fn texts(&self, column: int) -> Seq<Seq<char>> {
        if 0 <= column < self.places().len() && self.places()[column].column_type is Text {
            place_texts(self.content(), self.places()[column])
        } else {
            Seq::empty()
        }
    }

    /// Number of columns.
    pub fn column_count(&self) -> (count: usize)
        ensures
            count == self.places().len(),
    {
        self.columns.len()
    }

    /// Number of nodes.
    pub fn node_count(&self) -> (count: u32)
        ensures
            count == self.nodes(),
    {
        self.node_count
    }

    /// Adds the room of the column list.
    pub fn push_rooms(&self, rooms: &mut Vec<Room>)
        ensures
            adds(
                old(rooms)@,
                final(rooms)@,
                seq![
                    Need::Items {
                        count: self.places().len(),
                        unit: vstd::layout::size_of::<MappedColumn>(),
                    },
                ],
            ),
    {
        push_list(rooms, &self.columns);
    }

    /// The form of a column.
    pub fn storage_kind(&self, column: usize) -> (kind: Option<FilterStorageKind>)
        ensures
            kind == (if column < self.places().len() {
                Some(self.places()[column as int].storage_kind)
            } else {
                None
            }),
    {
        if column < self.columns.len() {
            Some(self.columns[column].storage_kind)
        } else {
            None
        }
    }

    /// Number of texts of a column.
    pub fn text_count(&self, column: usize) -> (count: u32)
        requires
            self.wf(),
        ensures
            count == self.texts(column as int).len(),
            self.places().len() <= column ==> count == 0,
    {
        if column < self.columns.len() {
            assert(place_valid(
                self.bytes@,
                self.columns@[column as int],
                self.node_count as nat,
            ));
            self.columns[column].dictionary_count
        } else {
            0
        }
    }

    /// The value of a node.
    pub fn value(&self, column: usize, node: u32) -> (value: Option<EncodedFilterValue>)
        requires
            self.wf(),
        ensures
            value == self.at(column as int, node as int),
    {
        if column >= self.columns.len() {
            return None;
        }
        let place = self.columns[column];
        assert(place_valid(self.bytes@, place, self.node_count as nat));
        let data = slice_subrange(self.bytes.as_slice(), place.data_start, place.data_end);
        assert(data_valid(
            data@,
            place.column_type,
            place.storage_kind,
            place.row_count as nat,
            place.dictionary_count as nat,
            self.node_count as nat,
        ));
        value_at(
            data,
            place.column_type,
            place.storage_kind,
            place.row_count,
            self.node_count,
            node,
        )
    }

    /// The token of a text.
    pub fn lookup_text(&self, column: usize, text: &str) -> (token: Option<u32>)
        requires
            self.wf(),
        ensures
            match token {
                Some(token) => token < self.texts(column as int).len() && self.texts(
                    column as int,
                )[token as int] == text@,
                None => !self.texts(column as int).contains(text@),
            },
    {
        if column >= self.columns.len() {
            return None;
        }
        let place = self.columns[column];
        if place.column_type != FilterColumnType::Text {
            return None;
        }
        assert(place_valid(self.bytes@, place, self.node_count as nat));
        let dictionary = slice_subrange(
            self.bytes.as_slice(),
            place.dictionary_start,
            place.dictionary_end,
        );
        token_of_text(dictionary, place.dictionary_count, text)
    }

    /// The text of a token.
    pub fn text_value(&self, column: usize, token: u32) -> (text: Option<&str>)
        requires
            self.wf(),
        ensures
            match text {
                Some(value) => token < self.texts(column as int).len() && value@ == self.texts(
                    column as int,
                )[token as int],
                None => token >= self.texts(column as int).len(),
            },
    {
        if column >= self.columns.len() {
            return None;
        }
        let place = self.columns[column];
        if place.column_type != FilterColumnType::Text {
            return None;
        }
        assert(place_valid(self.bytes@, place, self.node_count as nat));
        let dictionary = slice_subrange(
            self.bytes.as_slice(),
            place.dictionary_start,
            place.dictionary_end,
        );
        text_of_token(dictionary, place.dictionary_count, token)
    }

    /// No text of a column occurs twice.
    pub proof fn lemma_texts_different(&self, column: int)
        requires
            self.wf(),
        ensures
            crate::text_dictionary::all_different(self.texts(column)),
            self.texts(column).len() <= u32::MAX,
    {
        if 0 <= column < self.places().len() && self.places()[column].column_type is Text {
            let place = self.places()[column];
            assert(place_valid(self.bytes@, place, self.node_count as nat));
            lemma_dictionary_different(
                self.bytes@.subrange(place.dictionary_start as int, place.dictionary_end as int),
                place.dictionary_count as nat,
            );
        }
    }

    /// Another handle to the same artifact.
    pub fn share(&self) -> (other: Self)
        ensures
            self.wf() ==> other.wf(),
            other.places() == self.places(),
            other.content() == self.content(),
            other.nodes() == self.nodes(),
    {
        let columns = vstd::slice::slice_to_vec(self.columns.as_slice());
        let other = MappedFilterBase {
            bytes: self.bytes.share(),
            columns,
            node_count: self.node_count,
        };
        assert(other.columns@ =~= self.columns@);
        other
    }

    /// Takes over the three filter sections of an artifact. Values and
    /// dictionaries stay in its bytes.
    #[verifier::rlimit(60)]
    pub fn load(
        bytes: MappedBytes,
        catalog_range: Range<usize>,
        data_range: Range<usize>,
        dictionary_range: Range<usize>,
        node_count: u32,
    ) -> (result: GraphResult<(Vec<FilterColumnMeta>, MappedFilterBase)>)
        ensures
            result is Ok <==> {
                &&& in_region(catalog_range, bytes@.len())
                &&& in_region(data_range, bytes@.len())
                &&& in_region(dictionary_range, bytes@.len())
                &&& sections_valid(
                    bytes@.subrange(catalog_range.start as int, catalog_range.end as int),
                    bytes@.subrange(data_range.start as int, data_range.end as int),
                    bytes@.subrange(dictionary_range.start as int, dictionary_range.end as int),
                    node_count as nat,
                )
            },
            result matches Err(error) ==> error@ is CorruptFile,
            result matches Ok((columns, base)) ==> {
                let catalog = bytes@.subrange(
                    catalog_range.start as int,
                    catalog_range.end as int,
                );
                &&& base.wf()
                &&& base.content() == bytes@
                &&& base.nodes() == node_count
                &&& columns@.len() == base.places().len() == catalog_count(catalog)
                &&& forall|i: int|
                    0 <= i < columns@.len() ==> (#[trigger] columns@[i])@ == column_meta(
                        catalog,
                        i,
                    )
                &&& forall|i: int|
                    0 <= i < columns@.len() ==> #[trigger] base.places()[i] == column_place(
                        catalog,
                        i,
                        data_range.start as int,
                        dictionary_range.start as int,
                    )
            },
    {
        let length: usize = bytes.len();
        if let Err(error) = validate_range(&catalog_range, length, "filter catalog") {
            return Err(error);
        }
        if let Err(error) = validate_range(&data_range, length, "filter data") {
            return Err(error);
        }
        if let Err(error) = validate_range(&dictionary_range, length, "filter dictionary") {
            return Err(error);
        }
        let all = bytes.as_slice();
        let catalog = slice_subrange(all, catalog_range.start, catalog_range.end);
        let data = slice_subrange(all, data_range.start, data_range.end);
        let dictionaries = slice_subrange(all, dictionary_range.start, dictionary_range.end);
        let count: u32 = match validate_header(catalog) {
            Ok(count) => count,
            Err(error) => return Err(error),
        };
        let mut columns: Vec<FilterColumnMeta> = Vec::new();
        let mut places: Vec<MappedColumn> = Vec::new();
        let mut name_end: usize = 0;
        let mut data_end: usize = 0;
        let mut dictionary_end: usize = 0;
        let mut column: u32 = 0;
        while column < count
            invariant
                column <= count == catalog_count(catalog@),
                header_valid(catalog@),
                length == bytes@.len(),
                in_region(data_range, bytes@.len()),
                in_region(dictionary_range, bytes@.len()),
                catalog@ == bytes@.subrange(
                    catalog_range.start as int,
                    catalog_range.end as int,
                ),
                data@ == bytes@.subrange(data_range.start as int, data_range.end as int),
                dictionaries@ == bytes@.subrange(
                    dictionary_range.start as int,
                    dictionary_range.end as int,
                ),
                name_end == name_at(catalog@, column as nat),
                data_end == data_at(catalog@, column as nat),
                dictionary_end == dictionary_at(catalog@, column as nat),
                names_start(catalog@) + name_end <= catalog@.len(),
                data_end <= data@.len(),
                dictionary_end <= dictionaries@.len(),
                columns@.len() == places@.len() == column,
                forall|i: int|
                    0 <= i < column ==> #[trigger] column_valid(
                        catalog@,
                        data@,
                        dictionaries@,
                        node_count as nat,
                        i,
                    ),
                forall|i: int|
                    0 <= i < column ==> (#[trigger] columns@[i])@ == column_meta(catalog@, i),
                forall|i: int|
                    0 <= i < column ==> #[trigger] places@[i] == column_place(
                        catalog@,
                        i,
                        data_range.start as int,
                        dictionary_range.start as int,
                    ),
                forall|i: int|
                    0 <= i < column ==> place_valid(
                        bytes@,
                        #[trigger] places@[i],
                        node_count as nat,
                    ),
            decreases count - column,
        {
            let parsed = match parse_column(
                catalog,
                data,
                dictionaries,
                node_count,
                column,
                name_end,
                data_end,
                dictionary_end,
            ) {
                Ok(parsed) => parsed,
                Err(error) => {
                    assert(!column_valid(
                        catalog@,
                        data@,
                        dictionaries@,
                        node_count as nat,
                        column as int,
                    ));
                    return Err(error);
                },
            };
            let local = parsed.place;
            let place = MappedColumn {
                column_type: local.column_type,
                storage_kind: local.storage_kind,
                row_count: local.row_count,
                data_start: data_range.start + local.data_start,
                data_end: data_range.start + local.data_end,
                dictionary_start: dictionary_range.start + local.dictionary_start,
                dictionary_end: dictionary_range.start + local.dictionary_end,
                dictionary_count: local.dictionary_count,
            };
            proof {
                assert(bytes@.subrange(place.data_start as int, place.data_end as int)
                    =~= data@.subrange(local.data_start as int, local.data_end as int));
                assert(bytes@.subrange(
                    place.dictionary_start as int,
                    place.dictionary_end as int,
                ) =~= dictionaries@.subrange(
                    local.dictionary_start as int,
                    local.dictionary_end as int,
                ));
                assert(place_valid(bytes@, place, node_count as nat));
            }
            columns.push(parsed.meta);
            places.push(place);
            name_end = parsed.name_end;
            data_end = parsed.data_end;
            dictionary_end = parsed.dictionary_end;
            column = column + 1;
        }
        let names: usize = catalog.len() - 16 - 64 * (count as usize);
        if name_end != names || data_end != data.len() || dictionary_end != dictionaries.len() {
            return Err(corrupt("filter sections contain unreferenced trailing bytes"));
        }
        if has_duplicate(&columns) {
            proof {
                let (i, j) = choose|i: int, j: int|
                    0 <= i < j < columns@.len() && (#[trigger] columns@[i]).table_oid == (
                    #[trigger] columns@[j]).table_oid && columns@[i].column_name@
                        == columns@[j].column_name@;
                assert(columns@[i]@ == column_meta(catalog@, i));
                assert(columns@[j]@ == column_meta(catalog@, j));
            }
            return Err(corrupt("filter catalog contains duplicate table/column identities"));
        }
        proof {
            assert forall|i: int, j: int| 0 <= i < j < count implies {
                let left = #[trigger] column_meta(catalog@, i);
                let right = #[trigger] column_meta(catalog@, j);
                left.table_oid != right.table_oid || left.name != right.name
            } by {
                assert(columns@[i]@ == column_meta(catalog@, i));
                assert(columns@[j]@ == column_meta(catalog@, j));
            }
        }
        Ok((columns, MappedFilterBase { bytes, columns: places, node_count }))
    }
}

} // verus!
