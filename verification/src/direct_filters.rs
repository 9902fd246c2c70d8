//! Filter sections of a directly built artifact.
use vstd::prelude::*;
use vstd::utf8::{decode_utf8, decode_utf8_encode_utf8, encode_utf8, valid_utf8};

use crate::codec::{
    be_value, lemma_be_bound, lemma_lex_transitive, lemma_radix_values, lex_less, push_bytes,
    push_le, read_be, read_le, sorts_before,
};
use crate::errors::{internal, ErrorView, GraphError, GraphResult};
use crate::filter_catalog::{ColumnView, FILTER_DESCRIPTOR_SIZE};
use crate::filter_column::{decode_value, presence_len, push_value, value_of, word};
use crate::filter_dictionary::{dictionary_bytes, joined_texts, lexical, offset_table, text_end};
use crate::filter_encode::push_descriptor;
use crate::filter_image::{
    catalog_of, column_dictionary, data_bytes, data_of, descriptors_of, dictionaries_of,
    image_valid, lemma_data_part, lemma_dictionary_part, lemma_name_part, names_of, packed,
    populated_count, presence_bytes, slot_bytes, slots_bytes, ColumnImage,
};
use crate::filter_value::{in_domain, EncodedFilterValue, FilterColumnType};
use crate::parts::{
    end_of, end_table, joined, joined_len, lemma_joined_step, push_end_table, push_joined, views,
};
use crate::run_records::{record_views, run_view, RecordView, RunRecord, StagedRun};
use crate::text::{ascii_lower, trim_end, trim_start, utf8_text};

verus! {

/// A filter column that a build registers.
#[derive(Debug)]
pub struct RegisteredFilterColumn {
    pub table_oid: u32,
    pub table_name: String,
    pub column_name: String,
    /// Name of the column's domain.
    pub column_type: String,
}

/// The domain that a registered column names.
pub open spec fn column_domain(column: RegisteredFilterColumn) -> Option<FilterColumnType> {
    FilterColumnType::named(ascii_lower(trim_end(trim_start(column.column_type@))))
}

/// The domains of columns that all name one.
pub open spec fn domains_of(columns: Seq<RegisteredFilterColumn>) -> Seq<FilterColumnType> {
    Seq::new(columns.len(), |i: int| column_domain(columns[i])->Some_0)
}

/// The column that a record is for.
pub open spec fn row_column(record: RecordView) -> int {
    be_value(record.key) as int / 0x1_0000_0000
}

/// The node, or token, that a record is for.
pub open spec fn row_item(record: RecordView) -> int {
    be_value(record.key) as int % 0x1_0000_0000
}

/// The tag of a domain in filter records.
pub open spec fn value_tag(column_type: FilterColumnType) -> u8 {
    match column_type {
        FilterColumnType::Numeric => 1,
        FilterColumnType::Boolean => 2,
        FilterColumnType::Text => 3,
        FilterColumnType::Date => 4,
        FilterColumnType::Timestamptz => 5,
        FilterColumnType::Uuid => 6,
    }
}

/// Whether a record's value is of a domain: its tag, then the value's bytes.
pub open spec fn tagged_valid(column_type: FilterColumnType, value: Seq<u8>) -> bool {
    &&& value.len() == column_type.width() + 1
    &&& value[0] == value_tag(column_type)
    &&& column_type is Boolean ==> value[1] <= 1
}

/// The value of a record.
pub open spec fn tagged_value(column_type: FilterColumnType, value: Seq<u8>) -> EncodedFilterValue {
    value_of(column_type, value.subrange(1, value.len() as int))
}

/// Accepts a record's value of a domain.
pub fn validate_filter_value(column_type: FilterColumnType, value: &[u8]) -> (result: GraphResult<
    EncodedFilterValue,
>)
    ensures
        match result {
            Ok(decoded) => tagged_valid(column_type, value@) && decoded == tagged_value(
                column_type,
                value@,
            ),
            Err(error) => !tagged_valid(column_type, value@) && error@ == ErrorView::Internal(
                if value@.len() != column_type.width() + 1 || value@[0] != value_tag(column_type) {
                    "filter value does not match its registered type"@
                } else {
                    "invalid persisted boolean filter"@
                },
            ),
        },
{
    let tag: u8 = match column_type {
        FilterColumnType::Numeric => 1,
        FilterColumnType::Boolean => 2,
        FilterColumnType::Text => 3,
        FilterColumnType::Date => 4,
        FilterColumnType::Timestamptz => 5,
        FilterColumnType::Uuid => 6,
    };
    let width: usize = column_type.persisted_width();
    if value.len() != width + 1 || value[0] != tag {
        return Err(internal("filter value does not match its registered type"));
    }
    if column_type == FilterColumnType::Boolean && value[1] > 1 {
        return Err(internal("invalid persisted boolean filter"));
    }
    Ok(decode_value(value, 1, column_type))
}

/// Reads the key of a filter or dictionary record: column, then node or token.
pub fn decode_filter_key(key: &[u8]) -> (result: GraphResult<(u32, u32)>)
    ensures
        match result {
            Ok((column, item)) => {
                &&& key@.len() == 8
                &&& column == be_value(key@) as int / 0x1_0000_0000
                &&& item == be_value(key@) as int % 0x1_0000_0000
            },
            Err(error) => key@.len() != 8 && error@ == ErrorView::Internal(
                "invalid filter record key"@,
            ),
        },
{
    if key.len() != 8 {
        return Err(internal("invalid filter record key"));
    }
    proof {
        lemma_radix_values();
        assert(key@.subrange(0, 8) =~= key@);
    }
    let rank: u64 = read_be(key, 0, 8) as u64;
    Ok(((rank / 0x1_0000_0000) as u32, (rank % 0x1_0000_0000) as u32))
}

/// The dictionary values of a column among records.
pub open spec fn column_values(records: Seq<RecordView>, column: int) -> Seq<Seq<u8>>
    decreases records.len(),
{
    if records.len() == 0 {
        Seq::empty()
    } else {
        let rest = column_values(records.drop_last(), column);
        if row_column(records.last()) == column {
            rest.push(records.last().value)
        } else {
            rest
        }
    }
}

/// Whether a record continues a column's dictionary: the next token, and UTF-8
/// that sorts after the column's last text.
pub open spec fn text_valid(
    records: Seq<RecordView>,
    domains: Seq<FilterColumnType>,
    at: int,
) -> bool {
    let record = records[at];
    let column = row_column(record);
    let before = column_values(records.take(at), column);
    &&& record.key.len() == 8
    &&& column < domains.len()
    &&& domains[column] is Text
    &&& row_item(record) == before.len()
    &&& before.len() > 0 ==> lex_less(before.last(), record.value)
    &&& valid_utf8(record.value)
    &&& before.len() < u32::MAX
}

/// Whether records are those of the columns' dictionaries.
pub open spec fn texts_valid(
    records: Seq<RecordView>,
    domains: Seq<FilterColumnType>,
) -> bool {
    forall|i: int| 0 <= i < records.len() ==> #[trigger] text_valid(records, domains, i)
}

/// The texts of a column.
pub open spec fn column_texts(records: Seq<RecordView>, column: int) -> Seq<Seq<char>> {
    Seq::new(
        column_values(records, column).len(),
        |i: int| decode_utf8(column_values(records, column)[i]),
    )
}

/// Whether a record gives a node of a column a value.
pub open spec fn value_valid(
    record: RecordView,
    domains: Seq<FilterColumnType>,
    texts: Seq<RecordView>,
    nodes: nat,
) -> bool {
    let column = row_column(record);
    &&& record.key.len() == 8
    &&& column < domains.len()
    &&& row_item(record) < nodes
    &&& tagged_valid(domains[column], record.value)
    &&& domains[column] is Text ==> word(record.value, 1, 4) < column_values(texts, column).len()
}

/// Whether records give nodes of columns values, in order of columns and nodes.
pub open spec fn values_valid(
    records: Seq<RecordView>,
    domains: Seq<FilterColumnType>,
    texts: Seq<RecordView>,
    nodes: nat,
) -> bool {
    &&& forall|i: int|
        0 <= i < records.len() ==> value_valid(#[trigger] records[i], domains, texts, nodes)
    &&& forall|i: int, j: int|
        0 <= i < j < records.len() ==> be_value((#[trigger] records[i]).key) < be_value(
            (#[trigger] records[j]).key,
        )
}

/// Whether a record is for a node of a column.
pub open spec fn is_row(records: Seq<RecordView>, at: int, column: int, node: int) -> bool {
    &&& 0 <= at < records.len()
    &&& row_column(records[at]) == column
    &&& row_item(records[at]) == node
}

/// The value that records give a node of a column.
pub open spec fn row_value(
    records: Seq<RecordView>,
    column_type: FilterColumnType,
    column: int,
    node: int,
) -> Option<EncodedFilterValue> {
    if exists|at: int| is_row(records, at, column, node) {
        Some(
            tagged_value(
                column_type,
                records[choose|at: int| is_row(records, at, column, node)].value,
            ),
        )
    } else {
        None
    }
}

/// The columns that the records describe, as they are persisted.
pub open spec fn run_images(
    columns: Seq<RegisteredFilterColumn>,
    values: Seq<RecordView>,
    texts: Seq<RecordView>,
    nodes: nat,
) -> Seq<ColumnImage> {
    Seq::new(
        columns.len(),
        |column: int| run_image(columns, values, texts, nodes, column),
    )
}

/// One column that the records describe.
pub open spec fn run_image(
    columns: Seq<RegisteredFilterColumn>,
    values: Seq<RecordView>,
    texts: Seq<RecordView>,
    nodes: nat,
    column: int,
) -> ColumnImage {
    let domain = column_domain(columns[column])->Some_0;
    ColumnImage {
        meta: ColumnView {
            table_oid: columns[column].table_oid,
            name: columns[column].column_name@,
            column_type: domain,
        },
        values: Seq::new(nodes, |node: int| row_value(values, domain, column, node)),
        texts: column_texts(texts, column),
    }
}

/// Whether columns and records can be persisted.
pub open spec fn filters_valid(
    columns: Seq<RegisteredFilterColumn>,
    values: Seq<RecordView>,
    texts: Seq<RecordView>,
    nodes: nat,
) -> bool {
    &&& forall|i: int| 0 <= i < columns.len() ==> column_domain(#[trigger] columns[i]) is Some
    &&& texts_valid(texts, domains_of(columns))
    &&& values_valid(values, domains_of(columns), texts, nodes)
}

/// Whether every registered column names a domain.
pub open spec fn domains_known(columns: Seq<RegisteredFilterColumn>) -> bool {
    forall|i: int| 0 <= i < columns.len() ==> column_domain(#[trigger] columns[i]) is Some
}

/// Reads the domains of registered columns.
pub fn parse_domains(columns: &Vec<RegisteredFilterColumn>) -> (result: GraphResult<
    Vec<FilterColumnType>,
>)
    ensures
        match result {
            Ok(domains) => {
                &&& forall|i: int|
                    0 <= i < columns@.len() ==> column_domain(#[trigger] columns@[i]) is Some
                &&& domains@ == domains_of(columns@)
            },
            Err(error) => {
                &&& error@ is InvalidFilter
                &&& exists|i: int|
                    0 <= i < columns@.len() && column_domain(#[trigger] columns@[i]) is None
            },
        },
{
    let mut domains: Vec<FilterColumnType> = Vec::new();
    let mut at: usize = 0;
    while at < columns.len()
        invariant
            at <= columns@.len(),
            domains@.len() == at,
            forall|i: int| 0 <= i < at ==> column_domain(#[trigger] columns@[i]) is Some,
            forall|i: int|
                0 <= i < at ==> column_domain(columns@[i]) == Some(#[trigger] domains@[i]),
        decreases columns@.len() - at,
    {
        match FilterColumnType::parse(columns[at].column_type.as_str()) {
            Ok(domain) => {
                domains.push(domain);
            },
            Err(reason) => {
                assert(column_domain(columns@[at as int]) is None);
                return Err(GraphError::InvalidFilter { reason });
            },
        }
        at = at + 1;
    }
    assert(domains@ =~= domains_of(columns@));
    Ok(domains)
}

/// The views of lists of slices.
pub open spec fn group_views(groups: Seq<Vec<&[u8]>>, column: int) -> Seq<Seq<u8>> {
    views(groups[column]@)
}

/// Reads the columns' dictionaries.
pub fn inspect_filter_dictionaries<'a>(
    run: Option<&'a StagedRun>,
    domains: &Vec<FilterColumnType>,
) -> (result: GraphResult<Vec<Vec<&'a [u8]>>>)
    ensures
        match result {
            Ok(groups) => {
                &&& texts_valid(run_view(run), domains@)
                &&& groups@.len() == domains@.len()
                &&& forall|column: int|
                    0 <= column < domains@.len() ==> #[trigger] group_views(groups@, column)
                        == column_values(run_view(run), column)
            },
            Err(error) => !texts_valid(run_view(run), domains@) && error@ is Internal,
        },
{
    let mut groups: Vec<Vec<&'a [u8]>> = Vec::new();
    let mut at: usize = 0;
    while at < domains.len()
        invariant
            at <= domains@.len(),
            groups@.len() == at,
            forall|c: int| 0 <= c < at ==> (#[trigger] groups@[c])@.len() == 0,
        decreases domains@.len() - at,
    {
        groups.push(Vec::new());
        at = at + 1;
    }
    let ghost all = run_view(run);
    proof {
        assert(all.take(0) =~= Seq::<RecordView>::empty());
        assert forall|column: int| 0 <= column < domains@.len() implies #[trigger] group_views(
            groups@,
            column,
        ) == column_values(all.take(0), column) by {
            assert(group_views(groups@, column) =~= Seq::<Seq<u8>>::empty());
        }
    }
    let staged: &'a StagedRun = match run {
        Some(staged) => staged,
        None => {
            assert(all =~= all.take(0));
            return Ok(groups);
        },
    };
    let records: &'a Vec<RunRecord> = staged.records();
    let mut at: usize = 0;
    while at < records.len()
        invariant
            at <= records@.len() == all.len(),
            all == run_view(run),
            all == staged@,
            record_views(records@) == all,
            groups@.len() == domains@.len(),
            forall|i: int| 0 <= i < at ==> #[trigger] text_valid(all, domains@, i),
            forall|column: int|
                0 <= column < domains@.len() ==> #[trigger] group_views(groups@, column)
                    == column_values(all.take(at as int), column),
        decreases records@.len() - at,
    {
        assert(all[at as int] == records@[at as int]@);
        let record: &'a RunRecord = &records[at];
        let (column, token) = match decode_filter_key(record.key.as_slice()) {
            Ok(pair) => pair,
            Err(error) => {
                assert(!text_valid(all, domains@, at as int));
                return Err(error);
            },
        };
        let value: &'a [u8] = record.value.as_slice();
        if column as usize >= domains.len() || domains[column as usize]
            != FilterColumnType::Text {
            assert(!text_valid(all, domains@, at as int));
            return Err(internal("dictionary references a non-text filter column"));
        }
        let ghost before = column_values(all.take(at as int), column as int);
        assert(group_views(groups@, column as int) == before);
        let count: usize = groups[column as usize].len();
        if token as usize != count || count >= u32::MAX as usize {
            assert(!text_valid(all, domains@, at as int));
            return Err(internal("filter dictionary is not dense and strictly lexical"));
        }
        if count > 0 {
            let last: &'a [u8] = groups[column as usize][count - 1];
            assert(last@ == before.last());
            if !sorts_before(last, value) {
                assert(!text_valid(all, domains@, at as int));
                return Err(internal("filter dictionary is not dense and strictly lexical"));
            }
        }
        if utf8_text(value).is_none() {
            assert(!text_valid(all, domains@, at as int));
            return Err(internal("filter dictionary is not UTF-8"));
        }
        assert(text_valid(all, domains@, at as int));
        let ghost old_groups = groups@;
        groups[column as usize].push(value);
        proof {
            assert(all.take(at + 1).drop_last() =~= all.take(at as int));
            assert forall|c: int| 0 <= c < domains@.len() implies #[trigger] group_views(
                groups@,
                c,
            ) == column_values(all.take(at + 1), c) by {
                assert(group_views(old_groups, c) == column_values(all.take(at as int), c));
                if c == column {
                    assert(group_views(groups@, c) =~= before.push(value@));
                } else {
                    assert(groups@[c] == old_groups[c]);
                }
            }
        }
        at = at + 1;
    }
    assert(all.take(at as int) =~= all);
    Ok(groups)
}

/// A column's dictionary values are in strict order, and UTF-8.
proof fn lemma_values_lexical(
    records: Seq<RecordView>,
    domains: Seq<FilterColumnType>,
    count: int,
    column: int,
)
    requires
        texts_valid(records, domains),
        0 <= count <= records.len(),
    ensures
        ({
            let values = column_values(records.take(count), column);
            &&& forall|i: int, j: int|
                0 <= i < j < values.len() ==> lex_less(#[trigger] values[i], #[trigger] values[j])
            &&& forall|i: int| 0 <= i < values.len() ==> valid_utf8(#[trigger] values[i])
            &&& values.len() <= u32::MAX
            &&& values.len() > 0 ==> 0 <= column < domains.len() && domains[column] is Text
        }),
    decreases count,
{
    let taken = records.take(count);
    if count > 0 {
        let last = count - 1;
        lemma_values_lexical(records, domains, last, column);
        assert(taken.drop_last() =~= records.take(last));
        assert(text_valid(records, domains, last));
        let before = column_values(records.take(last), column);
        if row_column(taken.last()) == column {
            let values = before.push(taken.last().value);
            lemma_be_bound(records[last].key);
            assert forall|i: int, j: int| 0 <= i < j < values.len() implies lex_less(
                #[trigger] values[i],
                #[trigger] values[j],
            ) by {
                if j == before.len() && i < before.len() - 1 {
                    lemma_lex_transitive(
                        before[i],
                        before[before.len() - 1],
                        taken.last().value,
                    );
                }
            }
        }
    }
}

/// The images of valid records can be persisted.
pub proof fn lemma_run_image_valid(
    columns: Seq<RegisteredFilterColumn>,
    values: Seq<RecordView>,
    texts: Seq<RecordView>,
    nodes: nat,
    column: int,
)
    requires
        filters_valid(columns, values, texts, nodes),
        nodes <= u32::MAX,
        0 <= column < columns.len(),
        encode_utf8(columns[column].column_name@).len() <= u32::MAX,
    ensures
        image_valid(run_image(columns, values, texts, nodes, column), nodes),
        forall|i: int|
            0 <= i < column_values(texts, column).len() ==> encode_utf8(
                #[trigger] column_texts(texts, column)[i],
            ) == column_values(texts, column)[i],
{
    let domains = domains_of(columns);
    let image = run_image(columns, values, texts, nodes, column);
    let bytes = column_values(texts, column);
    assert(texts.take(texts.len() as int) =~= texts);
    lemma_values_lexical(texts, domains, texts.len() as int, column);
    assert forall|i: int| 0 <= i < bytes.len() implies encode_utf8(
        #[trigger] column_texts(texts, column)[i],
    ) == bytes[i] by {
        decode_utf8_encode_utf8(bytes[i]);
    }
    assert(lexical(image.texts)) by {
        assert forall|i: int, j: int| 0 <= i < j < image.texts.len() implies lex_less(
            encode_utf8(#[trigger] image.texts[i]),
            encode_utf8(#[trigger] image.texts[j]),
        ) by {
            assert(lex_less(bytes[i], bytes[j]));
            assert(encode_utf8(column_texts(texts, column)[i]) == bytes[i]);
            assert(encode_utf8(column_texts(texts, column)[j]) == bytes[j]);
        }
    }
    assert forall|node: int| 0 <= node < nodes implies (#[trigger] image.values[node] matches Some(
        value,
    ) ==> {
        &&& in_domain(image.meta.column_type, value)
        &&& value matches EncodedFilterValue::Text(token) ==> token < image.texts.len()
    }) by {
        if exists|at: int| is_row(values, at, column, node) {
            let at = choose|at: int| is_row(values, at, column, node);
            assert(value_valid(values[at], domains, texts, nodes));
            assert(values[at].value.subrange(1, 5) =~= values[at].value.subrange(
                1,
                values[at].value.len() as int,
            ) || !(domains[column] is Text));
            lemma_radix_values();
            if domains[column] is Text {
                crate::codec::lemma_le_bound(values[at].value.subrange(1, 5));
            }
        }
    }
}

/// Whether groups hold the columns' dictionary values.
spec fn groups_hold(groups: Seq<Vec<&[u8]>>, texts: Seq<RecordView>) -> bool {
    forall|column: int|
        0 <= column < groups.len() ==> #[trigger] group_views(groups, column) == column_values(
            texts,
            column,
        )
}

/// Accepts filter records that are in order and fit their columns.
fn validate_values(
    run: Option<&StagedRun>,
    domains: &Vec<FilterColumnType>,
    groups: &Vec<Vec<&[u8]>>,
    node_count: u32,
    Ghost(texts): Ghost<Seq<RecordView>>,
) -> (result: GraphResult<()>)
    requires
        groups@.len() == domains@.len(),
        groups_hold(groups@, texts),
    ensures
        result is Ok <==> values_valid(run_view(run), domains@, texts, node_count as nat),
        result matches Err(error) ==> error@ is Internal,
{
    let ghost all = run_view(run);
    let staged: &StagedRun = match run {
        Some(staged) => staged,
        None => return Ok(()),
    };
    let records: &Vec<RunRecord> = staged.records();
    let mut last: u64 = 0;
    let mut at: usize = 0;
    while at < records.len()
        invariant
            at <= records@.len() == all.len(),
            all == run_view(run),
            record_views(records@) == all,
            groups@.len() == domains@.len(),
            groups_hold(groups@, texts),
            at > 0 ==> last == be_value(all[at - 1].key),
            forall|i: int|
                0 <= i < at ==> value_valid(
                    #[trigger] all[i],
                    domains@,
                    texts,
                    node_count as nat,
                ),
            forall|i: int, j: int|
                0 <= i < j < at ==> be_value((#[trigger] all[i]).key) < be_value(
                    (#[trigger] all[j]).key,
                ),
        decreases records@.len() - at,
    {
        assert(all[at as int] == records@[at as int]@);
        let record: &RunRecord = &records[at];
        let (column, node) = match decode_filter_key(record.key.as_slice()) {
            Ok(pair) => pair,
            Err(error) => {
                assert(!value_valid(all[at as int], domains@, texts, node_count as nat));
                return Err(error);
            },
        };
        let rank: u64 = column as u64 * 0x1_0000_0000 + node as u64;
        assert(rank == be_value(all[at as int].key));
        if at > 0 && last >= rank {
            assert(be_value(all[at - 1].key) >= be_value(all[at as int].key));
            return Err(internal("filter records are not strictly ordered by column and node"));
        }
        if column as usize >= domains.len() {
            assert(!value_valid(all[at as int], domains@, texts, node_count as nat));
            return Err(internal("filter run references unknown column"));
        }
        if node >= node_count {
            assert(!value_valid(all[at as int], domains@, texts, node_count as nat));
            return Err(internal("filter node index is out of bounds"));
        }
        let domain: FilterColumnType = domains[column as usize];
        if let Err(error) = validate_filter_value(domain, record.value.as_slice()) {
            assert(!value_valid(all[at as int], domains@, texts, node_count as nat));
            return Err(error);
        }
        if domain == FilterColumnType::Text {
            proof {
                lemma_radix_values();
                assert(group_views(groups@, column as int) == column_values(texts, column as int));
            }
            let token: u32 = read_le(record.value.as_slice(), 1, 4) as u32;
            if token as usize >= groups[column as usize].len() {
                assert(!value_valid(all[at as int], domains@, texts, node_count as nat));
                return Err(internal("text filter token is outside its dictionary"));
            }
        }
        proof {
            assert(value_valid(all[at as int], domains@, texts, node_count as nat));
            assert forall|i: int, j: int| 0 <= i < j < at + 1 implies be_value(
                (#[trigger] all[i]).key,
            ) < be_value((#[trigger] all[j]).key) by {
                if j == at && i < at - 1 {
                    assert(be_value(all[i].key) < be_value(all[at - 1].key));
                }
            }
        }
        last = rank;
        at = at + 1;
    }
    Ok(())
}

/// The values that records give the nodes of a column.
fn column_row_values(
    run: Option<&StagedRun>,
    column: u32,
    domain: FilterColumnType,
    node_count: u32,
    start: usize,
    Ghost(domains): Ghost<Seq<FilterColumnType>>,
    Ghost(texts): Ghost<Seq<RecordView>>,
) -> (result: (Vec<Option<EncodedFilterValue>>, usize))
    requires
        values_valid(run_view(run), domains, texts, node_count as nat),
        column < domains.len(),
        domains[column as int] == domain,
        start <= run_view(run).len(),
        forall|i: int| 0 <= i < start ==> row_column(#[trigger] run_view(run)[i]) < column,
        forall|i: int|
            start <= i < run_view(run).len() ==> row_column(#[trigger] run_view(run)[i]) >= column,
    ensures
        result.0@ == Seq::new(
            node_count as nat,
            |node: int| row_value(run_view(run), domain, column as int, node),
        ),
        result.1 <= run_view(run).len(),
        forall|i: int| 0 <= i < result.1 ==> row_column(#[trigger] run_view(run)[i]) < column + 1,
        forall|i: int|
            result.1 <= i < run_view(run).len() ==> row_column(#[trigger] run_view(run)[i])
                >= column + 1,
{
    let ghost all = run_view(run);
    let mut values: Vec<Option<EncodedFilterValue>> = Vec::new();
    let mut at: usize = start;
    let mut node: u32 = 0;
    proof {
        assert forall|i: int| 0 <= i < start implies be_value((#[trigger] all[i]).key)
            < column * 0x1_0000_0000 by {
            assert(row_column(all[i]) < column);
        }
        assert forall|i: int| start <= i < all.len() implies be_value((#[trigger] all[i]).key)
            >= column * 0x1_0000_0000 by {
            assert(row_column(all[i]) >= column);
        }
    }
    while node < node_count
        invariant
            node <= node_count,
            all == run_view(run),
            values_valid(all, domains, texts, node_count as nat),
            column < domains.len(),
            domains[column as int] == domain,
            at <= all.len(),
            values@.len() == node,
            forall|n: int|
                0 <= n < node ==> #[trigger] values@[n] == row_value(all, domain, column as int, n),
            forall|i: int|
                0 <= i < at ==> be_value((#[trigger] all[i]).key) < column * 0x1_0000_0000 + node,
            forall|i: int|
                at <= i < all.len() ==> be_value((#[trigger] all[i]).key) >= column * 0x1_0000_0000
                    + node,
        decreases node_count - node,
    {
        let mut value: Option<EncodedFilterValue> = None;
        let ghost here = at;
        let ghost rank = column * 0x1_0000_0000 + node;
        if let Some(staged) = run {
            let records: &Vec<RunRecord> = staged.records();
            if at < records.len() {
                assert(all[at as int] == records@[at as int]@);
                assert(value_valid(all[at as int], domains, texts, node_count as nat));
                if let Ok((found, item)) = decode_filter_key(records[at].key.as_slice()) {
                    if found == column && item == node {
                        if let Ok(decoded) = validate_filter_value(
                            domain,
                            records[at].value.as_slice(),
                        ) {
                            value = Some(decoded);
                            at = at + 1;
                        }
                    }
                }
            }
        }
        proof {
            if at > here {
                assert(is_row(all, here as int, column as int, node as int));
                let chosen = choose|i: int| is_row(all, i, column as int, node as int);
                assert(be_value(all[chosen].key) == rank && be_value(all[here as int].key)
                    == rank);
                if chosen < here {
                    assert(be_value(all[chosen].key) < be_value(all[here as int].key));
                }
                if chosen > here {
                    assert(be_value(all[here as int].key) < be_value(all[chosen].key));
                }
            } else {
                assert forall|i: int| !is_row(all, i, column as int, node as int) by {
                    if is_row(all, i, column as int, node as int) {
                        assert(be_value(all[i].key) == rank);
                        if i > here {
                            assert(be_value(all[here as int].key) < be_value(all[i].key));
                        }
                    }
                }
            }
            assert forall|i: int| at <= i < all.len() implies be_value((#[trigger] all[i]).key)
                >= rank + 1 by {
                if at > here {
                    assert(be_value(all[here as int].key) < be_value(all[i].key));
                } else {
                    assert(!is_row(all, i, column as int, node as int));
                }
            }
        }
        values.push(value);
        node = node + 1;
    }
    proof {
        assert(values@ =~= Seq::new(
            node_count as nat,
            |n: int| row_value(all, domain, column as int, n),
        ));
        assert forall|i: int| 0 <= i < at implies row_column(#[trigger] all[i]) < column + 1 by {
            assert(be_value(all[i].key) < column * 0x1_0000_0000 + node_count);
        }
        assert forall|i: int| at <= i < all.len() implies row_column(#[trigger] all[i]) >= column
            + 1 by {
            assert(value_valid(all[i], domains, texts, node_count as nat));
            assert(be_value(all[i].key) >= column * 0x1_0000_0000 + node_count);
        }
    }
    (values, at)
}

/// Appends dense values: presence bits, then one slot per node. Counts those
/// that are there.
fn push_dense(
    out: &mut Vec<u8>,
    values: &Vec<Option<EncodedFilterValue>>,
    column_type: FilterColumnType,
) -> (populated: u32)
    requires
        values@.len() <= u32::MAX,
    ensures
        final(out)@ == old(out)@ + presence_bytes(values@) + slots_bytes(
            column_type,
            values@,
            values@.len(),
        ),
        populated == populated_count(values@, values@.len()),
{
    let ghost start = out@;
    let count: usize = values.len();
    let length: usize = count / 8 + if count % 8 != 0 {
        1
    } else {
        0
    };
    let mut byte: usize = 0;
    proof {
        assert(start + presence_bytes(values@).take(0) =~= start);
    }
    while byte < length
        invariant
            byte <= length == presence_len(values@.len()),
            count == values@.len() <= u32::MAX,
            out@ == start + presence_bytes(values@).take(byte as int),
        decreases length - byte,
    {
        let mut bits: u8 = 0;
        let mut bit: u8 = 0;
        while bit < 8
            invariant
                bit <= 8,
                byte < length == presence_len(values@.len()),
                count == values@.len() <= u32::MAX,
                bits == packed(values@, 8 * byte as int, bit as nat),
            decreases 8 - bit,
        {
            let node: u64 = 8 * (byte as u64) + bit as u64;
            if node < count as u64 && values[node as usize].is_some() {
                bits = bits | (1u8 << bit);
            } else {
                proof {
                    assert(bits | 0u8 == bits) by (bit_vector);
                }
            }
            bit = bit + 1;
        }
        out.push(bits);
        proof {
            let grown = presence_bytes(values@).take(byte + 1);
            assert(grown =~= presence_bytes(values@).take(byte as int).push(bits));
            assert(out@ =~= start + grown);
        }
        byte = byte + 1;
    }
    proof {
        assert(presence_bytes(values@).take(length as int) =~= presence_bytes(values@));
    }
    let ghost head = out@;
    let width: usize = column_type.persisted_width();
    let mut populated: u32 = 0;
    let mut node: usize = 0;
    proof {
        assert(head + slots_bytes(column_type, values@, 0) =~= head);
    }
    while node < count
        invariant
            node <= count == values@.len() <= u32::MAX,
            width == column_type.width(),
            populated <= node,
            populated == populated_count(values@, node as nat),
            out@ == head + slots_bytes(column_type, values@, node as nat),
        decreases count - node,
    {
        let ghost before = out@;
        match values[node] {
            Some(value) => {
                push_value(out, value);
                populated = populated + 1;
            },
            None => {
                push_zeros(out, width);
            },
        }
        proof {
            assert(out@ =~= before + slot_bytes(column_type, values@[node as int]));
            assert(out@ =~= head + slots_bytes(column_type, values@, (node + 1) as nat));
        }
        node = node + 1;
    }
    populated
}

/// Appends zero bytes.
fn push_zeros(out: &mut Vec<u8>, count: usize)
    ensures
        final(out)@ == old(out)@ + Seq::new(count as nat, |i: int| 0u8),
{
    let ghost start = out@;
    let mut filled: usize = 0;
    while filled < count
        invariant
            filled <= count,
            out@ =~= start + Seq::new(filled as nat, |i: int| 0u8),
        decreases count - filled,
    {
        out.push(0);
        filled = filled + 1;
    }
}

/// The dictionary of texts is that of their bytes.
pub proof fn lemma_dictionary_parts(texts: Seq<Seq<char>>, bytes: Seq<Seq<u8>>)
    requires
        texts.len() == bytes.len(),
        forall|i: int| 0 <= i < texts.len() ==> encode_utf8(#[trigger] texts[i]) == bytes[i],
    ensures
        dictionary_bytes(texts) == end_table(bytes, bytes.len() + 1) + joined(bytes),
{
    lemma_joined_parts(texts, bytes, texts.len());
    lemma_table_parts(texts, bytes, texts.len() + 1);
    assert(bytes.take(bytes.len() as int) =~= bytes);
}

proof fn lemma_joined_parts(texts: Seq<Seq<char>>, bytes: Seq<Seq<u8>>, count: nat)
    requires
        texts.len() == bytes.len(),
        forall|i: int| 0 <= i < texts.len() ==> encode_utf8(#[trigger] texts[i]) == bytes[i],
        count <= texts.len(),
    ensures
        joined_texts(texts, count) == joined(bytes.take(count as int)),
        text_end(texts, count) == end_of(bytes, count as int),
    decreases count,
{
    if count > 0 {
        lemma_joined_parts(texts, bytes, (count - 1) as nat);
        lemma_joined_step(bytes, count - 1);
        assert(encode_utf8(texts[count - 1]) == bytes[count - 1]);
    } else {
        assert(bytes.take(0) =~= Seq::<Seq<u8>>::empty());
    }
}

proof fn lemma_table_parts(texts: Seq<Seq<char>>, bytes: Seq<Seq<u8>>, entries: nat)
    requires
        texts.len() == bytes.len(),
        forall|i: int| 0 <= i < texts.len() ==> encode_utf8(#[trigger] texts[i]) == bytes[i],
        entries <= texts.len() + 1,
    ensures
        offset_table(texts, entries) == end_table(bytes, entries),
    decreases entries,
{
    if entries > 0 {
        lemma_table_parts(texts, bytes, (entries - 1) as nat);
        lemma_joined_parts(texts, bytes, (entries - 1) as nat);
    }
}

/// Whether counts and lengths of columns fit their fields.
pub open spec fn filters_fit(
    columns: Seq<RegisteredFilterColumn>,
    texts: Seq<RecordView>,
) -> bool {
    &&& columns.len() <= u32::MAX
    &&& forall|i: int|
        0 <= i < columns.len() ==> encode_utf8((#[trigger] columns[i]).column_name@).len()
            <= u32::MAX
    &&& forall|column: int|
        0 <= column < columns.len() ==> joined(#[trigger] column_values(texts, column)).len()
            <= u64::MAX
}

/// The filter sections.
pub struct FilterSections {
    pub catalog: Vec<u8>,
    pub data: Vec<u8>,
    pub dictionaries: Vec<u8>,
}

/// The sections while they are written.
struct DirectWriter {
    names: Vec<u8>,
    data: Vec<u8>,
    dictionaries: Vec<u8>,
    descriptors: Vec<u8>,
}

impl DirectWriter {
    /// The sections hold the first columns.
    spec fn holds(&self, images: Seq<ColumnImage>, count: nat) -> bool {
        &&& self.names@ == names_of(images, count)
        &&& self.data@ == data_of(images, count)
        &&& self.dictionaries@ == dictionaries_of(images, count)
        &&& self.descriptors@ == descriptors_of(images, count)
    }
}

/// Writes one column from its values and texts.
#[verifier::rlimit(40)]
fn write_column(
    writer: &mut DirectWriter,
    column: &RegisteredFilterColumn,
    domain: FilterColumnType,
    values: &Vec<Option<EncodedFilterValue>>,
    texts: &Vec<&[u8]>,
    Ghost(images): Ghost<Seq<ColumnImage>>,
    Ghost(at): Ghost<int>,
)
    requires
        0 <= at < images.len(),
        old(writer).holds(images, at as nat),
        values@.len() <= u32::MAX,
        images[at].meta == (ColumnView {
            table_oid: column.table_oid,
            name: column.column_name@,
            column_type: domain,
        }),
        images[at].values == values@,
        images[at].texts.len() == texts@.len(),
        forall|i: int|
            0 <= i < texts@.len() ==> encode_utf8(#[trigger] images[at].texts[i]) == views(
                texts@,
            )[i],
        joined(views(texts@)).len() <= u64::MAX,
    ensures
        final(writer).holds(images, (at + 1) as nat),
{
    let ghost image = images[at];
    proof {
        lemma_name_part(images, at as nat, at);
        lemma_data_part(images, at as nat, at);
        lemma_dictionary_part(images, at as nat, at);
    }
    let name: &[u8] = column.column_name.as_str().as_bytes();
    let name_start: usize = writer.names.len();
    push_bytes(&mut writer.names, name);
    let dictionary_start: usize = writer.dictionaries.len();
    let ghost dictionaries = writer.dictionaries@;
    if domain == FilterColumnType::Text {
        push_end_table(&mut writer.dictionaries, texts);
        push_joined(&mut writer.dictionaries, texts);
        proof {
            lemma_dictionary_parts(image.texts, views(texts@));
        }
    }
    proof {
        assert(writer.dictionaries@ =~= dictionaries + column_dictionary(image));
    }
    let dictionary_length: usize = writer.dictionaries.len() - dictionary_start;
    let data_start: usize = writer.data.len();
    let ghost data = writer.data@;
    let rows: u32 = push_dense(&mut writer.data, values, domain);
    proof {
        assert(writer.data@ =~= data + data_bytes(image));
    }
    let data_length: usize = writer.data.len() - data_start;
    push_descriptor(
        &mut writer.descriptors,
        column.table_oid,
        domain,
        name_start,
        name.len(),
        rows,
        data_start,
        data_length,
        dictionary_start,
        dictionary_length,
        texts.len(),
    );
}

/// Writes the catalog, value and dictionary sections that records describe.
#[verifier::rlimit(40)]
pub fn emit_filter_sections(
    columns: &Vec<RegisteredFilterColumn>,
    values: Option<&StagedRun>,
    texts: Option<&StagedRun>,
    node_count: u32,
) -> (result: GraphResult<FilterSections>)
    ensures
        result is Ok <==> filters_valid(
            columns@,
            run_view(values),
            run_view(texts),
            node_count as nat,
        ) && filters_fit(columns@, run_view(texts)),
        result matches Ok(sections) ==> {
            let images = run_images(
                columns@,
                run_view(values),
                run_view(texts),
                node_count as nat,
            );
            &&& sections.catalog@ == catalog_of(images)
            &&& sections.data@ == data_of(images, images.len())
            &&& sections.dictionaries@ == dictionaries_of(images, images.len())
        },
        result matches Err(error) ==> if domains_known(columns@) {
            error@ is Internal
        } else {
            error@ is InvalidFilter
        },
{
    let domains: Vec<FilterColumnType> = match parse_domains(columns) {
        Ok(domains) => domains,
        Err(error) => return Err(error),
    };
    let groups: Vec<Vec<&[u8]>> = match inspect_filter_dictionaries(texts, &domains) {
        Ok(groups) => groups,
        Err(error) => return Err(error),
    };
    let ghost text_records = run_view(texts);
    let ghost value_records = run_view(values);
    if let Err(error) = validate_values(
        values,
        &domains,
        &groups,
        node_count,
        Ghost(text_records),
    ) {
        return Err(error);
    }
    let count: usize = columns.len();
    if count > u32::MAX as usize {
        return Err(internal("filter catalog exceeds u32"));
    }
    let ghost images = run_images(columns@, value_records, text_records, node_count as nat);
    let mut writer = DirectWriter {
        names: Vec::new(),
        data: Vec::new(),
        dictionaries: Vec::new(),
        descriptors: Vec::new(),
    };
    let mut at: usize = 0;
    let mut start: usize = 0;
    proof {
        assert forall|i: int| 0 <= i < value_records.len() implies row_column(
            #[trigger] value_records[i],
        ) >= 0 by {
            lemma_be_bound(value_records[i].key);
        }
    }
    while at < count
        invariant
            at <= count == columns@.len() == domains@.len() == groups@.len() == images.len(),
            count <= u32::MAX,
            value_records == run_view(values),
            text_records == run_view(texts),
            images == run_images(columns@, value_records, text_records, node_count as nat),
            domains@ == domains_of(columns@),
            filters_valid(columns@, value_records, text_records, node_count as nat),
            groups_hold(groups@, text_records),
            writer.holds(images, at as nat),
            start <= value_records.len(),
            forall|i: int| 0 <= i < start ==> row_column(#[trigger] value_records[i]) < at,
            forall|i: int|
                start <= i < value_records.len() ==> row_column(#[trigger] value_records[i]) >= at,
            forall|i: int|
                0 <= i < at ==> encode_utf8((#[trigger] columns@[i]).column_name@).len()
                    <= u32::MAX,
            forall|column: int|
                0 <= column < at ==> joined(#[trigger] column_values(text_records, column)).len()
                    <= u64::MAX,
        decreases count - at,
    {
        if columns[at].column_name.as_str().as_bytes().len() > u32::MAX as usize {
            assert(encode_utf8(columns@[at as int].column_name@).len() > u32::MAX);
            return Err(internal("filter name exceeds u32"));
        }
        assert(group_views(groups@, at as int) == column_values(text_records, at as int));
        if joined_len(&groups[at]).is_none() {
            assert(joined(column_values(text_records, at as int)).len() > u64::MAX);
            return Err(internal("filter dictionary bytes overflowed"));
        }
        let domain: FilterColumnType = domains[at];
        let (column_values_list, next) = column_row_values(
            values,
            at as u32,
            domain,
            node_count,
            start,
            Ghost(domains@),
            Ghost(text_records),
        );
        proof {
            lemma_run_image_valid(
                columns@,
                value_records,
                text_records,
                node_count as nat,
                at as int,
            );
            assert(column_domain(columns@[at as int]) is Some);
            assert(images[at as int] == run_image(
                columns@,
                value_records,
                text_records,
                node_count as nat,
                at as int,
            ));
            assert(images[at as int].values =~= column_values_list@);
        }
        write_column(
            &mut writer,
            &columns[at],
            domain,
            &column_values_list,
            &groups[at],
            Ghost(images),
            Ghost(at as int),
        );
        start = next;
        at = at + 1;
    }
    proof {
        lemma_name_part(images, count as nat, count as int);
    }
    let mut catalog: Vec<u8> = Vec::new();
    push_le(&mut catalog, count as u128, 4);
    push_le(&mut catalog, FILTER_DESCRIPTOR_SIZE as u128, 4);
    push_le(&mut catalog, writer.names.len() as u128, 8);
    push_bytes(&mut catalog, writer.descriptors.as_slice());
    push_bytes(&mut catalog, writer.names.as_slice());
    proof {
        assert(catalog@ =~= catalog_of(images));
    }
    Ok(
        FilterSections {
            catalog,
            data: writer.data,
            dictionaries: writer.dictionaries,
        },
    )
}

} // verus!
