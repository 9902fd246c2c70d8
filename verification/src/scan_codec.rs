//! Records that scanners stage: filter values, texts, tenants, resolution
//! entries and relationships.
use vstd::prelude::*;
use vstd::string::StringExecFns;
use vstd::utf8::encode_utf8;

use crate::codec::{
    be_bytes, be_value, law_be_order_is_numeric, law_be_read_gives_back_write, le_bytes,
    lemma_be_len, lemma_le_len, lemma_radix_values, lex_less, push_be, push_bytes, push_le,
};
use crate::direct_filters::{row_column, row_item, tagged_valid, tagged_value};
use crate::errors::{internal, ErrorView, GraphError, GraphResult};
use crate::filter_column::{push_value, unsigned, value_bytes};
use crate::filter_value::{in_domain, EncodedFilterValue, FilterColumnType};
use crate::run_records::{RecordView, RunRecord};

verus! {

/// A filter value as a scanner reads it.
#[derive(Debug, PartialEq, Eq)]
pub enum ScannedFilterValue {
    Numeric(i64),
    Boolean(bool),
    Text(String),
    TextToken(u32),
    Date(i64),
    Timestamptz(i64),
    Uuid(u128),
}

/// The tag and payload of a scanned value. Text carries its length.
pub open spec fn scanned_bytes(value: ScannedFilterValue) -> Seq<u8> {
    match value {
        ScannedFilterValue::Numeric(number) => seq![1u8] + le_bytes(unsigned(number), 8),
        ScannedFilterValue::Boolean(flag) => seq![
            2u8,
            if flag {
                1u8
            } else {
                0u8
            },
        ],
        ScannedFilterValue::Text(text) => seq![3u8] + le_bytes(encode_utf8(text@).len(), 4)
            + encode_utf8(text@),
        ScannedFilterValue::TextToken(token) => seq![3u8] + le_bytes(token as nat, 4),
        ScannedFilterValue::Date(number) => seq![4u8] + le_bytes(unsigned(number), 8),
        ScannedFilterValue::Timestamptz(number) => seq![5u8] + le_bytes(unsigned(number), 8),
        ScannedFilterValue::Uuid(uuid) => seq![6u8] + le_bytes(uuid as nat, 16),
    }
}

/// Bytes of a scanned value's payload.
pub open spec fn payload_size(value: ScannedFilterValue) -> nat {
    match value {
        ScannedFilterValue::Boolean(_) => 1,
        ScannedFilterValue::Text(text) => 4 + encode_utf8(text@).len(),
        ScannedFilterValue::TextToken(_) => 4,
        ScannedFilterValue::Uuid(_) => 16,
        _ => 8,
    }
}

/// A scanned value has a tag and its payload.
pub proof fn law_payload_size(value: ScannedFilterValue)
    ensures
        scanned_bytes(value).len() == 1 + payload_size(value),
{
    match value {
        ScannedFilterValue::Numeric(number)
        | ScannedFilterValue::Date(number)
        | ScannedFilterValue::Timestamptz(number) => lemma_le_len(unsigned(number), 8),
        ScannedFilterValue::Text(text) => lemma_le_len(encode_utf8(text@).len(), 4),
        ScannedFilterValue::TextToken(token) => lemma_le_len(token as nat, 4),
        ScannedFilterValue::Uuid(uuid) => lemma_le_len(uuid as nat, 16),
        ScannedFilterValue::Boolean(_) => {},
    }
}

/// The record that gives a node of a column a value.
pub open spec fn filter_record(
    ordinal: nat,
    node: nat,
    value: ScannedFilterValue,
) -> RecordView {
    RecordView { key: be_bytes(ordinal, 4) + be_bytes(node, 4), value: scanned_bytes(value) }
}

/// Builds the record that gives a node of a column a value.
pub fn encode_filter_record(ordinal: u32, node: u32, value: &ScannedFilterValue) -> (result:
    GraphResult<RunRecord>)
    ensures
        match result {
            Ok(record) => record@ == filter_record(ordinal as nat, node as nat, *value) && (
            *value matches ScannedFilterValue::Text(text) ==> encode_utf8(text@).len()
                <= u32::MAX),
            Err(error) => {
                &&& *value matches ScannedFilterValue::Text(text) && encode_utf8(text@).len()
                    > u32::MAX
                &&& error@ == ErrorView::Internal("text filter exceeds u32 bytes"@)
            },
        },
{
    let mut key: Vec<u8> = Vec::new();
    push_be(&mut key, ordinal as u128, 4);
    push_be(&mut key, node as u128, 4);
    proof {
        assert(key@ =~= be_bytes(ordinal as nat, 4) + be_bytes(node as nat, 4));
    }
    let mut encoded: Vec<u8> = Vec::new();
    match value {
        ScannedFilterValue::Numeric(number) => {
            encoded.push(1);
            push_value(&mut encoded, EncodedFilterValue::Numeric(*number));
        },
        ScannedFilterValue::Boolean(flag) => {
            encoded.push(2);
            push_value(&mut encoded, EncodedFilterValue::Boolean(*flag));
        },
        ScannedFilterValue::Text(text) => {
            let bytes: &[u8] = text.as_str().as_bytes();
            if bytes.len() > u32::MAX as usize {
                return Err(internal("text filter exceeds u32 bytes"));
            }
            encoded.push(3);
            push_le(&mut encoded, bytes.len() as u128, 4);
            push_bytes(&mut encoded, bytes);
        },
        ScannedFilterValue::TextToken(token) => {
            encoded.push(3);
            push_value(&mut encoded, EncodedFilterValue::Text(*token));
        },
        ScannedFilterValue::Date(number) => {
            encoded.push(4);
            push_value(&mut encoded, EncodedFilterValue::Date(*number));
        },
        ScannedFilterValue::Timestamptz(number) => {
            encoded.push(5);
            push_value(&mut encoded, EncodedFilterValue::Timestamptz(*number));
        },
        ScannedFilterValue::Uuid(uuid) => {
            encoded.push(6);
            push_value(&mut encoded, EncodedFilterValue::Uuid(*uuid));
        },
    }
    proof {
        assert(encoded@ =~= scanned_bytes(*value));
    }
    Ok(RunRecord::new(key, encoded))
}

/// The encoded form of a scanned value that is no text.
pub open spec fn scanned_encoding(value: ScannedFilterValue) -> EncodedFilterValue {
    match value {
        ScannedFilterValue::Numeric(number) => EncodedFilterValue::Numeric(number),
        ScannedFilterValue::Boolean(flag) => EncodedFilterValue::Boolean(flag),
        ScannedFilterValue::TextToken(token) => EncodedFilterValue::Text(token),
        ScannedFilterValue::Date(number) => EncodedFilterValue::Date(number),
        ScannedFilterValue::Timestamptz(number) => EncodedFilterValue::Timestamptz(number),
        ScannedFilterValue::Uuid(uuid) => EncodedFilterValue::Uuid(uuid),
        ScannedFilterValue::Text(_) => EncodedFilterValue::Text(0),
    }
}

/// Reading a filter record gives back its column, node and value.
pub proof fn law_filter_record_reads_back(
    ordinal: u32,
    node: u32,
    value: ScannedFilterValue,
    column_type: FilterColumnType,
)
    requires
        !(value is Text),
        in_domain(column_type, scanned_encoding(value)),
    ensures
        ({
            let record = filter_record(ordinal as nat, node as nat, value);
            &&& record.key.len() == 8
            &&& row_column(record) == ordinal
            &&& row_item(record) == node
            &&& tagged_valid(column_type, record.value)
            &&& tagged_value(column_type, record.value) == scanned_encoding(value)
        }),
{
    let record = filter_record(ordinal as nat, node as nat, value);
    lemma_pair_key(ordinal as nat, node as nat);
    crate::filter_column::law_value_reads_back(column_type, scanned_encoding(value));
    assert(record.value.subrange(1, record.value.len() as int) =~= value_bytes(
        scanned_encoding(value),
    ));
}

/// A key of two numbers denotes both.
pub proof fn lemma_pair_key(left: nat, right: nat)
    requires
        left <= u32::MAX,
        right <= u32::MAX,
    ensures
        (be_bytes(left, 4) + be_bytes(right, 4)).len() == 8,
        be_value(be_bytes(left, 4) + be_bytes(right, 4)) == left * 0x1_0000_0000 + right,
{
    lemma_radix_values();
    lemma_be_len(left, 4);
    lemma_be_len(right, 4);
    law_be_read_gives_back_write(left, 4);
    law_be_read_gives_back_write(right, 4);
    lemma_be_concat(be_bytes(left, 4), be_bytes(right, 4));
}

/// Bytes after bytes shift the number up.
pub proof fn lemma_be_concat(left: Seq<u8>, right: Seq<u8>)
    ensures
        be_value(left + right) == be_value(left) * crate::codec::radix(right.len()) + be_value(
            right,
        ),
    decreases right.len(),
{
    if right.len() == 0 {
        assert(left + right =~= left);
        assert(crate::codec::radix(0) == 1);
        assert(be_value(left) * 1 == be_value(left)) by (nonlinear_arith);
    } else {
        let both = left + right;
        assert(both.drop_last() =~= left + right.drop_last());
        assert(both.last() == right.last());
        assert(crate::codec::radix(right.len()) == 256 * crate::codec::radix(
            (right.len() - 1) as nat,
        ));
        lemma_be_concat(left, right.drop_last());
        let r = crate::codec::radix((right.len() - 1) as nat);
        assert(256 * (be_value(left) * r + be_value(right.drop_last())) == be_value(left) * (256
            * r) + 256 * be_value(right.drop_last())) by (nonlinear_arith);
    }
}

/// The record of a text that a node of a column has.
pub open spec fn dictionary_record(ordinal: nat, text: Seq<u8>, node: nat) -> RecordView {
    RecordView {
        key: be_bytes(ordinal, 4) + text + seq![0u8] + be_bytes(node, 4),
        value: text,
    }
}

/// Builds the record of a text that a node of a column has.
pub fn encode_dictionary_record(ordinal: u32, text: &str, node: u32) -> (record: RunRecord)
    ensures
        record@ == dictionary_record(ordinal as nat, encode_utf8(text@), node as nat),
{
    let bytes: &[u8] = text.as_bytes();
    let mut key: Vec<u8> = Vec::new();
    push_be(&mut key, ordinal as u128, 4);
    push_bytes(&mut key, bytes);
    key.push(0);
    push_be(&mut key, node as u128, 4);
    let mut value: Vec<u8> = Vec::new();
    push_bytes(&mut value, bytes);
    proof {
        assert(key@ =~= dictionary_record(ordinal as nat, bytes@, node as nat).key);
        assert(value@ =~= bytes@);
    }
    RunRecord::new(key, value)
}

/// The record of a tenant that a node belongs to.
pub open spec fn tenant_record(tenant: Seq<u8>, node: nat) -> RecordView {
    RecordView { key: tenant + seq![0u8] + be_bytes(node, 4), value: tenant }
}

/// Builds the record of a tenant that a node belongs to.
pub fn encode_tenant_dictionary_record(tenant: &str, node: u32) -> (record: RunRecord)
    ensures
        record@ == tenant_record(encode_utf8(tenant@), node as nat),
{
    let bytes: &[u8] = tenant.as_bytes();
    let mut key: Vec<u8> = Vec::new();
    push_bytes(&mut key, bytes);
    key.push(0);
    push_be(&mut key, node as u128, 4);
    let mut value: Vec<u8> = Vec::new();
    push_bytes(&mut value, bytes);
    proof {
        assert(key@ =~= tenant_record(bytes@, node as nat).key);
        assert(value@ =~= bytes@);
    }
    RunRecord::new(key, value)
}

/// The hash of a primary key's bytes.
pub uninterp spec fn key_hash(bytes: Seq<u8>) -> u64;

/// `xxhash_rust::xxh3::xxh3_64` is a function of the bytes alone.
#[verifier::external_body]
pub(crate) fn hash_bytes(bytes: &[u8]) -> (hash: u64)
    ensures
        hash == key_hash(bytes@),
{
    xxhash_rust::xxh3::xxh3_64(bytes)
}

/// The hash of a primary key.
pub fn hash_pk(primary_key: &str) -> (hash: u64)
    ensures
        hash == key_hash(encode_utf8(primary_key@)),
{
    hash_bytes(primary_key.as_bytes())
}

/// The resolution entry of a node: table, hash and node, in an order that sorts
/// and as it is stored.
pub open spec fn resolution_record(table: nat, hash: nat, node: nat) -> RecordView {
    RecordView {
        key: be_bytes(table, 4) + be_bytes(hash, 8) + be_bytes(node, 4),
        value: le_bytes(table, 4) + le_bytes(hash, 8) + le_bytes(node, 4),
    }
}

/// Builds the resolution entry of a node whose key has a hash.
pub fn encode_resolution_entry(node: u32, table: u32, hash: u64) -> (record: RunRecord)
    ensures
        record@ == resolution_record(table as nat, hash as nat, node as nat),
        record@.key.len() == 16,
        record@.value.len() == 16,
{
    let mut key: Vec<u8> = Vec::new();
    push_be(&mut key, table as u128, 4);
    push_be(&mut key, hash as u128, 8);
    push_be(&mut key, node as u128, 4);
    let mut value: Vec<u8> = Vec::new();
    push_le(&mut value, table as u128, 4);
    push_le(&mut value, hash as u128, 8);
    push_le(&mut value, node as u128, 4);
    proof {
        let record = resolution_record(table as nat, hash as nat, node as nat);
        assert(key@ =~= record.key);
        assert(value@ =~= record.value);
        lemma_be_len(table as nat, 4);
        lemma_be_len(hash as nat, 8);
        lemma_be_len(node as nat, 4);
        lemma_le_len(table as nat, 4);
        lemma_le_len(hash as nat, 8);
        lemma_le_len(node as nat, 4);
    }
    RunRecord::new(key, value)
}

/// Builds the resolution entry of a node.
pub fn encode_resolution_record(node: u32, table: u32, primary_key: &str) -> (record: RunRecord)
    ensures
        record@ == resolution_record(
            table as nat,
            key_hash(encode_utf8(primary_key@)) as nat,
            node as nat,
        ),
        record@.key.len() == 16,
        record@.value.len() == 16,
{
    encode_resolution_entry(node, table, hash_pk(primary_key))
}

/// Resolution entries sort by table, then by hash, then by node.
pub proof fn law_resolution_order(
    table: u32,
    hash: u64,
    node: u32,
    other_table: u32,
    other_hash: u64,
    other_node: u32,
)
    ensures
        lex_less(
            resolution_record(table as nat, hash as nat, node as nat).key,
            resolution_record(other_table as nat, other_hash as nat, other_node as nat).key,
        ) <==> (table < other_table || (table == other_table && (hash < other_hash || (hash
            == other_hash && node < other_node)))),
{
    lemma_radix_values();
    let left = be_bytes(node as nat, 4);
    let right = be_bytes(other_node as nat, 4);
    let none = Seq::<u8>::empty();
    assert(left + none =~= left);
    assert(right + none =~= right);
    law_be_order_is_numeric(node as nat, other_node as nat, 4, none, none);
    law_be_order_is_numeric(hash as nat, other_hash as nat, 8, left, right);
    law_be_order_is_numeric(
        table as nat,
        other_table as nat,
        4,
        be_bytes(hash as nat, 8) + left,
        be_bytes(other_hash as nat, 8) + right,
    );
    assert(resolution_record(table as nat, hash as nat, node as nat).key =~= be_bytes(
        table as nat,
        4,
    ) + (be_bytes(hash as nat, 8) + left));
    assert(resolution_record(other_table as nat, other_hash as nat, other_node as nat).key
        =~= be_bytes(other_table as nat, 4) + (be_bytes(other_hash as nat, 8) + right));
}

/// Filter records sort by column, then by node.
pub proof fn law_filter_order(
    ordinal: u32,
    node: u32,
    other_ordinal: u32,
    other_node: u32,
    value: ScannedFilterValue,
    other_value: ScannedFilterValue,
)
    ensures
        lex_less(
            filter_record(ordinal as nat, node as nat, value).key,
            filter_record(other_ordinal as nat, other_node as nat, other_value).key,
        ) <==> (ordinal < other_ordinal || (ordinal == other_ordinal && node < other_node)),
{
    lemma_radix_values();
    let left = be_bytes(node as nat, 4);
    let right = be_bytes(other_node as nat, 4);
    let none = Seq::<u8>::empty();
    assert(left + none =~= left);
    assert(right + none =~= right);
    law_be_order_is_numeric(node as nat, other_node as nat, 4, none, none);
    law_be_order_is_numeric(ordinal as nat, other_ordinal as nat, 4, left, right);
}

/// The value of a hexadecimal digit.
pub open spec fn hex_digit(byte: u8) -> Option<nat> {
    if 0x30 <= byte <= 0x39 {
        Some((byte - 0x30) as nat)
    } else if 0x41 <= byte <= 0x46 {
        Some((byte - 0x41 + 10) as nat)
    } else if 0x61 <= byte <= 0x66 {
        Some((byte - 0x61 + 10) as nat)
    } else {
        None
    }
}

/// Bytes without dashes.
pub open spec fn without_dashes(bytes: Seq<u8>) -> Seq<u8>
    decreases bytes.len(),
{
    if bytes.len() == 0 {
        Seq::empty()
    } else if bytes.last() == 0x2d {
        without_dashes(bytes.drop_last())
    } else {
        without_dashes(bytes.drop_last()).push(bytes.last())
    }
}

/// The number that hexadecimal digits denote.
pub open spec fn hex_value(bytes: Seq<u8>) -> nat
    decreases bytes.len(),
{
    if bytes.len() == 0 {
        0
    } else {
        16 * hex_value(bytes.drop_last()) + hex_digit(bytes.last())->Some_0
    }
}

/// Whether text denotes a UUID: thirty-two hexadecimal digits, and dashes.
pub open spec fn is_uuid_text(text: Seq<char>) -> bool {
    let digits = without_dashes(encode_utf8(text));
    &&& digits.len() == 32
    &&& forall|i: int| 0 <= i < digits.len() ==> hex_digit(#[trigger] digits[i]) is Some
}

/// Sixteen to a power.
pub open spec fn sixteens(count: nat) -> nat
    decreases count,
{
    if count == 0 {
        1
    } else {
        16 * sixteens((count - 1) as nat)
    }
}

pub proof fn lemma_hex_bound(bytes: Seq<u8>)
    requires
        forall|i: int| 0 <= i < bytes.len() ==> hex_digit(#[trigger] bytes[i]) is Some,
    ensures
        hex_value(bytes) < sixteens(bytes.len()),
    decreases bytes.len(),
{
    if bytes.len() > 0 {
        let rest = bytes.drop_last();
        assert forall|i: int| 0 <= i < rest.len() implies hex_digit(#[trigger] rest[i]) is Some by {
            assert(rest[i] == bytes[i]);
        }
        lemma_hex_bound(rest);
        assert(hex_digit(bytes[bytes.len() - 1]) is Some);
    }
}

proof fn lemma_sixteens_grow(small: nat, large: nat)
    requires
        small <= large,
    ensures
        sixteens(small) <= sixteens(large),
        sixteens(32) == 0x1_0000_0000_0000_0000_0000_0000_0000_0000,
    decreases large,
{
    reveal_with_fuel(sixteens, 33);
    if small < large {
        lemma_sixteens_grow(small, (large - 1) as nat);
    }
}

/// Reads a UUID.
pub fn parse_uuid(value: &str) -> (result: GraphResult<u128>)
    ensures
        match result {
            Ok(uuid) => is_uuid_text(value@) && uuid == hex_value(
                without_dashes(encode_utf8(value@)),
            ),
            Err(error) => !is_uuid_text(value@) && error@ == ErrorView::InvalidFilter(
                "invalid UUID filter value '"@ + value@ + "'"@,
            ),
        },
{
    let bytes: &[u8] = value.as_bytes();
    let mut digits: Vec<u8> = Vec::new();
    let mut at: usize = 0;
    proof {
        assert(bytes@.take(0).len() == 0);
        assert(digits@ =~= without_dashes(bytes@.take(0)));
    }
    while at < bytes.len()
        invariant
            at <= bytes@.len(),
            digits@ == without_dashes(bytes@.take(at as int)),
        decreases bytes@.len() - at,
    {
        proof {
            assert(bytes@.take(at + 1).drop_last() =~= bytes@.take(at as int));
        }
        if bytes[at] != 0x2d {
            digits.push(bytes[at]);
        }
        at = at + 1;
    }
    proof {
        assert(bytes@.take(at as int) =~= bytes@);
    }
    let mut valid: bool = digits.len() == 32;
    let mut uuid: u128 = 0;
    let mut at: usize = 0;
    proof {
        assert(digits@.take(0).len() == 0);
    }
    while valid && at < digits.len()
        invariant
            at <= digits@.len(),
            digits@ == without_dashes(encode_utf8(value@)),
            valid ==> digits@.len() == 32,
            valid ==> forall|i: int| 0 <= i < at ==> hex_digit(#[trigger] digits@[i]) is Some,
            valid ==> uuid == hex_value(digits@.take(at as int)),
            !valid ==> !is_uuid_text(value@),
        decreases digits@.len() - at,
    {
        let byte: u8 = digits[at];
        let ghost taken = digits@.take(at + 1);
        proof {
            assert(taken.drop_last() =~= digits@.take(at as int));
        }
        let digit: u8 = if 0x30 <= byte && byte <= 0x39 {
            byte - 0x30
        } else if 0x41 <= byte && byte <= 0x46 {
            byte - 0x41 + 10
        } else if 0x61 <= byte && byte <= 0x66 {
            byte - 0x61 + 10
        } else {
            16
        };
        if digit == 16 {
            assert(hex_digit(digits@[at as int]) is None);
            valid = false;
        } else {
            proof {
                assert forall|i: int| 0 <= i < taken.len() implies hex_digit(
                    #[trigger] taken[i],
                ) is Some by {
                    assert(taken[i] == digits@[i]);
                }
                lemma_hex_bound(taken);
                lemma_sixteens_grow(taken.len(), 32);
            }
            uuid = 16 * uuid + digit as u128;
        }
        at = at + 1;
    }
    if !valid {
        return Err(
            GraphError::InvalidFilter {
                reason: "invalid UUID filter value '".to_owned().concat(value).concat("'"),
            },
        );
    }
    proof {
        assert(digits@.take(at as int) =~= digits@);
    }
    Ok(uuid)
}

} // verus!
