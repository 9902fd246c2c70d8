//! The bytes of one persisted filter column: values, presence bits, sparse rows
//! and the lexical dictionary of a text column.
use vstd::prelude::*;

use crate::codec::{
    law_le_read_gives_back_write, le_bytes, le_value, lemma_le_len, lemma_radix_values, push_le,
    read_le,
};
use crate::errors::{corrupt, ErrorView, GraphResult};
use crate::filter_storage::FilterStorageKind;
use crate::filter_value::{in_domain, EncodedFilterValue, FilterColumnType};
use crate::node_store::bit_of;

verus! {

/// The number that `width` bytes from a position denote.
pub open spec fn word(bytes: Seq<u8>, at: int, width: int) -> nat {
    le_value(bytes.subrange(at, at + width))
}

/// A two's complement number of eight bytes.
pub open spec fn signed(value: nat) -> i64 {
    if value < 0x8000_0000_0000_0000 {
        value as i64
    } else {
        (value - 0x1_0000_0000_0000_0000) as i64
    }
}

/// The unsigned number with the same eight bytes.
pub open spec fn unsigned(value: i64) -> nat {
    if value >= 0 {
        value as nat
    } else {
        (value + 0x1_0000_0000_0000_0000) as nat
    }
}

/// The unsigned number with the same eight bytes.
pub fn to_unsigned(value: i64) -> (result: u64)
    ensures
        result == unsigned(value),
{
    if value >= 0 {
        value as u64
    } else {
        (value as i128 + 0x1_0000_0000_0000_0000i128) as u64
    }
}

/// The two's complement number with the same eight bytes.
pub fn to_signed(value: u64) -> (result: i64)
    ensures
        result == signed(value as nat),
{
    if value < 0x8000_0000_0000_0000 {
        value as i64
    } else {
        (value as i128 - 0x1_0000_0000_0000_0000i128) as i64
    }
}

/// Two's complement keeps the number.
pub proof fn law_signed_reads_back(value: i64)
    ensures
        unsigned(value) < 0x1_0000_0000_0000_0000,
        signed(unsigned(value)) == value,
{
}

/// The bytes of a value.
pub open spec fn value_bytes(value: EncodedFilterValue) -> Seq<u8> {
    match value {
        EncodedFilterValue::Numeric(number) => le_bytes(unsigned(number), 8),
        EncodedFilterValue::Date(number) => le_bytes(unsigned(number), 8),
        EncodedFilterValue::Timestamptz(number) => le_bytes(unsigned(number), 8),
        EncodedFilterValue::Boolean(flag) => seq![
            if flag {
                1u8
            } else {
                0u8
            },
        ],
        EncodedFilterValue::Text(token) => le_bytes(token as nat, 4),
        EncodedFilterValue::Uuid(uuid) => le_bytes(uuid as nat, 16),
    }
}

/// The value that bytes of a column's width denote.
pub open spec fn value_of(column_type: FilterColumnType, bytes: Seq<u8>) -> EncodedFilterValue {
    match column_type {
        FilterColumnType::Numeric => EncodedFilterValue::Numeric(signed(le_value(bytes))),
        FilterColumnType::Date => EncodedFilterValue::Date(signed(le_value(bytes))),
        FilterColumnType::Timestamptz => EncodedFilterValue::Timestamptz(signed(le_value(bytes))),
        FilterColumnType::Boolean => EncodedFilterValue::Boolean(bytes[0] != 0),
        FilterColumnType::Text => EncodedFilterValue::Text(le_value(bytes) as u32),
        FilterColumnType::Uuid => EncodedFilterValue::Uuid(le_value(bytes) as u128),
    }
}

/// Whether bytes of a column's width denote a value: a truth value is zero or
/// one, a token is in the dictionary.
pub open spec fn value_accepted(
    column_type: FilterColumnType,
    bytes: Seq<u8>,
    texts: nat,
) -> bool {
    match column_type {
        FilterColumnType::Boolean => bytes[0] <= 1,
        FilterColumnType::Text => le_value(bytes) < texts,
        _ => true,
    }
}

/// Reading the bytes of a value gives back the value.
pub proof fn law_value_reads_back(column_type: FilterColumnType, value: EncodedFilterValue)
    requires
        in_domain(column_type, value),
    ensures
        value_bytes(value).len() == column_type.width(),
        value_of(column_type, value_bytes(value)) == value,
        value matches EncodedFilterValue::Text(token) ==> le_value(value_bytes(value)) == token,
        value is Boolean ==> value_bytes(value)[0] <= 1,
{
    lemma_radix_values();
    match value {
        EncodedFilterValue::Numeric(number)
        | EncodedFilterValue::Date(number)
        | EncodedFilterValue::Timestamptz(number) => {
            law_signed_reads_back(number);
            lemma_le_len(unsigned(number), 8);
            law_le_read_gives_back_write(unsigned(number), 8);
        },
        EncodedFilterValue::Text(token) => {
            lemma_le_len(token as nat, 4);
            law_le_read_gives_back_write(token as nat, 4);
        },
        EncodedFilterValue::Uuid(uuid) => {
            lemma_le_len(uuid as nat, 16);
            law_le_read_gives_back_write(uuid as nat, 16);
        },
        EncodedFilterValue::Boolean(_) => {},
    }
}

/// Appends the bytes of a value.
pub fn push_value(out: &mut Vec<u8>, value: EncodedFilterValue)
    ensures
        final(out)@ == old(out)@ + value_bytes(value),
{
    match value {
        EncodedFilterValue::Numeric(number) => push_le(out, to_unsigned(number) as u128, 8),
        EncodedFilterValue::Date(number) => push_le(out, to_unsigned(number) as u128, 8),
        EncodedFilterValue::Timestamptz(number) => push_le(out, to_unsigned(number) as u128, 8),
        EncodedFilterValue::Boolean(flag) => {
            let ghost start = out@;
            out.push(
                if flag {
                    1u8
                } else {
                    0u8
                },
            );
            assert(out@ =~= start + value_bytes(value));
        },
        EncodedFilterValue::Text(token) => push_le(out, token as u128, 4),
        EncodedFilterValue::Uuid(uuid) => push_le(out, uuid, 16),
    }
}

/// The value at a position of a column's bytes.
pub fn decode_value(bytes: &[u8], at: usize, column_type: FilterColumnType) -> (value:
    EncodedFilterValue)
    requires
        at + column_type.width() <= bytes@.len(),
    ensures
        value == value_of(column_type, bytes@.subrange(at as int, at + column_type.width())),
{
    proof {
        lemma_radix_values();
    }
    match column_type {
        FilterColumnType::Numeric => EncodedFilterValue::Numeric(
            to_signed(read_le(bytes, at, 8) as u64),
        ),
        FilterColumnType::Date => EncodedFilterValue::Date(to_signed(read_le(bytes, at, 8) as u64)),
        FilterColumnType::Timestamptz => EncodedFilterValue::Timestamptz(
            to_signed(read_le(bytes, at, 8) as u64),
        ),
        FilterColumnType::Boolean => EncodedFilterValue::Boolean(bytes[at] != 0),
        FilterColumnType::Text => EncodedFilterValue::Text(read_le(bytes, at, 4) as u32),
        FilterColumnType::Uuid => EncodedFilterValue::Uuid(read_le(bytes, at, 16)),
    }
}

/// Accepts bytes that denote a value of a column.
pub fn validate_value(bytes: &[u8], at: usize, column_type: FilterColumnType, texts: u32) -> (result:
    GraphResult<()>)
    requires
        at + column_type.width() <= bytes@.len(),
    ensures
        result is Ok <==> value_accepted(
            column_type,
            bytes@.subrange(at as int, at + column_type.width()),
            texts as nat,
        ),
        result matches Err(error) ==> error@ == ErrorView::CorruptFile(
            match column_type {
                FilterColumnType::Boolean => "boolean filter value is not 0 or 1"@,
                _ => "text filter token is outside its dictionary"@,
            },
        ),
{
    match column_type {
        FilterColumnType::Boolean => {
            if bytes[at] > 1 {
                return Err(corrupt("boolean filter value is not 0 or 1"));
            }
        },
        FilterColumnType::Text => {
            if read_le(bytes, at, 4) >= texts as u128 {
                return Err(corrupt("text filter token is outside its dictionary"));
            }
        },
        _ => {},
    }
    Ok(())
}

/// Number of bytes that hold one bit per node.
pub open spec fn presence_len(nodes: nat) -> nat {
    (nodes + 7) / 8
}

/// Whether the presence bit of a node is set.
pub open spec fn is_present(data: Seq<u8>, node: int) -> bool {
    bit_of(data[node / 8], node % 8)
}

/// How many of the first nodes are present.
pub open spec fn present_count(data: Seq<u8>, nodes: nat) -> nat
    decreases nodes,
{
    if nodes == 0 {
        0
    } else {
        present_count(data, (nodes - 1) as nat) + if is_present(data, nodes - 1) {
            1nat
        } else {
            0nat
        }
    }
}

/// The bytes of a node's slot in a dense column.
pub open spec fn slot(data: Seq<u8>, column_type: FilterColumnType, nodes: nat, node: int) -> Seq<
    u8,
> {
    let at = presence_len(nodes) + node * column_type.width();
    data.subrange(at, at + column_type.width())
}

/// Whether dense bytes are canonical: presence bits, then one slot per node.
pub open spec fn dense_valid(
    data: Seq<u8>,
    column_type: FilterColumnType,
    rows: nat,
    texts: nat,
    nodes: nat,
) -> bool {
    &&& data.len() == presence_len(nodes) + nodes * column_type.width()
    &&& forall|bit: int|
        nodes <= bit < 8 * presence_len(nodes) ==> !#[trigger] is_present(data, bit)
    &&& present_count(data, nodes) == rows
    &&& forall|node: int|
        0 <= node < nodes && #[trigger] is_present(data, node) ==> value_accepted(
            column_type,
            slot(data, column_type, nodes, node),
            texts,
        )
}

/// The node of a sparse row.
pub open spec fn row_node(data: Seq<u8>, column_type: FilterColumnType, row: int) -> nat {
    word(data, row * (4 + column_type.width()), 4)
}

/// The value bytes of a sparse row.
pub open spec fn row_value(data: Seq<u8>, column_type: FilterColumnType, row: int) -> Seq<u8> {
    let at = row * (4 + column_type.width()) + 4;
    data.subrange(at, at + column_type.width())
}

/// Whether sparse bytes are canonical: rows of strictly increasing nodes.
pub open spec fn sparse_valid(
    data: Seq<u8>,
    column_type: FilterColumnType,
    rows: nat,
    texts: nat,
    nodes: nat,
) -> bool {
    &&& data.len() == rows * (4 + column_type.width())
    &&& forall|row: int| 0 <= row < rows ==> #[trigger] row_node(data, column_type, row) < nodes
    &&& forall|low: int, high: int|
        0 <= low < high < rows ==> #[trigger] row_node(data, column_type, low)
            < #[trigger] row_node(data, column_type, high)
    &&& forall|row: int|
        0 <= row < rows ==> value_accepted(
            column_type,
            #[trigger] row_value(data, column_type, row),
            texts,
        )
}

/// Whether a form suits a column's domain.
pub open spec fn form_suits(column_type: FilterColumnType, kind: FilterStorageKind) -> bool {
    match kind {
        FilterStorageKind::Dense => true,
        FilterStorageKind::SparseBool => column_type is Boolean,
        FilterStorageKind::SparseLookup => column_type is Text || column_type is Uuid,
        FilterStorageKind::SparseOrdered => column_type is Numeric || column_type is Date
            || column_type is Timestamptz,
    }
}

/// Whether a column's value bytes are canonical.
pub open spec fn data_valid(
    data: Seq<u8>,
    column_type: FilterColumnType,
    kind: FilterStorageKind,
    rows: nat,
    texts: nat,
    nodes: nat,
) -> bool {
    if kind is Dense {
        dense_valid(data, column_type, rows, texts, nodes)
    } else {
        sparse_valid(data, column_type, rows, texts, nodes)
    }
}

/// The row of a node, if a sparse column has one.
pub open spec fn has_row(
    data: Seq<u8>,
    column_type: FilterColumnType,
    rows: nat,
    node: int,
    row: int,
) -> bool {
    0 <= row < rows && row_node(data, column_type, row) == node
}

/// The value of a node in a column's bytes.
pub open spec fn stored_value(
    data: Seq<u8>,
    column_type: FilterColumnType,
    kind: FilterStorageKind,
    rows: nat,
    nodes: nat,
    node: int,
) -> Option<EncodedFilterValue> {
    if node >= nodes {
        None
    } else if kind is Dense {
        if is_present(data, node) {
            Some(value_of(column_type, slot(data, column_type, nodes, node)))
        } else {
            None
        }
    } else if exists|row: int| has_row(data, column_type, rows, node, row) {
        let row = choose|row: int| has_row(data, column_type, rows, node, row);
        Some(value_of(column_type, row_value(data, column_type, row)))
    } else {
        None
    }
}

/// Whether a presence bit is set.
fn present(data: &[u8], node: usize) -> (result: bool)
    requires
        node / 8 < data@.len(),
    ensures
        result == is_present(data@, node as int),
{
    let shift: u8 = (node % 8) as u8;
    (data[node / 8] >> shift) & 1u8 == 1u8
}

proof fn lemma_slot_bounds(column_type: FilterColumnType, nodes: nat, node: int)
    requires
        0 <= node < nodes,
    ensures
        0 <= node * column_type.width(),
        node * column_type.width() + column_type.width() <= nodes * column_type.width(),
{
    let width = column_type.width() as int;
    assert(node * width + width <= nodes * width) by (nonlinear_arith)
        requires
            0 <= node < nodes,
            width >= 0,
    ;
    assert(0 <= node * width) by (nonlinear_arith)
        requires
            0 <= node,
            width >= 0,
    ;
}

fn validate_dense(
    data: &[u8],
    column_type: FilterColumnType,
    rows: u32,
    texts: u32,
    nodes: u32,
) -> (result: GraphResult<()>)
    ensures
        result is Ok <==> dense_valid(
            data@,
            column_type,
            rows as nat,
            texts as nat,
            nodes as nat,
        ),
        result matches Err(error) ==> error@ is CorruptFile,
{
    let length: usize = data.len();
    let width: usize = column_type.persisted_width();
    let presence: u64 = (nodes as u64 + 7) / 8;
    proof {
        assert(nodes * width <= 0xffff_ffff * 16) by (nonlinear_arith)
            requires
                nodes <= 0xffff_ffff,
                width <= 16,
        ;
    }
    let expected: u64 = presence + nodes as u64 * width as u64;
    if length as u64 != expected {
        return Err(corrupt("filter column data length is inconsistent"));
    }
    proof {
        assert(presence <= length) by (nonlinear_arith)
            requires
                length == presence + nodes * width,
                nodes >= 0,
                width >= 0,
        ;
    }
    let mut bit: u64 = nodes as u64;
    while bit < 8 * presence
        invariant
            nodes <= bit <= 8 * presence,
            presence == presence_len(nodes as nat),
            presence <= length == data@.len(),
            forall|b: int| nodes <= b < bit ==> !#[trigger] is_present(data@, b),
        decreases 8 * presence - bit,
    {
        if present(data, bit as usize) {
            return Err(corrupt("filter column has nonzero trailing presence bits"));
        }
        bit = bit + 1;
    }
    let mut count: u32 = 0;
    let mut node: u32 = 0;
    while node < nodes
        invariant
            node <= nodes,
            presence == presence_len(nodes as nat),
            presence <= length == data@.len(),
            count == present_count(data@, node as nat),
            count <= node,
        decreases nodes - node,
    {
        if present(data, node as usize) {
            count = count + 1;
        }
        node = node + 1;
    }
    if count != rows {
        return Err(corrupt("filter column row count does not match presence bits"));
    }
    let mut node: u32 = 0;
    while node < nodes
        invariant
            node <= nodes,
            presence == presence_len(nodes as nat),
            width == column_type.width(),
            length == data@.len() == presence + nodes * width,
            forall|n: int|
                0 <= n < node && #[trigger] is_present(data@, n) ==> value_accepted(
                    column_type,
                    slot(data@, column_type, nodes as nat, n),
                    texts as nat,
                ),
        decreases nodes - node,
    {
        proof {
            lemma_slot_bounds(column_type, nodes as nat, node as int);
        }
        if present(data, node as usize) {
            let offset: usize = presence as usize + node as usize * width;
            if let Err(error) = validate_value(data, offset, column_type, texts) {
                assert(is_present(data@, node as int));
                return Err(error);
            }
        }
        node = node + 1;
    }
    Ok(())
}

fn validate_sparse(
    data: &[u8],
    column_type: FilterColumnType,
    rows: u32,
    texts: u32,
    nodes: u32,
) -> (result: GraphResult<()>)
    ensures
        result is Ok <==> sparse_valid(
            data@,
            column_type,
            rows as nat,
            texts as nat,
            nodes as nat,
        ),
        result matches Err(error) ==> error@ is CorruptFile,
{
    let length: usize = data.len();
    let stride: usize = 4 + column_type.persisted_width();
    proof {
        assert(rows * stride <= 0xffff_ffff * 20) by (nonlinear_arith)
            requires
                rows <= 0xffff_ffff,
                stride <= 20,
        ;
    }
    if length as u64 != rows as u64 * stride as u64 {
        return Err(corrupt("filter column data length is inconsistent"));
    }
    let mut row: u32 = 0;
    let mut last: u32 = 0;
    while row < rows
        invariant
            row <= rows,
            stride == 4 + column_type.width(),
            stride <= 20,
            length == data@.len() == rows * stride,
            forall|r: int| 0 <= r < row ==> #[trigger] row_node(data@, column_type, r) < nodes,
            forall|low: int, high: int|
                0 <= low < high < row ==> #[trigger] row_node(data@, column_type, low)
                    < #[trigger] row_node(data@, column_type, high),
            forall|r: int|
                0 <= r < row ==> value_accepted(
                    column_type,
                    #[trigger] row_value(data@, column_type, r),
                    texts as nat,
                ),
            row > 0 ==> last == row_node(data@, column_type, row - 1),
        decreases rows - row,
    {
        proof {
            assert(row * stride + stride <= rows * stride) by (nonlinear_arith)
                requires
                    row < rows,
                    stride >= 0,
            ;
            lemma_radix_values();
        }
        let at: usize = row as usize * stride;
        let node: u32 = read_le(data, at, 4) as u32;
        assert(node == row_node(data@, column_type, row as int));
        if node >= nodes || (row > 0 && last >= node) {
            return Err(corrupt("filter column sparse nodes are not strict and in range"));
        }
        if let Err(error) = validate_value(data, at + 4, column_type, texts) {
            assert(!value_accepted(
                column_type,
                row_value(data@, column_type, row as int),
                texts as nat,
            ));
            return Err(error);
        }
        proof {
            assert forall|low: int, high: int| 0 <= low < high < row + 1 implies #[trigger] row_node(
                data@,
                column_type,
                low,
            ) < #[trigger] row_node(data@, column_type, high) by {
                if high == row && low < row - 1 {
                    assert(row_node(data@, column_type, low) < row_node(
                        data@,
                        column_type,
                        row - 1,
                    ));
                }
            }
        }
        last = node;
        row = row + 1;
    }
    Ok(())
}

/// The value of a node in a column's bytes.
pub fn value_at(
    data: &[u8],
    column_type: FilterColumnType,
    kind: FilterStorageKind,
    rows: u32,
    nodes: u32,
    node: u32,
) -> (value: Option<EncodedFilterValue>)
    requires
        exists|texts: nat|
            data_valid(data@, column_type, kind, rows as nat, texts, nodes as nat),
    ensures
        value == stored_value(data@, column_type, kind, rows as nat, nodes as nat, node as int),
{
    if node >= nodes {
        return None;
    }
    let width: usize = column_type.persisted_width();
    let length: usize = data.len();
    if kind == FilterStorageKind::Dense {
        proof {
            lemma_slot_bounds(column_type, nodes as nat, node as int);
        }
        if !present(data, node as usize) {
            return None;
        }
        let presence: usize = ((nodes as u64 + 7) / 8) as usize;
        let at: usize = presence + node as usize * width;
        return Some(decode_value(data, at, column_type));
    }
    let stride: usize = 4 + width;
    let ghost texts = choose|texts: nat|
        data_valid(data@, column_type, kind, rows as nat, texts, nodes as nat);
    let mut low: u32 = 0;
    let mut high: u32 = rows;
    while low < high
        invariant
            low <= high <= rows,
            stride == 4 + column_type.width(),
            stride <= 20,
            sparse_valid(data@, column_type, rows as nat, texts, nodes as nat),
            length == data@.len(),
            !(kind is Dense),
            node < nodes,
            forall|r: int| 0 <= r < low ==> #[trigger] row_node(data@, column_type, r) < node,
            forall|r: int| high <= r < rows ==> #[trigger] row_node(data@, column_type, r) > node,
        decreases high - low,
    {
        let mid: u32 = low + (high - low) / 2;
        proof {
            assert(mid * stride + stride <= rows * stride) by (nonlinear_arith)
                requires
                    mid < rows,
                    stride >= 0,
            ;
            lemma_radix_values();
        }
        let at: usize = mid as usize * stride;
        let candidate: u32 = read_le(data, at, 4) as u32;
        assert(candidate == row_node(data@, column_type, mid as int));
        if candidate < node {
            proof {
                assert forall|r: int| 0 <= r < mid + 1 implies #[trigger] row_node(
                    data@,
                    column_type,
                    r,
                ) < node by {
                    if r < mid {
                        assert(row_node(data@, column_type, r) < row_node(
                            data@,
                            column_type,
                            mid as int,
                        ));
                    }
                }
            }
            low = mid + 1;
        } else if candidate > node {
            proof {
                assert forall|r: int| mid <= r < rows implies #[trigger] row_node(
                    data@,
                    column_type,
                    r,
                ) > node by {
                    if r > mid {
                        assert(row_node(data@, column_type, mid as int) < row_node(
                            data@,
                            column_type,
                            r,
                        ));
                    }
                }
            }
            high = mid;
        } else {
            proof {
                assert(has_row(data@, column_type, rows as nat, node as int, mid as int));
                let row = choose|row: int|
                    has_row(data@, column_type, rows as nat, node as int, row);
                lemma_one_row(data@, column_type, rows as nat, texts, nodes as nat, row, mid as int);
            }
            return Some(decode_value(data, at + 4, column_type));
        }
    }
    proof {
        assert forall|row: int| !has_row(data@, column_type, rows as nat, node as int, row) by {
            if has_row(data@, column_type, rows as nat, node as int, row) {
                assert(row_node(data@, column_type, row) == node);
            }
        }
    }
    None
}

proof fn lemma_one_row(
    data: Seq<u8>,
    column_type: FilterColumnType,
    rows: nat,
    texts: nat,
    nodes: nat,
    left: int,
    right: int,
)
    requires
        sparse_valid(data, column_type, rows, texts, nodes),
        0 <= left < rows,
        0 <= right < rows,
        row_node(data, column_type, left) == row_node(data, column_type, right),
    ensures
        left == right,
{
    if left < right {
        assert(row_node(data, column_type, left) < row_node(data, column_type, right));
    }
    if right < left {
        assert(row_node(data, column_type, right) < row_node(data, column_type, left));
    }
}

/// Accepts canonical value bytes of a column.
pub fn validate_data(
    data: &[u8],
    column_type: FilterColumnType,
    kind: FilterStorageKind,
    rows: u32,
    texts: u32,
    nodes: u32,
) -> (result: GraphResult<()>)
    ensures
        result is Ok <==> data_valid(
            data@,
            column_type,
            kind,
            rows as nat,
            texts as nat,
            nodes as nat,
        ),
        result matches Err(error) ==> error@ is CorruptFile,
{
    if kind == FilterStorageKind::Dense {
        validate_dense(data, column_type, rows, texts, nodes)
    } else {
        validate_sparse(data, column_type, rows, texts, nodes)
    }
}

} // verus!
