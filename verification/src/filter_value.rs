//! Typed filter values, filter conditions, and what matches.
use vstd::prelude::*;
use vstd::string::StringExecFns;

use crate::codec::bytes_equal;
use crate::errors::{ErrorView, GraphError, GraphResult};
use crate::text::{
    ascii_lower, decimal, decimal_text, spells, text_of, trim_end, trim_start, trimmed_lower,
};

verus! {

/// Supported encoded domains of filter columns.
#[derive(Debug, Clone, Copy, PartialEq, Eq, Structural)]
pub enum FilterColumnType {
    /// Integral numeric comparison domain.
    Numeric,
    /// Boolean equality domain.
    Boolean,
    /// Interned text equality domain.
    Text,
    /// Date domain encoded as days.
    Date,
    /// Timestamp domain encoded as microseconds.
    Timestamptz,
    /// UUID equality domain encoded as a 128-bit integer.
    Uuid,
}

/// A value encoded for comparison.
#[derive(Debug, Clone, Copy, PartialEq, Eq, Structural)]
pub enum EncodedFilterValue {
    Numeric(i64),
    Boolean(bool),
    /// Token of an interned text.
    Text(u32),
    Date(i64),
    Timestamptz(i64),
    Uuid(u128),
}

/// A self-contained value of a durable segment: text is stored as text.
#[derive(Debug)]
pub enum PersistedFilterValue {
    /// SQL `NULL` of a row that is there.
    Null,
    Numeric(i64),
    Boolean(bool),
    Text(String),
    Date(i64),
    Timestamptz(i64),
    Uuid(u128),
}

impl PersistedFilterValue {
    /// Bytes of text that the value owns.
    pub fn heap_bytes(&self) -> (bytes: usize)
        ensures
            bytes == match self {
                PersistedFilterValue::Text(value) => vstd::utf8::encode_utf8(value@).len(),
                _ => 0,
            },
    {
        match self {
            PersistedFilterValue::Text(value) => value.as_str().as_bytes().len(),
            _ => 0,
        }
    }
}

impl FilterColumnType {
    /// The tag of a type in artifacts.
    pub open spec fn tag(self) -> u8 {
        match self {
            FilterColumnType::Numeric => 0,
            FilterColumnType::Boolean => 1,
            FilterColumnType::Text => 2,
            FilterColumnType::Date => 3,
            FilterColumnType::Timestamptz => 4,
            FilterColumnType::Uuid => 5,
        }
    }

    /// The type that an artifact tag stands for.
    pub open spec fn of_tag(tag: u8) -> Option<FilterColumnType> {
        if tag == 0 {
            Some(FilterColumnType::Numeric)
        } else if tag == 1 {
            Some(FilterColumnType::Boolean)
        } else if tag == 2 {
            Some(FilterColumnType::Text)
        } else if tag == 3 {
            Some(FilterColumnType::Date)
        } else if tag == 4 {
            Some(FilterColumnType::Timestamptz)
        } else if tag == 5 {
            Some(FilterColumnType::Uuid)
        } else {
            None
        }
    }

    /// Bytes of one value in artifacts.
    pub open spec fn width(self) -> nat {
        match self {
            FilterColumnType::Boolean => 1,
            FilterColumnType::Text => 4,
            FilterColumnType::Uuid => 16,
            _ => 8,
        }
    }

    /// The type that a name stands for, once trimmed and in small letters.
    pub open spec fn named(name: Seq<char>) -> Option<FilterColumnType> {
        if name == "numeric"@ {
            Some(FilterColumnType::Numeric)
        } else if name == "boolean"@ {
            Some(FilterColumnType::Boolean)
        } else if name == "text"@ {
            Some(FilterColumnType::Text)
        } else if name == "date"@ {
            Some(FilterColumnType::Date)
        } else if name == "timestamptz"@ {
            Some(FilterColumnType::Timestamptz)
        } else if name == "uuid"@ {
            Some(FilterColumnType::Uuid)
        } else {
            None
        }
    }

    /// The tag of this type in artifacts.
    pub fn persisted_tag(self) -> (tag: u8)
        ensures
            tag == self.tag(),
    {
        match self {
            FilterColumnType::Numeric => 0,
            FilterColumnType::Boolean => 1,
            FilterColumnType::Text => 2,
            FilterColumnType::Date => 3,
            FilterColumnType::Timestamptz => 4,
            FilterColumnType::Uuid => 5,
        }
    }

    /// The type that an artifact tag stands for.
    pub fn from_persisted_tag(value: u8) -> (result: GraphResult<Self>)
        ensures
            match Self::of_tag(value) {
                Some(column_type) => result matches Ok(found) && found == column_type,
                None => result matches Err(error) && error@ == ErrorView::CorruptFile(
                    "unknown filter column type "@ + decimal(value as nat),
                ),
            },
    {
        match value {
            0 => Ok(FilterColumnType::Numeric),
            1 => Ok(FilterColumnType::Boolean),
            2 => Ok(FilterColumnType::Text),
            3 => Ok(FilterColumnType::Date),
            4 => Ok(FilterColumnType::Timestamptz),
            5 => Ok(FilterColumnType::Uuid),
            _ => Err(
                GraphError::CorruptFile {
                    reason: "unknown filter column type ".to_owned().concat(
                        decimal_text(value as u64).as_str(),
                    ),
                },
            ),
        }
    }

    /// Bytes of one value in artifacts.
    pub fn persisted_width(self) -> (width: usize)
        ensures
            width == self.width(),
    {
        match self {
            FilterColumnType::Boolean => 1,
            FilterColumnType::Text => 4,
            FilterColumnType::Numeric | FilterColumnType::Date | FilterColumnType::Timestamptz => 8,
            FilterColumnType::Uuid => 16,
        }
    }

    /// Parses a SQL-facing type name; surrounding space and case do not matter.
    pub fn parse(value: &str) -> (result: Result<Self, String>)
        ensures
            match Self::named(ascii_lower(trim_end(trim_start(value@)))) {
                Some(column_type) => result matches Ok(found) && found == column_type,
                None => result matches Err(text) && text@ == "unsupported filter column_type '"@
                    + ascii_lower(trim_end(trim_start(value@))) + "'"@,
            },
    {
        let name: Vec<char> = trimmed_lower(value);
        if spells(&name, "numeric") {
            return Ok(FilterColumnType::Numeric);
        }
        if spells(&name, "boolean") {
            return Ok(FilterColumnType::Boolean);
        }
        if spells(&name, "text") {
            return Ok(FilterColumnType::Text);
        }
        if spells(&name, "date") {
            return Ok(FilterColumnType::Date);
        }
        if spells(&name, "timestamptz") {
            return Ok(FilterColumnType::Timestamptz);
        }
        if spells(&name, "uuid") {
            return Ok(FilterColumnType::Uuid);
        }
        Err(
            "unsupported filter column_type '".to_owned().concat(text_of(&name).as_str()).concat(
                "'",
            ),
        )
    }
}

/// A type's tag names the type.
pub proof fn law_type_tag_reads_back(column_type: FilterColumnType)
    ensures
        FilterColumnType::of_tag(column_type.tag()) == Some(column_type),
{
}

/// Whether a value belongs to a column's domain.
pub open spec fn in_domain(column_type: FilterColumnType, value: EncodedFilterValue) -> bool {
    match column_type {
        FilterColumnType::Numeric => value is Numeric,
        FilterColumnType::Boolean => value is Boolean,
        FilterColumnType::Text => value is Text,
        FilterColumnType::Date => value is Date,
        FilterColumnType::Timestamptz => value is Timestamptz,
        FilterColumnType::Uuid => value is Uuid,
    }
}

/// Whether a value belongs to a column's domain.
pub fn encoded_value_matches(column_type: FilterColumnType, value: EncodedFilterValue) -> (matched:
    bool)
    ensures
        matched == in_domain(column_type, value),
{
    match (column_type, value) {
        (FilterColumnType::Numeric, EncodedFilterValue::Numeric(_)) => true,
        (FilterColumnType::Boolean, EncodedFilterValue::Boolean(_)) => true,
        (FilterColumnType::Text, EncodedFilterValue::Text(_)) => true,
        (FilterColumnType::Date, EncodedFilterValue::Date(_)) => true,
        (FilterColumnType::Timestamptz, EncodedFilterValue::Timestamptz(_)) => true,
        (FilterColumnType::Uuid, EncodedFilterValue::Uuid(_)) => true,
        _ => false,
    }
}

/// The value that fills unset slots of a column.
pub open spec fn default_value(column_type: FilterColumnType) -> EncodedFilterValue {
    match column_type {
        FilterColumnType::Numeric => EncodedFilterValue::Numeric(0),
        FilterColumnType::Boolean => EncodedFilterValue::Boolean(false),
        FilterColumnType::Text => EncodedFilterValue::Text(0),
        FilterColumnType::Date => EncodedFilterValue::Date(0),
        FilterColumnType::Timestamptz => EncodedFilterValue::Timestamptz(0),
        FilterColumnType::Uuid => EncodedFilterValue::Uuid(0),
    }
}

/// The value that fills unset slots of a column.
pub fn default_encoded_value(column_type: FilterColumnType) -> (value: EncodedFilterValue)
    ensures
        value == default_value(column_type),
{
    match column_type {
        FilterColumnType::Numeric => EncodedFilterValue::Numeric(0),
        FilterColumnType::Boolean => EncodedFilterValue::Boolean(false),
        FilterColumnType::Text => EncodedFilterValue::Text(0),
        FilterColumnType::Date => EncodedFilterValue::Date(0),
        FilterColumnType::Timestamptz => EncodedFilterValue::Timestamptz(0),
        FilterColumnType::Uuid => EncodedFilterValue::Uuid(0),
    }
}

/// The signed number of a value, if it has one.
pub open spec fn signed_number(value: EncodedFilterValue) -> Option<i64> {
    match value {
        EncodedFilterValue::Numeric(number) => Some(number),
        EncodedFilterValue::Date(number) => Some(number),
        EncodedFilterValue::Timestamptz(number) => Some(number),
        _ => None,
    }
}

/// The nearest unsigned 32-bit number of a value; zero if it has none.
pub open spec fn unsigned_number(value: EncodedFilterValue) -> u32 {
    match signed_number(value) {
        Some(number) => if number < 0 {
            0
        } else if number > u32::MAX {
            u32::MAX
        } else {
            number as u32
        },
        None => 0,
    }
}

/// The signed number of a value, if it has one.
pub fn encoded_i64(value: EncodedFilterValue) -> (number: Option<i64>)
    ensures
        number == signed_number(value),
{
    match value {
        EncodedFilterValue::Numeric(number) => Some(number),
        EncodedFilterValue::Date(number) => Some(number),
        EncodedFilterValue::Timestamptz(number) => Some(number),
        _ => None,
    }
}

/// The nearest unsigned 32-bit number of a value; zero if it has none.
pub fn encoded_u32(value: EncodedFilterValue) -> (number: u32)
    ensures
        number == unsigned_number(value),
{
    match encoded_i64(value) {
        Some(signed) => if signed < 0 {
            0
        } else if signed > u32::MAX as i64 {
            u32::MAX
        } else {
            signed as u32
        },
        None => 0,
    }
}

/// A condition on one column.
#[derive(Debug)]
pub enum FilterCondition {
    Gt(u32),
    Gte(u32),
    Lt(u32),
    Lte(u32),
    Eq(u32),
    Neq(u32),
    Between(u32, u32),
    In(Vec<u32>),
    NotIn(Vec<u32>),
    EqI64(i64),
    NeqI64(i64),
    GtI64(i64),
    GteI64(i64),
    LtI64(i64),
    LteI64(i64),
    BetweenI64(i64, i64),
    InI64(Vec<i64>),
    NotInI64(Vec<i64>),
    EqBool(bool),
    NeqBool(bool),
    InBool(Vec<bool>),
    NotInBool(Vec<bool>),
    EqToken(u32),
    NeqToken(u32),
    InToken(Vec<u32>),
    NotInToken(Vec<u32>),
    ContainsToken(String),
    PrefixToken(String),
    EqUuid(u128),
    NeqUuid(u128),
    InUuid(Vec<u128>),
    NotInUuid(Vec<u128>),
    IsNull,
    IsNotNull,
}

/// Whether bytes occur in other bytes.
pub open spec fn occurs_in(part: Seq<u8>, whole: Seq<u8>) -> bool {
    exists|k: int|
        0 <= k <= whole.len() - part.len() && #[trigger] whole.subrange(k, k + part.len()) == part
}

/// Whether bytes stand at the start of other bytes.
pub open spec fn starts_with(whole: Seq<u8>, part: Seq<u8>) -> bool {
    part.len() <= whole.len() && whole.subrange(0, part.len() as int) == part
}

/// Whether a value satisfies a condition. `NULL` satisfies only `IsNull`. The
/// text of a token is given, if the dictionary has one.
pub open spec fn satisfies(
    condition: FilterCondition,
    value: Option<EncodedFilterValue>,
    text: Option<Seq<char>>,
) -> bool {
    match value {
        None => condition is IsNull,
        Some(value) => match condition {
            FilterCondition::Gt(limit) => unsigned_number(value) > limit,
            FilterCondition::Gte(limit) => unsigned_number(value) >= limit,
            FilterCondition::Lt(limit) => unsigned_number(value) < limit,
            FilterCondition::Lte(limit) => unsigned_number(value) <= limit,
            FilterCondition::Eq(limit) => unsigned_number(value) == limit,
            FilterCondition::Neq(limit) => unsigned_number(value) != limit,
            FilterCondition::Between(low, high) => low <= unsigned_number(value) <= high,
            FilterCondition::In(list) => list@.contains(unsigned_number(value)),
            FilterCondition::NotIn(list) => !list@.contains(unsigned_number(value)),
            FilterCondition::EqI64(limit) => signed_number(value) == Some(limit),
            FilterCondition::NeqI64(limit) => signed_number(value) != Some(limit),
            FilterCondition::GtI64(limit) => signed_number(value) matches Some(n) && n > limit,
            FilterCondition::GteI64(limit) => signed_number(value) matches Some(n) && n >= limit,
            FilterCondition::LtI64(limit) => signed_number(value) matches Some(n) && n < limit,
            FilterCondition::LteI64(limit) => signed_number(value) matches Some(n) && n <= limit,
            FilterCondition::BetweenI64(low, high) => signed_number(value) matches Some(n) && low
                <= n <= high,
            FilterCondition::InI64(list) => signed_number(value) matches Some(n)
                && list@.contains(n),
            FilterCondition::NotInI64(list) => signed_number(value) matches Some(n)
                && !list@.contains(n),
            FilterCondition::EqBool(flag) => value == EncodedFilterValue::Boolean(flag),
            FilterCondition::NeqBool(flag) => value == EncodedFilterValue::Boolean(!flag),
            FilterCondition::InBool(list) => value matches EncodedFilterValue::Boolean(b)
                && list@.contains(b),
            FilterCondition::NotInBool(list) => value matches EncodedFilterValue::Boolean(b)
                && !list@.contains(b),
            FilterCondition::EqToken(token) => value == EncodedFilterValue::Text(token),
            FilterCondition::NeqToken(token) => value matches EncodedFilterValue::Text(t) && t
                != token,
            FilterCondition::InToken(list) => value matches EncodedFilterValue::Text(t)
                && list@.contains(t),
            FilterCondition::NotInToken(list) => value matches EncodedFilterValue::Text(t)
                && !list@.contains(t),
            FilterCondition::ContainsToken(part) => value is Text && (text matches Some(whole)
                && occurs_in(vstd::utf8::encode_utf8(part@), vstd::utf8::encode_utf8(whole))),
            FilterCondition::PrefixToken(part) => value is Text && (text matches Some(whole)
                && starts_with(vstd::utf8::encode_utf8(whole), vstd::utf8::encode_utf8(part@))),
            FilterCondition::EqUuid(uuid) => value == EncodedFilterValue::Uuid(uuid),
            FilterCondition::NeqUuid(uuid) => value matches EncodedFilterValue::Uuid(u) && u
                != uuid,
            FilterCondition::InUuid(list) => value matches EncodedFilterValue::Uuid(u)
                && list@.contains(u),
            FilterCondition::NotInUuid(list) => value matches EncodedFilterValue::Uuid(u)
                && !list@.contains(u),
            FilterCondition::IsNull => false,
            FilterCondition::IsNotNull => true,
        },
    }
}

fn holds_u32(list: &Vec<u32>, item: u32) -> (found: bool)
    ensures
        found == list@.contains(item),
{
    let mut at: usize = 0;
    while at < list.len()
        invariant
            at <= list@.len(),
            forall|i: int| 0 <= i < at ==> list@[i] != item,
        decreases list@.len() - at,
    {
        if list[at] == item {
            return true;
        }
        at = at + 1;
    }
    false
}

fn holds_i64(list: &Vec<i64>, item: i64) -> (found: bool)
    ensures
        found == list@.contains(item),
{
    let mut at: usize = 0;
    while at < list.len()
        invariant
            at <= list@.len(),
            forall|i: int| 0 <= i < at ==> list@[i] != item,
        decreases list@.len() - at,
    {
        if list[at] == item {
            return true;
        }
        at = at + 1;
    }
    false
}

fn holds_bool(list: &Vec<bool>, item: bool) -> (found: bool)
    ensures
        found == list@.contains(item),
{
    let mut at: usize = 0;
    while at < list.len()
        invariant
            at <= list@.len(),
            forall|i: int| 0 <= i < at ==> list@[i] != item,
        decreases list@.len() - at,
    {
        if list[at] == item {
            return true;
        }
        at = at + 1;
    }
    false
}

fn holds_u128(list: &Vec<u128>, item: u128) -> (found: bool)
    ensures
        found == list@.contains(item),
{
    let mut at: usize = 0;
    while at < list.len()
        invariant
            at <= list@.len(),
            forall|i: int| 0 <= i < at ==> list@[i] != item,
        decreases list@.len() - at,
    {
        if list[at] == item {
            return true;
        }
        at = at + 1;
    }
    false
}

/// Whether bytes stand at a position of other bytes.
fn stands_at(whole: &[u8], at: usize, part: &[u8]) -> (found: bool)
    requires
        at + part@.len() <= whole@.len(),
    ensures
        found == (whole@.subrange(at as int, at + part@.len()) == part@),
{
    let length: usize = whole.len();
    let count: usize = part.len();
    let slice = vstd::slice::slice_subrange(whole, at, at + count);
    bytes_equal(slice, part)
}

fn text_contains(whole: &[u8], part: &[u8]) -> (found: bool)
    ensures
        found == occurs_in(part@, whole@),
{
    if part.len() > whole.len() {
        return false;
    }
    let last: usize = whole.len() - part.len();
    let mut at: usize = 0;
    while at <= last
        invariant
            last == whole@.len() - part@.len(),
            last < usize::MAX || part@.len() == 0,
            at <= last + 1,
            forall|k: int|
                0 <= k < at ==> #[trigger] whole@.subrange(k, k + part@.len()) != part@,
        decreases last + 1 - at,
    {
        if stands_at(whole, at, part) {
            assert(whole@.subrange(at as int, at + part@.len()) == part@);
            return true;
        }
        if at == last {
            return false;
        }
        at = at + 1;
    }
    false
}

fn text_starts_with(whole: &[u8], part: &[u8]) -> (found: bool)
    ensures
        found == starts_with(whole@, part@),
{
    part.len() <= whole.len() && stands_at(whole, 0, part)
}

/// Whether a value satisfies a condition.
pub fn check_value(
    condition: &FilterCondition,
    value: Option<EncodedFilterValue>,
    text: Option<&str>,
) -> (matched: bool)
    ensures
        matched == satisfies(
            *condition,
            value,
            match text {
                Some(whole) => Some(whole@),
                None => None,
            },
        ),
{
    let value: EncodedFilterValue = match value {
        Some(value) => value,
        None => {
            return match condition {
                FilterCondition::IsNull => true,
                _ => false,
            };
        },
    };
    let number: u32 = encoded_u32(value);
    let signed: Option<i64> = encoded_i64(value);
    match condition {
        FilterCondition::Gt(limit) => number > *limit,
        FilterCondition::Gte(limit) => number >= *limit,
        FilterCondition::Lt(limit) => number < *limit,
        FilterCondition::Lte(limit) => number <= *limit,
        FilterCondition::Eq(limit) => number == *limit,
        FilterCondition::Neq(limit) => number != *limit,
        FilterCondition::Between(low, high) => number >= *low && number <= *high,
        FilterCondition::In(list) => holds_u32(list, number),
        FilterCondition::NotIn(list) => !holds_u32(list, number),
        FilterCondition::EqI64(limit) => match signed {
            Some(n) => n == *limit,
            None => false,
        },
        FilterCondition::NeqI64(limit) => match signed {
            Some(n) => n != *limit,
            None => true,
        },
        FilterCondition::GtI64(limit) => match signed {
            Some(n) => n > *limit,
            None => false,
        },
        FilterCondition::GteI64(limit) => match signed {
            Some(n) => n >= *limit,
            None => false,
        },
        FilterCondition::LtI64(limit) => match signed {
            Some(n) => n < *limit,
            None => false,
        },
        FilterCondition::LteI64(limit) => match signed {
            Some(n) => n <= *limit,
            None => false,
        },
        FilterCondition::BetweenI64(low, high) => match signed {
            Some(n) => n >= *low && n <= *high,
            None => false,
        },
        FilterCondition::InI64(list) => match signed {
            Some(n) => holds_i64(list, n),
            None => false,
        },
        FilterCondition::NotInI64(list) => match signed {
            Some(n) => !holds_i64(list, n),
            None => false,
        },
        FilterCondition::EqBool(flag) => match value {
            EncodedFilterValue::Boolean(b) => b == *flag,
            _ => false,
        },
        FilterCondition::NeqBool(flag) => match value {
            EncodedFilterValue::Boolean(b) => b != *flag,
            _ => false,
        },
        FilterCondition::InBool(list) => match value {
            EncodedFilterValue::Boolean(b) => holds_bool(list, b),
            _ => false,
        },
        FilterCondition::NotInBool(list) => match value {
            EncodedFilterValue::Boolean(b) => !holds_bool(list, b),
            _ => false,
        },
        FilterCondition::EqToken(token) => match value {
            EncodedFilterValue::Text(t) => t == *token,
            _ => false,
        },
        FilterCondition::NeqToken(token) => match value {
            EncodedFilterValue::Text(t) => t != *token,
            _ => false,
        },
        FilterCondition::InToken(list) => match value {
            EncodedFilterValue::Text(t) => holds_u32(list, t),
            _ => false,
        },
        FilterCondition::NotInToken(list) => match value {
            EncodedFilterValue::Text(t) => !holds_u32(list, t),
            _ => false,
        },
        FilterCondition::ContainsToken(part) => match (value, text) {
            (EncodedFilterValue::Text(_), Some(whole)) => text_contains(
                whole.as_bytes(),
                part.as_str().as_bytes(),
            ),
            _ => false,
        },
        FilterCondition::PrefixToken(part) => match (value, text) {
            (EncodedFilterValue::Text(_), Some(whole)) => text_starts_with(
                whole.as_bytes(),
                part.as_str().as_bytes(),
            ),
            _ => false,
        },
        FilterCondition::EqUuid(uuid) => match value {
            EncodedFilterValue::Uuid(u) => u == *uuid,
            _ => false,
        },
        FilterCondition::NeqUuid(uuid) => match value {
            EncodedFilterValue::Uuid(u) => u != *uuid,
            _ => false,
        },
        FilterCondition::InUuid(list) => match value {
            EncodedFilterValue::Uuid(u) => holds_u128(list, u),
            _ => false,
        },
        FilterCondition::NotInUuid(list) => match value {
            EncodedFilterValue::Uuid(u) => !holds_u128(list, u),
            _ => false,
        },
        FilterCondition::IsNull => false,
        FilterCondition::IsNotNull => true,
    }
}

/// A condition on one registered column.
#[derive(Debug)]
pub struct FilterOp {
    column: usize,
    condition: FilterCondition,
}

impl FilterOp {
    /// The column that the condition is about.
    pub closed spec fn column(&self) -> usize {
        self.column
    }

    /// The condition.
    pub closed spec fn wanted(&self) -> FilterCondition {
        self.condition
    }

    /// A condition on a column.
    pub fn new(column: usize, condition: FilterCondition) -> (op: Self)
        ensures
            op.column() == column,
            op.wanted() == condition,
    {
        FilterOp { column, condition }
    }

    /// The column that the condition is about.
    pub fn column_idx(&self) -> (column: usize)
        ensures
            column == self.column(),
    {
        self.column
    }

    /// The condition.
    pub fn condition(&self) -> (condition: &FilterCondition)
        ensures
            *condition == self.wanted(),
    {
        &self.condition
    }
}

/// A comparison of one column's unsigned value.
#[derive(Debug, Clone, Copy, PartialEq, Eq, Structural)]
pub enum UnsignedFilterOp {
    Gt(usize, u32),
    Gte(usize, u32),
    Lt(usize, u32),
    Lte(usize, u32),
    Eq(usize, u32),
    Neq(usize, u32),
}

impl UnsignedFilterOp {
    /// Whether a value satisfies the comparison.
    pub fn check(&self, value: u32) -> (matched: bool)
        ensures
            matched == match *self {
                UnsignedFilterOp::Gt(_, limit) => value > limit,
                UnsignedFilterOp::Gte(_, limit) => value >= limit,
                UnsignedFilterOp::Lt(_, limit) => value < limit,
                UnsignedFilterOp::Lte(_, limit) => value <= limit,
                UnsignedFilterOp::Eq(_, limit) => value == limit,
                UnsignedFilterOp::Neq(_, limit) => value != limit,
            },
    {
        match *self {
            UnsignedFilterOp::Gt(_, limit) => value > limit,
            UnsignedFilterOp::Gte(_, limit) => value >= limit,
            UnsignedFilterOp::Lt(_, limit) => value < limit,
            UnsignedFilterOp::Lte(_, limit) => value <= limit,
            UnsignedFilterOp::Eq(_, limit) => value == limit,
            UnsignedFilterOp::Neq(_, limit) => value != limit,
        }
    }
}

} // verus!
