//! What filter conditions mean: how their answers follow from the stored
//! values, and how the answers of several conditions relate.
use vstd::prelude::*;
use vstd::utf8::encode_utf8;

use crate::filter_catalog::ColumnView;
use crate::filter_index::{filter_holds, filters_hold, places, registers, sets, FilterIndex};
use crate::filter_value::{EncodedFilterValue, FilterCondition, FilterOp, UnsignedFilterOp};

verus! {

/// Whether a node has a value in the column of an operation.
pub open spec fn has_value(
    index: FilterIndex,
    node: u32,
    op: FilterOp,
    value: Option<EncodedFilterValue>,
) -> bool {
    op.column() < index.registered().len() && index.value(op.column() as int, node) == value
}

/// Whether a value is a signed number of one of the three domains that have one.
pub open spec fn is_number(value: EncodedFilterValue, number: int) -> bool {
    match value {
        EncodedFilterValue::Numeric(n) => n == number,
        EncodedFilterValue::Date(n) => n == number,
        EncodedFilterValue::Timestamptz(n) => n == number,
        _ => false,
    }
}

/// A condition on signed numbers holds of a stored number exactly if the number
/// stands to the limits as the condition's name says, in the order of integers.
/// This is so for numbers, dates and timestamps alike.
pub proof fn law_signed_conditions_compare_integers(
    index: FilterIndex,
    node: u32,
    op: FilterOp,
    value: EncodedFilterValue,
    number: int,
)
    requires
        has_value(index, node, op, Some(value)),
        is_number(value, number),
    ensures
        match op.wanted() {
            FilterCondition::EqI64(limit) => filter_holds(index, node, op, None) <==> number
                == limit,
            FilterCondition::NeqI64(limit) => filter_holds(index, node, op, None) <==> number
                != limit,
            FilterCondition::GtI64(limit) => filter_holds(index, node, op, None) <==> number
                > limit,
            FilterCondition::GteI64(limit) => filter_holds(index, node, op, None) <==> number
                >= limit,
            FilterCondition::LtI64(limit) => filter_holds(index, node, op, None) <==> number
                < limit,
            FilterCondition::LteI64(limit) => filter_holds(index, node, op, None) <==> number
                <= limit,
            FilterCondition::BetweenI64(low, high) => filter_holds(index, node, op, None) <==> low
                <= number <= high,
            FilterCondition::InI64(list) => filter_holds(index, node, op, None) <==> exists|i: int|
                0 <= i < list@.len() && #[trigger] list@[i] == number,
            FilterCondition::NotInI64(list) => filter_holds(index, node, op, None) <==> forall|
                i: int,
            |
                0 <= i < list@.len() ==> #[trigger] list@[i] != number,
            _ => true,
        },
{
    match op.wanted() {
        FilterCondition::InI64(list) => {
            if list@.contains(number as i64) {
                let i = choose|i: int| 0 <= i < list@.len() && list@[i] == number as i64;
                assert(list@[i] == number);
            }
        },
        FilterCondition::NotInI64(list) => {
            if list@.contains(number as i64) {
                let i = choose|i: int| 0 <= i < list@.len() && list@[i] == number as i64;
                assert(list@[i] == number);
            }
        },
        _ => {},
    }
}

/// A condition on unsigned numbers holds of a stored number exactly if the
/// nearest unsigned 32-bit number stands to the limits as the condition's name
/// says: a negative number counts as zero, and one that is too large as the
/// greatest.
pub proof fn law_unsigned_conditions_compare_integers(
    index: FilterIndex,
    node: u32,
    op: FilterOp,
    value: EncodedFilterValue,
    number: int,
    near: int,
)
    requires
        has_value(index, node, op, Some(value)),
        is_number(value, number) || (number == 0 && (value is Boolean || value is Text
            || value is Uuid)),
        0 <= near <= 0xffff_ffff,
        0 <= number <= 0xffff_ffff ==> near == number,
        number < 0 ==> near == 0,
        number > 0xffff_ffff ==> near == 0xffff_ffff,
    ensures
        match op.wanted() {
            FilterCondition::Gt(limit) => filter_holds(index, node, op, None) <==> near > limit,
            FilterCondition::Gte(limit) => filter_holds(index, node, op, None) <==> near >= limit,
            FilterCondition::Lt(limit) => filter_holds(index, node, op, None) <==> near < limit,
            FilterCondition::Lte(limit) => filter_holds(index, node, op, None) <==> near <= limit,
            FilterCondition::Eq(limit) => filter_holds(index, node, op, None) <==> near == limit,
            FilterCondition::Neq(limit) => filter_holds(index, node, op, None) <==> near != limit,
            FilterCondition::Between(low, high) => filter_holds(index, node, op, None) <==> low
                <= near <= high,
            FilterCondition::In(list) => filter_holds(index, node, op, None) <==> exists|i: int|
                0 <= i < list@.len() && #[trigger] list@[i] == near,
            FilterCondition::NotIn(list) => filter_holds(index, node, op, None) <==> forall|i: int|
                0 <= i < list@.len() ==> #[trigger] list@[i] != near,
            _ => true,
        },
{
    match op.wanted() {
        FilterCondition::In(list) => {
            if list@.contains(near as u32) {
                let i = choose|i: int| 0 <= i < list@.len() && list@[i] == near as u32;
                assert(list@[i] == near);
            }
        },
        FilterCondition::NotIn(list) => {
            if list@.contains(near as u32) {
                let i = choose|i: int| 0 <= i < list@.len() && list@[i] == near as u32;
                assert(list@[i] == near);
            }
        },
        _ => {},
    }
}

/// A condition on booleans holds of a stored boolean exactly if it is, or is
/// not, one of those asked for.
pub proof fn law_boolean_conditions(index: FilterIndex, node: u32, op: FilterOp, flag: bool)
    requires
        has_value(index, node, op, Some(EncodedFilterValue::Boolean(flag))),
    ensures
        match op.wanted() {
            FilterCondition::EqBool(asked) => filter_holds(index, node, op, None) <==> flag
                == asked,
            FilterCondition::NeqBool(asked) => filter_holds(index, node, op, None) <==> flag
                != asked,
            FilterCondition::InBool(list) => filter_holds(index, node, op, None) <==> exists|i: int|
                0 <= i < list@.len() && #[trigger] list@[i] == flag,
            FilterCondition::NotInBool(list) => filter_holds(index, node, op, None) <==> forall|
                i: int,
            |
                0 <= i < list@.len() ==> #[trigger] list@[i] != flag,
            _ => true,
        },
{
}

/// A condition on uuids holds of a stored uuid exactly if it is, or is not, one
/// of those asked for.
pub proof fn law_uuid_conditions(index: FilterIndex, node: u32, op: FilterOp, uuid: u128)
    requires
        has_value(index, node, op, Some(EncodedFilterValue::Uuid(uuid))),
    ensures
        match op.wanted() {
            FilterCondition::EqUuid(asked) => filter_holds(index, node, op, None) <==> uuid
                == asked,
            FilterCondition::NeqUuid(asked) => filter_holds(index, node, op, None) <==> uuid
                != asked,
            FilterCondition::InUuid(list) => filter_holds(index, node, op, None) <==> exists|i: int|
                0 <= i < list@.len() && #[trigger] list@[i] == uuid,
            FilterCondition::NotInUuid(list) => filter_holds(index, node, op, None) <==> forall|
                i: int,
            |
                0 <= i < list@.len() ==> #[trigger] list@[i] != uuid,
            _ => true,
        },
{
}

/// A condition on texts holds of a stored text exactly if its token is, or is
/// not, one of those asked for; or if the bytes asked for stand in it, or at its
/// start, with whatever around them.
pub proof fn law_text_conditions(
    index: FilterIndex,
    node: u32,
    op: FilterOp,
    token: u32,
    text: Seq<char>,
)
    requires
        has_value(index, node, op, Some(EncodedFilterValue::Text(token))),
        token < index.texts(op.column() as int).len(),
        index.texts(op.column() as int)[token as int] == text,
    ensures
        match op.wanted() {
            FilterCondition::EqToken(asked) => filter_holds(index, node, op, None) <==> token
                == asked,
            FilterCondition::NeqToken(asked) => filter_holds(index, node, op, None) <==> token
                != asked,
            FilterCondition::InToken(list) => filter_holds(index, node, op, None) <==> exists|
                i: int,
            |
                0 <= i < list@.len() && #[trigger] list@[i] == token,
            FilterCondition::NotInToken(list) => filter_holds(index, node, op, None) <==> forall|
                i: int,
            |
                0 <= i < list@.len() ==> #[trigger] list@[i] != token,
            FilterCondition::ContainsToken(part) => filter_holds(index, node, op, None) <==> exists|
                before: Seq<u8>,
                after: Seq<u8>,
            |
                encode_utf8(text) == #[trigger] (before + encode_utf8(part@) + after),
            FilterCondition::PrefixToken(part) => filter_holds(index, node, op, None) <==> exists|
                after: Seq<u8>,
            |
                encode_utf8(text) == #[trigger] (encode_utf8(part@) + after),
            _ => true,
        },
{
    let whole = encode_utf8(text);
    match op.wanted() {
        FilterCondition::ContainsToken(part) => {
            let bytes = encode_utf8(part@);
            if filter_holds(index, node, op, None) {
                let k = choose|k: int|
                    0 <= k <= whole.len() - bytes.len() && #[trigger] whole.subrange(
                        k,
                        k + bytes.len(),
                    ) == bytes;
                let before = whole.subrange(0, k);
                let after = whole.subrange(k + bytes.len(), whole.len() as int);
                assert(whole =~= before + bytes + after);
            }
            if exists|before: Seq<u8>, after: Seq<u8>| whole == #[trigger] (before + bytes + after) {
                let (before, after) = choose|before: Seq<u8>, after: Seq<u8>|
                    whole == #[trigger] (before + bytes + after);
                let k = before.len() as int;
                assert(whole.subrange(k, k + bytes.len()) =~= bytes);
            }
        },
        FilterCondition::PrefixToken(part) => {
            let bytes = encode_utf8(part@);
            if filter_holds(index, node, op, None) {
                let after = whole.subrange(bytes.len() as int, whole.len() as int);
                assert(whole =~= bytes + after);
            }
            if exists|after: Seq<u8>| whole == #[trigger] (bytes + after) {
                let after = choose|after: Seq<u8>| whole == #[trigger] (bytes + after);
                assert(whole.subrange(0, bytes.len() as int) =~= bytes);
            }
        },
        _ => {},
    }
}

/// A node without a value satisfies the condition that it has none, and no
/// other; a node with a value satisfies the condition that it has one, and not
/// that it has none.
pub proof fn law_null_conditions(
    index: FilterIndex,
    node: u32,
    op: FilterOp,
    value: Option<EncodedFilterValue>,
)
    requires
        has_value(index, node, op, value),
    ensures
        value is None ==> (filter_holds(index, node, op, None) <==> op.wanted() is IsNull),
        value is Some && op.wanted() is IsNull ==> !filter_holds(index, node, op, None),
        value is Some && op.wanted() is IsNotNull ==> filter_holds(index, node, op, None),
{
}

/// A condition that belongs to another domain than the stored value holds of
/// it in no other way than by not being equal to a signed number.
pub proof fn law_conditions_keep_to_their_domain(
    index: FilterIndex,
    node: u32,
    op: FilterOp,
    value: EncodedFilterValue,
)
    requires
        has_value(index, node, op, Some(value)),
    ensures
        ({
            let wanted = op.wanted();
            let signed = wanted is EqI64 || wanted is GtI64 || wanted is GteI64 || wanted is LtI64
                || wanted is LteI64 || wanted is BetweenI64 || wanted is InI64
                || wanted is NotInI64;
            let boolean = wanted is EqBool || wanted is NeqBool || wanted is InBool
                || wanted is NotInBool;
            let textual = wanted is EqToken || wanted is NeqToken || wanted is InToken
                || wanted is NotInToken || wanted is ContainsToken || wanted is PrefixToken;
            let uuid = wanted is EqUuid || wanted is NeqUuid || wanted is InUuid
                || wanted is NotInUuid;
            &&& signed && !(value is Numeric || value is Date || value is Timestamptz)
                ==> !filter_holds(index, node, op, None)
            &&& boolean && !(value is Boolean) ==> !filter_holds(index, node, op, None)
            &&& textual && !(value is Text) ==> !filter_holds(index, node, op, None)
            &&& uuid && !(value is Uuid) ==> !filter_holds(index, node, op, None)
            &&& wanted is NeqI64 && !(value is Numeric || value is Date || value is Timestamptz)
                ==> filter_holds(index, node, op, None)
        }),
{
}

/// The comparisons of one stored number with one limit agree: exactly one of
/// less, equal and greater holds; at most is less or equal, at least is greater
/// or equal, and unequal is not equal.
pub proof fn law_comparisons_agree(
    index: FilterIndex,
    node: u32,
    value: EncodedFilterValue,
    limit: i64,
    less: FilterOp,
    at_most: FilterOp,
    equal: FilterOp,
    unequal: FilterOp,
    at_least: FilterOp,
    greater: FilterOp,
)
    requires
        value is Numeric || value is Date || value is Timestamptz,
        has_value(index, node, less, Some(value)),
        at_most.column() == less.column() && equal.column() == less.column(),
        unequal.column() == less.column() && at_least.column() == less.column(),
        greater.column() == less.column(),
        less.wanted() == FilterCondition::LtI64(limit),
        at_most.wanted() == FilterCondition::LteI64(limit),
        equal.wanted() == FilterCondition::EqI64(limit),
        unequal.wanted() == FilterCondition::NeqI64(limit),
        at_least.wanted() == FilterCondition::GteI64(limit),
        greater.wanted() == FilterCondition::GtI64(limit),
    ensures
        ({
            let lt = filter_holds(index, node, less, None);
            let lte = filter_holds(index, node, at_most, None);
            let eq = filter_holds(index, node, equal, None);
            let neq = filter_holds(index, node, unequal, None);
            let gte = filter_holds(index, node, at_least, None);
            let gt = filter_holds(index, node, greater, None);
            &&& lt || eq || gt
            &&& !(lt && eq) && !(lt && gt) && !(eq && gt)
            &&& lte <==> lt || eq
            &&& gte <==> gt || eq
            &&& lte <==> !gt
            &&& gte <==> !lt
            &&& neq <==> !eq
        }),
{
    assert(has_value(index, node, less, Some(value)));
    assert(has_value(index, node, at_most, Some(value)));
    assert(has_value(index, node, equal, Some(value)));
    assert(has_value(index, node, unequal, Some(value)));
    assert(has_value(index, node, at_least, Some(value)));
    assert(has_value(index, node, greater, Some(value)));
}

/// Comparisons respect the order of stored numbers: where one node's number is
/// at most another's, every upper limit that the greater one keeps the smaller
/// one keeps, and every lower limit that the smaller one keeps the greater one
/// keeps.
pub proof fn law_comparisons_are_monotone(
    index: FilterIndex,
    op: FilterOp,
    small: u32,
    large: u32,
    a: i64,
    b: i64,
)
    requires
        has_value(index, small, op, Some(EncodedFilterValue::Numeric(a))),
        has_value(index, large, op, Some(EncodedFilterValue::Numeric(b))),
        a <= b,
    ensures
        (op.wanted() is LtI64 || op.wanted() is LteI64 || op.wanted() is Lt || op.wanted() is Lte)
            && filter_holds(index, large, op, None) ==> filter_holds(index, small, op, None),
        (op.wanted() is GtI64 || op.wanted() is GteI64 || op.wanted() is Gt || op.wanted() is Gte)
            && filter_holds(index, small, op, None) ==> filter_holds(index, large, op, None),
{
}

/// A registered column keeps what is set for it: a value of the column's domain,
/// set for a node that the column was registered for, is the node's value, and
/// filters see it. It does not matter how many values were expected, nor what
/// was set before. No other node's or column's value or answers change.
pub proof fn law_registered_column_keeps_values(
    before: FilterIndex,
    registered: FilterIndex,
    middle: FilterIndex,
    after: FilterIndex,
    column: ColumnView,
    nodes: nat,
    populated: nat,
    node: u32,
    value: EncodedFilterValue,
    op: FilterOp,
    other: FilterOp,
    elsewhere: u32,
)
    requires
        before.wf(),
        registers(before, registered, column, nodes, populated),
        places(registered, middle, op.column() as int, elsewhere, None) || middle == registered,
        op.column() == before.registered().len(),
        node < nodes,
        match value {
            EncodedFilterValue::Numeric(_) => column.column_type is Numeric,
            EncodedFilterValue::Boolean(_) => column.column_type is Boolean,
            EncodedFilterValue::Text(_) => column.column_type is Text,
            EncodedFilterValue::Date(_) => column.column_type is Date,
            EncodedFilterValue::Timestamptz(_) => column.column_type is Timestamptz,
            EncodedFilterValue::Uuid(_) => column.column_type is Uuid,
        },
        sets(middle, after, op.column() as int, node, Some(value)),
        other.column() != op.column() || elsewhere != node,
    ensures
        after.value(op.column() as int, node) == Some(value),
        after.value(other.column() as int, elsewhere) == middle.value(
            other.column() as int,
            elsewhere,
        ),
        op.wanted() is IsNull ==> !filter_holds(after, node, op, None),
        filter_holds(after, elsewhere, other, None) == filter_holds(
            middle,
            elsewhere,
            other,
            None,
        ),
{
}

/// What is cleared for a node of a column is gone, whatever was set before.
pub proof fn law_cleared_value_is_null(
    before: FilterIndex,
    after: FilterIndex,
    op: FilterOp,
    node: u32,
)
    requires
        op.column() < before.registered().len(),
        node < before.column_nodes(op.column() as int),
        sets(before, after, op.column() as int, node, None),
    ensures
        after.value(op.column() as int, node) is None,
        filter_holds(after, node, op, None) <==> op.wanted() is IsNull,
{
}

/// A value that is set for a node beyond those that the column was registered
/// for changes nothing.
pub proof fn law_set_beyond_column_is_ignored(
    before: FilterIndex,
    after: FilterIndex,
    column: int,
    node: u32,
    value: Option<EncodedFilterValue>,
    op: FilterOp,
    elsewhere: u32,
)
    requires
        node >= before.column_nodes(column),
        sets(before, after, column, node, value),
    ensures
        filter_holds(after, elsewhere, op, None) == filter_holds(before, elsewhere, op, None),
{
}

/// Several operations hold of a node exactly if each of them does: none is
/// dropped, and one more can only take nodes away.
pub proof fn law_operations_hold_together(
    index: FilterIndex,
    node: u32,
    ops: Seq<FilterOp>,
    more: FilterOp,
)
    ensures
        ops.len() == 0 ==> filters_hold(index, node, ops),
        filters_hold(index, node, ops.push(more)) <==> filters_hold(index, node, ops)
            && filter_holds(index, node, more, None),
{
    let all = ops.push(more);
    if filters_hold(index, node, all) {
        assert forall|i: int| 0 <= i < ops.len() implies filter_holds(
            index,
            node,
            #[trigger] ops[i],
            None,
        ) by {
            assert(all[i] == ops[i]);
        }
        assert(all[ops.len() as int] == more);
    }
}

/// The answers of `FilterIndex::check_filter` are those for the stored value,
/// and of `FilterIndex::check_filter_with_update` those for the update, if there
/// is one.
pub proof fn law_checks_answer_for_values(
    index: FilterIndex,
    node: u32,
    op: FilterOp,
    update: Option<EncodedFilterValue>,
    stored: bool,
    kept: bool,
    updated: bool,
)
    requires
        call_ensures(FilterIndex::check_filter, (&index, node, &op), stored),
        call_ensures(
            FilterIndex::check_filter_with_update,
            (&index, node, &op, None::<Option<EncodedFilterValue>>),
            kept,
        ),
        call_ensures(
            FilterIndex::check_filter_with_update,
            (&index, node, &op, Some(update)),
            updated,
        ),
    ensures
        stored == filter_holds(index, node, op, None),
        kept == stored,
        updated == filter_holds(index, node, op, Some(update)),
{
}

/// The answers of `UnsignedFilterOp::check` are those of the order of integers.
pub proof fn law_unsigned_checks_compare_integers(op: UnsignedFilterOp, value: u32, matched: bool)
    requires
        call_ensures(UnsignedFilterOp::check, (&op, value), matched),
    ensures
        match op {
            UnsignedFilterOp::Gt(_, limit) => matched <==> value - limit > 0,
            UnsignedFilterOp::Gte(_, limit) => matched <==> value - limit >= 0,
            UnsignedFilterOp::Lt(_, limit) => matched <==> value - limit < 0,
            UnsignedFilterOp::Lte(_, limit) => matched <==> value - limit <= 0,
            UnsignedFilterOp::Eq(_, limit) => matched <==> value - limit == 0,
            UnsignedFilterOp::Neq(_, limit) => matched <==> value - limit != 0,
        },
{
}

/// A pending update decides in place of the stored value: the answer is that of
/// any index whose node has the updated value.
pub proof fn law_update_replaces_value(
    index: FilterIndex,
    other: FilterIndex,
    node: u32,
    op: FilterOp,
    value: Option<EncodedFilterValue>,
)
    requires
        has_value(other, node, op, value),
        index.texts(op.column() as int) == other.texts(op.column() as int),
    ensures
        filter_holds(index, node, op, Some(value)) == filter_holds(other, node, op, None),
        filter_holds(index, node, op, Some(None)) <==> op.wanted() is IsNull,
{
}

} // verus!
