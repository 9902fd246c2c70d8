//! What the text helpers give: numbers that read back, trimmed and quoted texts
//! that hold what they were made of, and names with one meaning each.
use vstd::prelude::*;
use vstd::utf8::encode_utf8;

use crate::errors::GraphResult;
use crate::filter_value::FilterColumnType;
use crate::graph_policy::{is_canonical_uuid, GraphId, GraphIdentityError};
use crate::scan_codec::{hex_digit, hex_value, parse_uuid, without_dashes};
use crate::scan_sql::{doubled_quotes, quote_ident};
use crate::text::{ascii_lower, decimal, digit, is_space, signed_decimal, trim_end, trim_start};

verus! {

/// The number that decimal digits denote.
pub open spec fn denoted(text: Seq<char>) -> int
    decreases text.len(),
{
    if text.len() == 0 {
        0
    } else {
        10 * denoted(text.drop_last()) + (text.last() as u32 - '0' as u32)
    }
}

/// A number is written in decimal digits that denote it, without a zero before
/// others; one below zero has a sign before the digits.
pub proof fn law_decimal_denotes(value: nat)
    ensures
        denoted(decimal(value)) == value,
        decimal(value).len() > 0,
        forall|i: int| 0 <= i < decimal(value).len() ==> '0' <= #[trigger] decimal(value)[i] <= '9',
        value > 0 ==> decimal(value)[0] != '0',
        value > 0 ==> signed_decimal(-value) == seq!['-'] + decimal(value),
        signed_decimal(value as int) == decimal(value),
    decreases value,
{
    reveal_strlit("-");
    assert("-"@ =~= seq!['-']);
    if value >= 10 {
        law_decimal_denotes(value / 10);
        let text = decimal(value);
        assert(text.drop_last() =~= decimal(value / 10));
        assert(text.last() == digit(value % 10));
    } else {
        let text = decimal(value);
        assert(text.drop_last().len() == 0);
        assert(denoted(text.drop_last()) == 0);
    }
}

/// Whether all of a text is white space.
pub open spec fn all_space(text: Seq<char>) -> bool {
    forall|i: int| 0 <= i < text.len() ==> is_space(#[trigger] text[i])
}

/// Trimming takes away the white space around a text, and nothing else.
pub proof fn law_trimming_keeps_the_core(left: Seq<char>, core: Seq<char>, right: Seq<char>)
    requires
        all_space(left),
        all_space(right),
        core.len() > 0,
        !is_space(core[0]),
        !is_space(core.last()),
    ensures
        trim_end(trim_start(left + core + right)) == core,
    decreases left.len() + right.len(),
{
    let text = left + core + right;
    if left.len() > 0 {
        assert(is_space(left[0]));
        assert(text[0] == left[0]);
        assert(text.drop_first() =~= left.drop_first() + core + right);
        assert forall|i: int| 0 <= i < left.drop_first().len() implies is_space(
            #[trigger] left.drop_first()[i],
        ) by {
            assert(left.drop_first()[i] == left[i + 1]);
        }
        law_trimming_keeps_the_core(left.drop_first(), core, right);
    } else {
        assert(text =~= core + right);
        assert(text[0] == core[0]);
        assert(trim_start(text) == text);
        if right.len() > 0 {
            assert(text.last() == right.last());
            assert(is_space(right[right.len() - 1]));
            assert(text.drop_last() =~= core + right.drop_last());
            law_trimming_keeps_the_core(left, core, right.drop_last());
            assert(left + core + right.drop_last() =~= core + right.drop_last());
            assert(trim_start(core + right.drop_last()) == core + right.drop_last());
        } else {
            assert(text =~= core);
        }
    }
}

/// Lowering changes the capitals of ASCII to the small letters that stand as far
/// from `a` as they do from `A`, and no other character.
pub proof fn law_lowering_changes_capitals(text: Seq<char>, at: int)
    requires
        0 <= at < text.len(),
    ensures
        ascii_lower(text).len() == text.len(),
        ({
            let (before, after) = (text[at], ascii_lower(text)[at]);
            if 'A' <= before <= 'Z' {
                after as u32 - 'a' as u32 == before as u32 - 'A' as u32
            } else {
                after == before
            }
        }),
{
}

/// Each column type has one name, in capitals or small letters and with any white
/// space around it, and no other text names one.
pub proof fn law_column_types_have_names(
    text: &str,
    left: Seq<char>,
    core: Seq<char>,
    right: Seq<char>,
    result: Result<FilterColumnType, String>,
)
    requires
        text@ == left + core + right,
        all_space(left),
        all_space(right),
        core.len() > 0,
        !is_space(core[0]),
        !is_space(core.last()),
        call_ensures(FilterColumnType::parse, (text,), result),
    ensures
        ({
            let name = ascii_lower(core);
            &&& result == Ok::<FilterColumnType, String>(FilterColumnType::Numeric) <==> name
                == "numeric"@
            &&& result == Ok::<FilterColumnType, String>(FilterColumnType::Boolean) <==> name
                == "boolean"@
            &&& result == Ok::<FilterColumnType, String>(FilterColumnType::Text) <==> name
                == "text"@
            &&& result == Ok::<FilterColumnType, String>(FilterColumnType::Date) <==> name
                == "date"@
            &&& result == Ok::<FilterColumnType, String>(FilterColumnType::Timestamptz) <==> name
                == "timestamptz"@
            &&& result == Ok::<FilterColumnType, String>(FilterColumnType::Uuid) <==> name
                == "uuid"@
        }),
{
    law_trimming_keeps_the_core(left, core, right);
    reveal_strlit("numeric");
    reveal_strlit("boolean");
    reveal_strlit("text");
    reveal_strlit("date");
    reveal_strlit("timestamptz");
    reveal_strlit("uuid");
    assert("numeric"@[0] == 'n' && "boolean"@[0] == 'b' && "text"@[0] == 't' && "date"@[0] == 'd'
        && "timestamptz"@[0] == 't' && "uuid"@[0] == 'u');
    assert("text"@.len() == 4 && "timestamptz"@.len() == 11);
}

/// Text without the second of each two quotes.
pub open spec fn undoubled(text: Seq<char>) -> Seq<char>
    decreases text.len(),
{
    if text.len() == 0 {
        Seq::empty()
    } else if text.last() == '"' && text.len() >= 2 {
        undoubled(text.drop_last().drop_last()).push('"')
    } else {
        undoubled(text.drop_last()).push(text.last())
    }
}

/// Whether quotes come in twos, counted from the end.
pub open spec fn quotes_paired(text: Seq<char>) -> bool
    decreases text.len(),
{
    if text.len() == 0 {
        true
    } else if text.last() == '"' {
        text.len() >= 2 && text[text.len() - 2] == '"' && quotes_paired(
            text.drop_last().drop_last(),
        )
    } else {
        quotes_paired(text.drop_last())
    }
}

proof fn lemma_doubled(name: Seq<char>)
    ensures
        undoubled(doubled_quotes(name)) == name,
        quotes_paired(doubled_quotes(name)),
    decreases name.len(),
{
    if name.len() > 0 {
        let rest = name.drop_last();
        lemma_doubled(rest);
        let text = doubled_quotes(name);
        if name.last() == '"' {
            assert(text.drop_last().drop_last() =~= doubled_quotes(rest));
        } else {
            assert(text.drop_last() =~= doubled_quotes(rest));
        }
        assert(rest.push(name.last()) =~= name);
    }
}

/// A quoted identifier stands between quotes, holds quotes in twos only, and
/// gives the identifier back.
pub proof fn law_quoted_identifier_reads_back(name: &str, text: String)
    requires
        call_ensures(quote_ident, (name,), text),
    ensures
        text@.len() >= 2,
        text@[0] == '"' && text@.last() == '"',
        quotes_paired(text@.subrange(1, text@.len() - 1)),
        undoubled(text@.subrange(1, text@.len() - 1)) == name@,
{
    lemma_doubled(name@);
    assert(text@.subrange(1, text@.len() - 1) =~= doubled_quotes(name@));
}

/// A graph identifier is accepted exactly if it has thirty-six bytes, dashes
/// behind the eighth, twelfth, sixteenth and twentieth digit, and digits or small
/// letters up to `f` elsewhere; it is kept as it is.
pub proof fn law_graph_identifiers_are_canonical(
    text: &str,
    result: Result<GraphId, GraphIdentityError>,
    accepted: bool,
)
    requires
        call_ensures(GraphId::parse, (text,), result),
        call_ensures(is_canonical_uuid, (text,), accepted),
    ensures
        accepted <==> result is Ok,
        result matches Ok(id) ==> id@ == text@,
        accepted <==> encode_utf8(text@).len() == 36 && forall|i: int|
            0 <= i < 36 ==> ({
                let byte = #[trigger] encode_utf8(text@)[i];
                if i == 8 || i == 13 || i == 18 || i == 23 {
                    byte == '-' as u8
                } else {
                    '0' as u8 <= byte <= '9' as u8 || 'a' as u8 <= byte <= 'f' as u8
                }
            }),
{
    let bytes = encode_utf8(text@);
    if accepted {
        assert forall|i: int| 0 <= i < 36 implies ({
            let byte = #[trigger] bytes[i];
            if i == 8 || i == 13 || i == 18 || i == 23 {
                byte == '-' as u8
            } else {
                '0' as u8 <= byte <= '9' as u8 || 'a' as u8 <= byte <= 'f' as u8
            }
        }) by {
            assert(crate::graph_policy::uuid_byte(i, bytes[i]));
        }
    } else if bytes.len() == 36 {
        let i = choose|i: int|
            0 <= i < 36 && !crate::graph_policy::uuid_byte(i, #[trigger] bytes[i]);
        let byte = bytes[i];
        assert(!(if i == 8 || i == 13 || i == 18 || i == 23 {
            byte == '-' as u8
        } else {
            '0' as u8 <= byte <= '9' as u8 || 'a' as u8 <= byte <= 'f' as u8
        }));
    }
}

/// Dashes do not count: taking one away changes nothing, and bytes without any
/// stay as they are.
pub proof fn law_dashes_do_not_count(left: Seq<u8>, right: Seq<u8>)
    ensures
        without_dashes(left + seq!['-' as u8] + right) == without_dashes(left + right),
        (forall|i: int| 0 <= i < left.len() ==> #[trigger] left[i] != '-' as u8) ==> without_dashes(
            left,
        ) == left,
    decreases left.len() + right.len(),
{
    let with = left + seq!['-' as u8] + right;
    if right.len() > 0 {
        law_dashes_do_not_count(left, right.drop_last());
        assert(with.drop_last() =~= left + seq!['-' as u8] + right.drop_last());
        assert((left + right).drop_last() =~= left + right.drop_last());
    } else {
        assert(with.drop_last() =~= left);
        assert(left + right =~= left);
        if left.len() > 0 {
            law_dashes_do_not_count(left.drop_last(), right);
            assert(left.drop_last().push(left.last()) =~= left);
            assert forall|i: int|
                0 <= i < left.drop_last().len() && (forall|k: int|
                    0 <= k < left.len() ==> #[trigger] left[k] != '-' as u8) implies (
            #[trigger] left.drop_last()[i]) != '-' as u8 by {
                assert(left[i] != '-' as u8);
            }
        }
    }
}

/// A hexadecimal digit counts from zero to nine by the digits and from ten to
/// fifteen by the letters, large or small; no other byte is one.
pub proof fn law_hex_digits(byte: u8)
    ensures
        '0' as u8 <= byte <= '9' as u8 ==> hex_digit(byte) == Some((byte - '0' as u8) as nat),
        'a' as u8 <= byte <= 'f' as u8 ==> hex_digit(byte) == Some((10 + byte - 'a' as u8) as nat),
        'A' as u8 <= byte <= 'F' as u8 ==> hex_digit(byte) == Some((10 + byte - 'A' as u8) as nat),
        hex_digit(byte) is Some ==> '0' as u8 <= byte <= '9' as u8 || 'a' as u8 <= byte
            <= 'f' as u8 || 'A' as u8 <= byte <= 'F' as u8,
{
}

/// The digits of a number in hexadecimal, as many as are asked for.
pub open spec fn hex_digits(value: nat, count: nat) -> Seq<nat>
    decreases count,
{
    if count == 0 {
        Seq::empty()
    } else {
        hex_digits(value / 16, (count - 1) as nat).push(value % 16)
    }
}

proof fn lemma_hex_digits(bytes: Seq<u8>)
    requires
        forall|i: int| 0 <= i < bytes.len() ==> hex_digit(#[trigger] bytes[i]) is Some,
    ensures
        hex_digits(hex_value(bytes), bytes.len()).len() == bytes.len(),
        forall|i: int|
            0 <= i < bytes.len() ==> #[trigger] hex_digits(hex_value(bytes), bytes.len())[i]
                == hex_digit(bytes[i])->Some_0,
    decreases bytes.len(),
{
    if bytes.len() > 0 {
        let rest = bytes.drop_last();
        assert forall|i: int| 0 <= i < rest.len() implies hex_digit(
            #[trigger] rest[i],
        ) is Some by {
            assert(hex_digit(bytes[i]) is Some);
        }
        lemma_hex_digits(rest);
        let own = hex_digit(bytes[bytes.len() - 1]);
        assert(own is Some && own->Some_0 < 16);
        let whole = hex_value(bytes);
        assert(whole / 16 == hex_value(rest) && whole % 16 == own->Some_0);
        assert(((bytes.len() - 1) as nat) == rest.len());
    }
}

/// A UUID that is read from text is the number whose thirty-two hexadecimal
/// digits the text gives, dashes left out; any other text is refused.
pub proof fn law_uuid_is_its_digits(text: &str, result: GraphResult<u128>, at: int)
    requires
        call_ensures(parse_uuid, (text,), result),
        0 <= at < 32,
    ensures
        ({
            let digits = without_dashes(encode_utf8(text@));
            &&& result is Ok <==> digits.len() == 32 && forall|i: int|
                0 <= i < 32 ==> hex_digit(#[trigger] digits[i]) is Some
            &&& result matches Ok(uuid) ==> hex_digits(uuid as nat, 32)[at] == hex_digit(
                digits[at],
            )->Some_0
        }),
{
    let digits = without_dashes(encode_utf8(text@));
    if result is Ok {
        lemma_hex_digits(digits);
        lemma_hex_small(digits);
    }
}

proof fn lemma_hex_small(bytes: Seq<u8>)
    requires
        bytes.len() == 32,
        forall|i: int| 0 <= i < bytes.len() ==> hex_digit(#[trigger] bytes[i]) is Some,
    ensures
        hex_value(bytes) <= u128::MAX,
{
    crate::scan_codec::lemma_hex_bound(bytes);
    reveal_with_fuel(crate::scan_codec::sixteens, 33);
}

} // verus!
