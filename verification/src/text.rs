//! Text helpers: decimal numbers, UTF-8, case and surrounding space.
use vstd::prelude::*;
use vstd::string::StrSliceExecFns;
use vstd::utf8::*;

verus! {

/// The decimal digit `0..=9` as a character.
pub open spec fn digit(value: nat) -> char
    recommends
        value < 10,
{
    (48 + value) as char
}

/// The decimal notation of a number, without leading zeros.
pub open spec fn decimal(value: nat) -> Seq<char>
    decreases value,
{
    if value < 10 {
        seq![digit(value)]
    } else {
        decimal(value / 10).push(digit(value % 10))
    }
}

/// The decimal notation of a number that may be negative.
pub open spec fn signed_decimal(value: int) -> Seq<char> {
    if value < 0 {
        "-"@ + decimal((-value) as nat)
    } else {
        decimal(value as nat)
    }
}

/// A number in decimal.
pub(crate) fn wide_decimal_text(value: u128) -> (text: String)
    ensures
        text@ == decimal(value as nat),
{
    let mut backward: Vec<char> = Vec::new();
    let mut rest: u128 = value;
    while rest >= 10
        invariant
            decimal(value as nat) == decimal(rest as nat) + backward@.reverse(),
        decreases rest,
    {
        let ghost before = backward@;
        backward.push((48 + (rest % 10) as u8) as char);
        proof {
            assert(backward@.reverse() =~= seq![backward@.last()] + before.reverse());
            assert(decimal((rest / 10) as nat) + backward@.reverse() =~= decimal(rest as nat)
                + before.reverse());
        }
        rest = rest / 10;
    }
    backward.push((48 + rest as u8) as char);
    let mut digits: Vec<char> = Vec::new();
    let mut at: usize = backward.len();
    while at > 0
        invariant
            at <= backward@.len(),
            digits@ == backward@.skip(at as int).reverse(),
        decreases at,
    {
        at = at - 1;
        let ghost before = digits@;
        digits.push(backward[at]);
        assert(digits@ =~= backward@.skip(at as int).reverse());
    }
    assert(digits@ =~= decimal(value as nat)) by {
        assert(backward@.skip(0) =~= backward@);
        assert(backward@.reverse() =~= decimal(rest as nat) + backward@.drop_last().reverse());
    }
    text_of(&digits)
}

/// A number in decimal.
pub(crate) fn decimal_text(value: u64) -> (text: String)
    ensures
        text@ == decimal(value as nat),
{
    wide_decimal_text(value as u128)
}

/// A number in decimal, with a sign if it is negative.
pub(crate) fn signed_text(value: i64) -> (text: String)
    ensures
        text@ == signed_decimal(value as int),
{
    if value < 0 {
        let size: u64 = (-(value as i128)) as u64;
        "-".to_owned().concat(decimal_text(size).as_str())
    } else {
        decimal_text(value as u64)
    }
}

/// What `Debug` writes for a text: in quotes, with escapes.
pub uninterp spec fn escaped(text: Seq<char>) -> Seq<char>;

/// `<str as Debug>::fmt`, through `format!`, writes the text in quotes and
/// escapes what does not stand for itself. The result is that of the text alone.
#[verifier::external_body]
pub(crate) fn escaped_text(text: &str) -> (result: String)
    ensures
        result@ == escaped(text@),
{
    format!("{text:?}")
}

/// `core::str::from_utf8` accepts exactly the valid UTF-8 sequences, and keeps
/// their bytes.
#[verifier::external_body]
pub(crate) fn utf8_text(bytes: &[u8]) -> (text: Option<&str>)
    ensures
        text is Some <==> valid_utf8(bytes@),
        text matches Some(value) ==> value@ == decode_utf8(bytes@),
{
    core::str::from_utf8(bytes).ok()
}

/// `String::from_iter` joins characters in their order.
#[verifier::external_body]
pub(crate) fn text_of(characters: &Vec<char>) -> (text: String)
    ensures
        text@ == characters@,
{
    String::from_iter(characters.iter())
}

/// Whether a character is white space, as Unicode lists it.
pub open spec fn is_space(c: char) -> bool {
    let code = c as u32;
    ||| 0x09 <= code <= 0x0d
    ||| code == 0x20
    ||| code == 0x85
    ||| code == 0xa0
    ||| code == 0x1680
    ||| 0x2000 <= code <= 0x200a
    ||| code == 0x2028
    ||| code == 0x2029
    ||| code == 0x202f
    ||| code == 0x205f
    ||| code == 0x3000
}

fn white(c: char) -> (result: bool)
    ensures
        result == is_space(c),
{
    let code: u32 = c as u32;
    (0x09 <= code && code <= 0x0d) || code == 0x20 || code == 0x85 || code == 0xa0 || code == 0x1680
        || (0x2000 <= code && code <= 0x200a) || code == 0x2028 || code == 0x2029 || code == 0x202f
        || code == 0x205f || code == 0x3000
}

/// Text without white space at its start.
pub open spec fn trim_start(text: Seq<char>) -> Seq<char>
    decreases text.len(),
{
    if text.len() > 0 && is_space(text[0]) {
        trim_start(text.drop_first())
    } else {
        text
    }
}

/// Text without white space at its end.
pub open spec fn trim_end(text: Seq<char>) -> Seq<char>
    decreases text.len(),
{
    if text.len() > 0 && is_space(text.last()) {
        trim_end(text.drop_last())
    } else {
        text
    }
}

/// An ASCII capital becomes its small letter, any other character stays.
pub open spec fn lower_char(c: char) -> char {
    if 'A' <= c <= 'Z' {
        (c as u32 + 32) as char
    } else {
        c
    }
}

/// Text with its ASCII capitals as small letters.
pub open spec fn ascii_lower(text: Seq<char>) -> Seq<char> {
    Seq::new(text.len(), |i: int| lower_char(text[i]))
}

/// An ASCII capital becomes its small letter, any other character stays.
pub fn small(c: char) -> (result: char)
    ensures
        result == lower_char(c),
{
    if 'A' <= c && c <= 'Z' {
        ((c as u8) + 32) as char
    } else {
        c
    }
}

/// The characters of a text.
pub fn characters(text: &str) -> (list: Vec<char>)
    ensures
        list@ == text@,
{
    let mut list: Vec<char> = Vec::new();
    let length: usize = text.unicode_len();
    let mut at: usize = 0;
    while at < length
        invariant
            at <= length == text@.len(),
            list@ == text@.take(at as int),
        decreases length - at,
    {
        list.push(text.get_char(at));
        at = at + 1;
        proof {
            assert(list@ =~= text@.take(at as int));
        }
    }
    proof {
        assert(text@.take(at as int) =~= text@);
    }
    list
}

/// Text without surrounding white space, its ASCII capitals as small letters.
pub fn trimmed_lower(text: &str) -> (list: Vec<char>)
    ensures
        list@ == ascii_lower(trim_end(trim_start(text@))),
{
    let all: Vec<char> = characters(text);
    let mut start: usize = 0;
    proof {
        assert(all@.skip(0) =~= all@);
    }
    while start < all.len() && white(all[start])
        invariant
            start <= all@.len(),
            trim_start(all@) == trim_start(all@.skip(start as int)),
        decreases all@.len() - start,
    {
        proof {
            assert(all@.skip(start as int).drop_first() =~= all@.skip(start + 1));
        }
        start = start + 1;
    }
    let ghost tail = all@.skip(start as int);
    let mut end: usize = all.len();
    proof {
        assert(trim_start(all@) == tail);
        assert(all@.subrange(start as int, end as int) =~= tail);
    }
    while end > start && white(all[end - 1])
        invariant
            start <= end <= all@.len(),
            trim_end(tail) == trim_end(all@.subrange(start as int, end as int)),
        decreases end,
    {
        proof {
            let now = all@.subrange(start as int, end as int);
            assert(now.drop_last() =~= all@.subrange(start as int, end - 1));
            assert(now.last() == all@[end - 1]);
        }
        end = end - 1;
    }
    let ghost middle = all@.subrange(start as int, end as int);
    proof {
        if end > start {
            assert(middle.last() == all@[end - 1]);
        }
        assert(trim_end(tail) == middle);
    }
    let mut list: Vec<char> = Vec::new();
    let mut at: usize = start;
    while at < end
        invariant
            start <= at <= end <= all@.len(),
            middle == all@.subrange(start as int, end as int),
            list@ == ascii_lower(middle).take(at - start),
        decreases end - at,
    {
        list.push(small(all[at]));
        at = at + 1;
        proof {
            assert(list@ =~= ascii_lower(middle).take(at - start));
        }
    }
    proof {
        assert(ascii_lower(middle).take(end - start) =~= ascii_lower(middle));
    }
    list
}

/// Whether characters spell a text.
pub fn spells(list: &Vec<char>, text: &str) -> (equal: bool)
    ensures
        equal == (list@ == text@),
{
    let other: Vec<char> = characters(text);
    if list.len() != other.len() {
        return false;
    }
    let mut at: usize = 0;
    while at < list.len()
        invariant
            at <= list@.len() == other@.len(),
            other@ == text@,
            forall|i: int| 0 <= i < at ==> list@[i] == other@[i],
        decreases list@.len() - at,
    {
        if list[at] != other[at] {
            assert(list@[at as int] != other@[at as int]);
            return false;
        }
        at = at + 1;
    }
    assert(list@ =~= other@);
    true
}

/// UTF-8 bytes of equal texts only are equal.
pub proof fn lemma_utf8_injective(left: Seq<char>, right: Seq<char>)
    ensures
        encode_utf8(left) == encode_utf8(right) <==> left == right,
{
    encode_utf8_decode_utf8(left);
    encode_utf8_decode_utf8(right);
}

/// Whether two texts are equal.
pub fn same_text(left: &str, right: &str) -> (equal: bool)
    ensures
        equal == (left@ == right@),
{
    proof {
        lemma_utf8_injective(left@, right@);
    }
    crate::codec::bytes_equal(left.as_bytes(), right.as_bytes())
}

/// Only white space is trimmed to nothing.
proof fn lemma_blank(text: Seq<char>)
    ensures
        trim_end(trim_start(text)).len() == 0 <==> forall|i: int|
            0 <= i < text.len() ==> is_space(#[trigger] text[i]),
    decreases text.len(),
{
    if text.len() > 0 {
        if is_space(text[0]) {
            lemma_blank(text.drop_first());
            let rest = text.drop_first();
            if forall|i: int| 0 <= i < rest.len() ==> is_space(#[trigger] rest[i]) {
                assert forall|i: int| 0 <= i < text.len() implies is_space(#[trigger] text[i]) by {
                    if i > 0 {
                        assert(text[i] == rest[i - 1]);
                    }
                }
            }
            if forall|i: int| 0 <= i < text.len() ==> is_space(#[trigger] text[i]) {
                assert forall|i: int| 0 <= i < rest.len() implies is_space(#[trigger] rest[i]) by {
                    assert(rest[i] == text[i + 1]);
                }
            }
        } else {
            lemma_end_keeps(text);
        }
    }
}

/// Text whose first character is not white space does not vanish.
proof fn lemma_end_keeps(text: Seq<char>)
    requires
        text.len() > 0,
        !is_space(text[0]),
    ensures
        trim_end(text).len() > 0,
    decreases text.len(),
{
    if is_space(text.last()) {
        lemma_end_keeps(text.drop_last());
    }
}

/// Whether text holds nothing but white space.
pub fn is_blank(text: &str) -> (blank: bool)
    ensures
        blank == (trim_end(trim_start(text@)).len() == 0),
{
    let list: Vec<char> = characters(text);
    proof {
        lemma_blank(text@);
    }
    let mut at: usize = 0;
    while at < list.len()
        invariant
            at <= list@.len(),
            list@ == text@,
            forall|i: int| 0 <= i < at ==> is_space(#[trigger] list@[i]),
            trim_end(trim_start(text@)).len() == 0 <==> forall|i: int|
                0 <= i < text@.len() ==> is_space(#[trigger] text@[i]),
        decreases list@.len() - at,
    {
        if !white(list[at]) {
            assert(!is_space(text@[at as int]));
            return false;
        }
        at = at + 1;
    }
    true
}

} // verus!
