//! The lexical dictionary of a persisted text column: a table of offsets, then
//! the texts in strictly increasing order.
use vstd::prelude::*;
use vstd::slice::slice_subrange;
use vstd::utf8::{
    decode_utf8, decode_utf8_encode_utf8, encode_utf8, encode_utf8_decode_utf8,
    encode_utf8_valid_utf8, valid_utf8,
};

use crate::codec::{
    law_le_read_gives_back_write, le_bytes, lemma_le_len, lemma_lex_irreflexive,
    lemma_lex_transitive, lemma_radix_values, lex_less, read_le, sorts_before,
};
use crate::errors::{corrupt, GraphResult};
use crate::filter_column::word;
use crate::text::utf8_text;

verus! {

/// Where the texts of a dictionary start.
pub open spec fn strings_start(count: nat) -> int {
    8 * (count as int + 1)
}

/// An entry of the offset table.
pub open spec fn offset_at(dictionary: Seq<u8>, token: int) -> nat {
    word(dictionary, 8 * token, 8)
}

/// The bytes of a token's text.
pub open spec fn token_bytes(dictionary: Seq<u8>, count: nat, token: int) -> Seq<u8> {
    dictionary.subrange(
        strings_start(count) + offset_at(dictionary, token),
        strings_start(count) + offset_at(dictionary, token + 1),
    )
}

/// Whether a token's range is inside the texts and holds UTF-8.
pub open spec fn token_valid(dictionary: Seq<u8>, count: nat, token: int) -> bool {
    &&& offset_at(dictionary, token) <= offset_at(dictionary, token + 1)
    &&& strings_start(count) + offset_at(dictionary, token + 1) <= dictionary.len()
    &&& valid_utf8(token_bytes(dictionary, count, token))
}

/// Whether dictionary bytes are canonical.
pub open spec fn dictionary_valid(dictionary: Seq<u8>, count: nat) -> bool {
    &&& strings_start(count) <= dictionary.len()
    &&& offset_at(dictionary, 0) == 0
    &&& strings_start(count) + offset_at(dictionary, count as int) == dictionary.len()
    &&& forall|token: int| 0 <= token < count ==> #[trigger] token_valid(dictionary, count, token)
    &&& forall|low: int, high: int|
        0 <= low < high < count ==> lex_less(
            #[trigger] token_bytes(dictionary, count, low),
            #[trigger] token_bytes(dictionary, count, high),
        )
}

/// The text of a token.
pub open spec fn dictionary_text(dictionary: Seq<u8>, count: nat, token: int) -> Seq<char> {
    decode_utf8(token_bytes(dictionary, count, token))
}

/// The texts of a dictionary.
pub open spec fn dictionary_texts(dictionary: Seq<u8>, count: nat) -> Seq<Seq<char>> {
    Seq::new(count, |token: int| dictionary_text(dictionary, count, token))
}

/// Accepts canonical dictionary bytes.
pub fn validate_dictionary(dictionary: &[u8], count: u32) -> (result: GraphResult<()>)
    ensures
        result is Ok <==> dictionary_valid(dictionary@, count as nat),
        result matches Err(error) ==> error@ is CorruptFile,
{
    let length: usize = dictionary.len();
    let table: u64 = (count as u64 + 1) * 8;
    proof {
        lemma_radix_values();
    }
    if (length as u64) < table || read_le(dictionary, 0, 8) != 0 {
        return Err(corrupt("text filter column has an invalid dictionary offset table"));
    }
    let start: usize = table as usize;
    if read_le(dictionary, count as usize * 8, 8) != (length - start) as u128 {
        return Err(corrupt("text filter column dictionary terminal offset is invalid"));
    }
    let mut token: u32 = 0;
    while token < count
        invariant
            token <= count,
            start == strings_start(count as nat) <= length == dictionary@.len(),
            forall|t: int|
                0 <= t < token ==> #[trigger] token_valid(dictionary@, count as nat, t),
            forall|low: int, high: int|
                0 <= low < high < token ==> lex_less(
                    #[trigger] token_bytes(dictionary@, count as nat, low),
                    #[trigger] token_bytes(dictionary@, count as nat, high),
                ),
        decreases count - token,
    {
        proof {
            lemma_radix_values();
        }
        let low: u128 = read_le(dictionary, token as usize * 8, 8);
        let high: u128 = read_le(dictionary, (token as usize + 1) * 8, 8);
        assert(low == offset_at(dictionary@, token as int));
        assert(high == offset_at(dictionary@, token + 1));
        if low > high || high > (length - start) as u128 {
            assert(!token_valid(dictionary@, count as nat, token as int));
            return Err(corrupt("dictionary string range is invalid"));
        }
        let bytes: &[u8] = slice_subrange(
            dictionary,
            start + low as usize,
            start + high as usize,
        );
        assert(bytes@ == token_bytes(dictionary@, count as nat, token as int));
        if utf8_text(bytes).is_none() {
            assert(!token_valid(dictionary@, count as nat, token as int));
            return Err(corrupt("filter dictionary value is not UTF-8"));
        }
        if token > 0 {
            assert(token_valid(dictionary@, count as nat, token - 1));
            let before: u128 = read_le(dictionary, (token as usize - 1) * 8, 8);
            assert(before == offset_at(dictionary@, token - 1));
            let previous: &[u8] = slice_subrange(
                dictionary,
                start + before as usize,
                start + low as usize,
            );
            assert(previous@ == token_bytes(dictionary@, count as nat, token - 1));
            if !sorts_before(previous, bytes) {
                return Err(corrupt("text filter column dictionary is not strictly lexical"));
            }
        }
        proof {
            assert(token_valid(dictionary@, count as nat, token as int));
            assert forall|low: int, high: int| 0 <= low < high < token + 1 implies lex_less(
                #[trigger] token_bytes(dictionary@, count as nat, low),
                #[trigger] token_bytes(dictionary@, count as nat, high),
            ) by {
                if high == token && low < token - 1 {
                    lemma_lex_transitive(
                        token_bytes(dictionary@, count as nat, low),
                        token_bytes(dictionary@, count as nat, token - 1),
                        token_bytes(dictionary@, count as nat, token as int),
                    );
                }
            }
        }
        token = token + 1;
    }
    Ok(())
}

/// The bytes of a token's text.
fn bytes_of_token(dictionary: &[u8], count: u32, token: u32) -> (bytes: &[u8])
    requires
        dictionary_valid(dictionary@, count as nat),
        token < count,
    ensures
        bytes@ == token_bytes(dictionary@, count as nat, token as int),
        valid_utf8(bytes@),
{
    let length: usize = dictionary.len();
    proof {
        lemma_radix_values();
        assert(token_valid(dictionary@, count as nat, token as int));
    }
    let start: usize = (count as usize + 1) * 8;
    let low: u128 = read_le(dictionary, token as usize * 8, 8);
    let high: u128 = read_le(dictionary, (token as usize + 1) * 8, 8);
    assert(low == offset_at(dictionary@, token as int));
    assert(high == offset_at(dictionary@, token + 1));
    slice_subrange(dictionary, start + low as usize, start + high as usize)
}

/// The text of a token.
pub fn text_of_token(dictionary: &[u8], count: u32, token: u32) -> (text: Option<&str>)
    requires
        dictionary_valid(dictionary@, count as nat),
    ensures
        match text {
            Some(value) => token < count && value@ == dictionary_text(
                dictionary@,
                count as nat,
                token as int,
            ),
            None => token >= count,
        },
{
    if token >= count {
        None
    } else {
        utf8_text(bytes_of_token(dictionary, count, token))
    }
}

/// The token of a text.
pub fn token_of_text(dictionary: &[u8], count: u32, text: &str) -> (token: Option<u32>)
    requires
        dictionary_valid(dictionary@, count as nat),
    ensures
        match token {
            Some(token) => token < count && dictionary_text(
                dictionary@,
                count as nat,
                token as int,
            ) == text@,
            None => !dictionary_texts(dictionary@, count as nat).contains(text@),
        },
{
    let wanted: &[u8] = text.as_bytes();
    let mut low: u32 = 0;
    let mut high: u32 = count;
    while low < high
        invariant
            low <= high <= count,
            dictionary_valid(dictionary@, count as nat),
            wanted@ == encode_utf8(text@),
            forall|t: int|
                0 <= t < low ==> lex_less(
                    #[trigger] token_bytes(dictionary@, count as nat, t),
                    wanted@,
                ),
            forall|t: int|
                high <= t < count ==> lex_less(
                    wanted@,
                    #[trigger] token_bytes(dictionary@, count as nat, t),
                ),
        decreases high - low,
    {
        let mid: u32 = low + (high - low) / 2;
        let here: &[u8] = bytes_of_token(dictionary, count, mid);
        if sorts_before(here, wanted) {
            proof {
                assert forall|t: int| 0 <= t < mid + 1 implies lex_less(
                    #[trigger] token_bytes(dictionary@, count as nat, t),
                    wanted@,
                ) by {
                    if t < mid {
                        lemma_lex_transitive(
                            token_bytes(dictionary@, count as nat, t),
                            here@,
                            wanted@,
                        );
                    }
                }
            }
            low = mid + 1;
        } else if sorts_before(wanted, here) {
            proof {
                assert forall|t: int| mid <= t < count implies lex_less(
                    wanted@,
                    #[trigger] token_bytes(dictionary@, count as nat, t),
                ) by {
                    if t > mid {
                        lemma_lex_transitive(
                            wanted@,
                            here@,
                            token_bytes(dictionary@, count as nat, t),
                        );
                    }
                }
            }
            high = mid;
        } else {
            proof {
                crate::codec::lemma_lex_total(here@, wanted@);
                encode_utf8_decode_utf8(text@);
            }
            return Some(mid);
        }
    }
    proof {
        let texts = dictionary_texts(dictionary@, count as nat);
        if texts.contains(text@) {
            let t = choose|t: int| 0 <= t < texts.len() && texts[t] == text@;
            assert(token_valid(dictionary@, count as nat, t));
            decode_utf8_encode_utf8(token_bytes(dictionary@, count as nat, t));
            assert(token_bytes(dictionary@, count as nat, t) == wanted@);
            lemma_lex_irreflexive(wanted@);
        }
    }
    None
}

/// A canonical dictionary holds no text twice.
pub proof fn lemma_dictionary_different(dictionary: Seq<u8>, count: nat)
    requires
        dictionary_valid(dictionary, count),
    ensures
        crate::text_dictionary::all_different(dictionary_texts(dictionary, count)),
{
    let texts = dictionary_texts(dictionary, count);
    assert forall|i: int, j: int| 0 <= i < j < texts.len() implies #[trigger] texts[i]
        != #[trigger] texts[j] by {
        assert(token_valid(dictionary, count, i) && token_valid(dictionary, count, j));
        decode_utf8_encode_utf8(token_bytes(dictionary, count, i));
        decode_utf8_encode_utf8(token_bytes(dictionary, count, j));
        assert(lex_less(token_bytes(dictionary, count, i), token_bytes(dictionary, count, j)));
        lemma_lex_irreflexive(token_bytes(dictionary, count, i));
    }
}

/// Whether texts are in strictly increasing order of their bytes.
pub open spec fn lexical(texts: Seq<Seq<char>>) -> bool {
    forall|i: int, j: int|
        0 <= i < j < texts.len() ==> lex_less(
            encode_utf8(#[trigger] texts[i]),
            encode_utf8(#[trigger] texts[j]),
        )
}

/// Bytes of the first texts.
pub open spec fn text_end(texts: Seq<Seq<char>>, count: nat) -> nat
    decreases count,
{
    if count == 0 {
        0
    } else {
        text_end(texts, (count - 1) as nat) + encode_utf8(texts[count - 1]).len()
    }
}

/// The first texts, one after the other.
pub open spec fn joined_texts(texts: Seq<Seq<char>>, count: nat) -> Seq<u8>
    decreases count,
{
    if count == 0 {
        Seq::empty()
    } else {
        joined_texts(texts, (count - 1) as nat) + encode_utf8(texts[count - 1])
    }
}

/// The first entries of the offset table.
pub open spec fn offset_table(texts: Seq<Seq<char>>, entries: nat) -> Seq<u8>
    decreases entries,
{
    if entries == 0 {
        Seq::empty()
    } else {
        offset_table(texts, (entries - 1) as nat) + le_bytes(
            text_end(texts, (entries - 1) as nat),
            8,
        )
    }
}

/// The dictionary of lexical texts.
pub open spec fn dictionary_bytes(texts: Seq<Seq<char>>) -> Seq<u8> {
    offset_table(texts, texts.len() + 1) + joined_texts(texts, texts.len())
}

proof fn lemma_offset_table(texts: Seq<Seq<char>>, entries: nat, at: int)
    requires
        entries <= texts.len() + 1,
        text_end(texts, texts.len()) < 0x1_0000_0000_0000_0000,
    ensures
        offset_table(texts, entries).len() == 8 * entries,
        0 <= at < entries ==> offset_table(texts, entries).subrange(8 * at, 8 * at + 8) == le_bytes(
            text_end(texts, at as nat),
            8,
        ),
    decreases entries,
{
    if entries > 0 {
        let last = (entries - 1) as nat;
        lemma_le_len(text_end(texts, last), 8);
        lemma_offset_table(texts, last, at);
        if 0 <= at < last {
            assert(offset_table(texts, entries).subrange(8 * at, 8 * at + 8) =~= offset_table(
                texts,
                last,
            ).subrange(8 * at, 8 * at + 8));
        } else if at == last {
            assert(offset_table(texts, entries).subrange(8 * at, 8 * at + 8) =~= le_bytes(
                text_end(texts, last),
                8,
            ));
        }
    }
}

/// The length of an offset table.
pub proof fn lemma_table_len(texts: Seq<Seq<char>>, entries: nat)
    ensures
        offset_table(texts, entries).len() == 8 * entries,
    decreases entries,
{
    if entries > 0 {
        lemma_le_len(text_end(texts, (entries - 1) as nat), 8);
        lemma_table_len(texts, (entries - 1) as nat);
    }
}

/// The end of texts grows, and a text stands between two ends.
pub proof fn lemma_joined(texts: Seq<Seq<char>>, count: nat, at: int)
    requires
        0 <= at <= count <= texts.len(),
    ensures
        joined_texts(texts, count).len() == text_end(texts, count),
        text_end(texts, at as nat) <= text_end(texts, count),
        at < count ==> text_end(texts, (at + 1) as nat) <= text_end(texts, count)
            && joined_texts(texts, count).subrange(
            text_end(texts, at as nat) as int,
            text_end(texts, (at + 1) as nat) as int,
        ) == encode_utf8(texts[at]),
    decreases count,
{
    if count > 0 {
        let last = (count - 1) as nat;
        if at < count {
            lemma_joined(texts, last, at);
            if at < last {
                assert(joined_texts(texts, count).subrange(
                    text_end(texts, at as nat) as int,
                    text_end(texts, (at + 1) as nat) as int,
                ) =~= joined_texts(texts, last).subrange(
                    text_end(texts, at as nat) as int,
                    text_end(texts, (at + 1) as nat) as int,
                ));
            } else {
                assert(joined_texts(texts, count).subrange(
                    text_end(texts, at as nat) as int,
                    text_end(texts, (at + 1) as nat) as int,
                ) =~= encode_utf8(texts[at]));
            }
        } else {
            lemma_joined(texts, last, last as int);
        }
    }
}

/// Reading a written dictionary gives back its texts.
pub proof fn law_dictionary_reads_back(texts: Seq<Seq<char>>)
    requires
        lexical(texts),
        text_end(texts, texts.len()) < 0x1_0000_0000_0000_0000,
    ensures
        dictionary_valid(dictionary_bytes(texts), texts.len()),
        dictionary_texts(dictionary_bytes(texts), texts.len()) == texts,
{
    let bytes = dictionary_bytes(texts);
    let count = texts.len();
    let table = offset_table(texts, count + 1);
    lemma_radix_values();
    lemma_offset_table(texts, count + 1, 0);
    assert forall|at: int| 0 <= at <= count implies #[trigger] offset_at(bytes, at) == text_end(
        texts,
        at as nat,
    ) by {
        lemma_offset_table(texts, count + 1, at);
        assert(bytes.subrange(8 * at, 8 * at + 8) =~= table.subrange(8 * at, 8 * at + 8));
        lemma_joined(texts, count, at);
        law_le_read_gives_back_write(text_end(texts, at as nat), 8);
    }
    lemma_joined(texts, count, count as int);
    assert forall|at: int| 0 <= at < count implies #[trigger] token_bytes(bytes, count, at)
        == encode_utf8(texts[at]) by {
        lemma_joined(texts, count, at);
        assert(offset_at(bytes, at) == text_end(texts, at as nat));
        assert(offset_at(bytes, at + 1) == text_end(texts, (at + 1) as nat));
        assert(token_bytes(bytes, count, at) =~= joined_texts(texts, count).subrange(
            text_end(texts, at as nat) as int,
            text_end(texts, (at + 1) as nat) as int,
        ));
    }
    assert forall|at: int| 0 <= at < count implies #[trigger] token_valid(bytes, count, at) by {
        lemma_joined(texts, count, at);
        assert(offset_at(bytes, at) == text_end(texts, at as nat));
        assert(offset_at(bytes, at + 1) == text_end(texts, (at + 1) as nat));
        assert(token_bytes(bytes, count, at) == encode_utf8(texts[at]));
        encode_utf8_valid_utf8(texts[at]);
    }
    assert forall|low: int, high: int| 0 <= low < high < count implies lex_less(
        #[trigger] token_bytes(bytes, count, low),
        #[trigger] token_bytes(bytes, count, high),
    ) by {
        assert(lex_less(encode_utf8(texts[low]), encode_utf8(texts[high])));
    }
    assert(offset_at(bytes, 0) == text_end(texts, 0));
    assert(offset_at(bytes, count as int) == text_end(texts, count));
    assert forall|at: int| 0 <= at < count implies #[trigger] dictionary_texts(bytes, count)[at]
        == texts[at] by {
        assert(token_bytes(bytes, count, at) == encode_utf8(texts[at]));
        encode_utf8_decode_utf8(texts[at]);
    }
    assert(dictionary_texts(bytes, count) =~= texts);
}

/// A set of texts has one lexical order.
pub proof fn lemma_lexical_unique(left: Seq<Seq<char>>, right: Seq<Seq<char>>)
    requires
        lexical(left),
        lexical(right),
        forall|text: Seq<char>| #[trigger] left.contains(text) <==> right.contains(text),
    ensures
        left == right,
    decreases left.len(),
{
    if left.len() == 0 {
        if right.len() > 0 {
            assert(right.contains(right[0]));
            assert(left.contains(right[0]));
        }
        assert(left =~= right);
    } else {
        assert(left.contains(left.last()));
        assert(right.contains(left.last()));
        let j = choose|j: int| 0 <= j < right.len() && right[j] == left.last();
        assert(right.contains(right.last()));
        assert(left.contains(right.last()));
        let i = choose|i: int| 0 <= i < left.len() && left[i] == right.last();
        if j < right.len() - 1 {
            assert(lex_less(encode_utf8(right[j]), encode_utf8(right.last())));
            lemma_lex_irreflexive(encode_utf8(left.last()));
            if i < left.len() - 1 {
                assert(lex_less(encode_utf8(left[i]), encode_utf8(left.last())));
                lemma_lex_transitive(
                    encode_utf8(left.last()),
                    encode_utf8(right.last()),
                    encode_utf8(left.last()),
                );
            }
        }
        assert(left.last() == right.last());
        let l = left.drop_last();
        let r = right.drop_last();
        assert(lexical(l)) by {
            assert forall|a: int, b: int| 0 <= a < b < l.len() implies lex_less(
                encode_utf8(#[trigger] l[a]),
                encode_utf8(#[trigger] l[b]),
            ) by {
                assert(lex_less(encode_utf8(left[a]), encode_utf8(left[b])));
            }
        }
        assert(lexical(r)) by {
            assert forall|a: int, b: int| 0 <= a < b < r.len() implies lex_less(
                encode_utf8(#[trigger] r[a]),
                encode_utf8(#[trigger] r[b]),
            ) by {
                assert(lex_less(encode_utf8(right[a]), encode_utf8(right[b])));
            }
        }
        assert forall|text: Seq<char>| #[trigger] l.contains(text) <==> r.contains(text) by {
            lemma_drop_last_contains(left, text);
            lemma_drop_last_contains(right, text);
            assert(left.contains(text) <==> right.contains(text));
        }
        lemma_lexical_unique(l, r);
        assert(left =~= l.push(left.last()));
        assert(right =~= r.push(right.last()));
    }
}

proof fn lemma_drop_last_contains(texts: Seq<Seq<char>>, text: Seq<char>)
    requires
        lexical(texts),
        texts.len() > 0,
    ensures
        texts.drop_last().contains(text) <==> texts.contains(text) && text != texts.last(),
{
    let rest = texts.drop_last();
    if rest.contains(text) {
        let i = choose|i: int| 0 <= i < rest.len() && rest[i] == text;
        assert(texts[i] == text);
        assert(lex_less(encode_utf8(texts[i]), encode_utf8(texts[texts.len() - 1])));
        lemma_lex_irreflexive(encode_utf8(text));
    }
    if texts.contains(text) && text != texts.last() {
        let i = choose|i: int| 0 <= i < texts.len() && texts[i] == text;
        assert(rest[i] == text);
    }
}

} // verus!
