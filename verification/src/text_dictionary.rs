//! Interned texts: each distinct text has a token that stays.
use vstd::prelude::*;
use vstd::utf8::encode_utf8;

use crate::codec::{
    bytes_equal, lemma_lex_irreflexive, lemma_lex_total, lemma_lex_transitive, lex_less,
    sorts_before,
};
use crate::filter_dictionary::lexical;
use crate::rooms::{
    adds, lemma_adds, push_list, push_text_list, text_list_needs, text_need, Need, Room,
};
use crate::text::lemma_utf8_injective;

verus! {

/// The texts of a list.
pub open spec fn texts_of(values: Seq<String>) -> Seq<Seq<char>> {
    Seq::new(values.len(), |i: int| values[i]@)
}

/// The first position of a text in a list.
pub open spec fn token_of(texts: Seq<Seq<char>>, text: Seq<char>) -> Option<u32> {
    if exists|i: int| 0 <= i <= u32::MAX && i < texts.len() && #[trigger] texts[i] == text {
        Some(
            (choose|i: int|
                0 <= i <= u32::MAX && i < texts.len() && #[trigger] texts[i] == text) as u32,
        )
    } else {
        None
    }
}

/// Whether no text occurs twice.
pub open spec fn all_different(texts: Seq<Seq<char>>) -> bool {
    forall|i: int, j: int| 0 <= i < j < texts.len() ==> #[trigger] texts[i] != #[trigger] texts[j]
}

/// Distinct texts, each with a token: its position in order of interning.
#[derive(Debug)]
pub struct TextDictionary {
    values: Vec<String>,
    /// Tokens in lexical order of their texts.
    order: Vec<u32>,
}

impl View for TextDictionary {
    type V = Seq<Seq<char>>;

    closed spec fn view(&self) -> Seq<Seq<char>> {
        texts_of(self.values@)
    }
}

/// Whether a token stands in the lexical order.
spec fn is_ordered(order: Seq<u32>, token: int) -> bool {
    exists|i: int| #[trigger] ordered_at(order, i, token)
}

/// Whether a token stands at a position of the lexical order.
spec fn ordered_at(order: Seq<u32>, at: int, token: int) -> bool {
    0 <= at < order.len() && order[at] == token
}

impl TextDictionary {
    spec fn bytes_at(&self, at: int) -> Seq<u8> {
        encode_utf8(self@[self.order@[at] as int])
    }

    /// What every dictionary keeps.
    pub closed spec fn wf(&self) -> bool {
        &&& all_different(self@)
        &&& self@.len() <= u32::MAX + 1
        &&& self.order@.len() == self@.len()
        &&& forall|i: int| 0 <= i < self.order@.len() ==> (#[trigger] self.order@[i]) < self@.len()
        &&& forall|token: int|
            0 <= token < self@.len() ==> #[trigger] is_ordered(self.order@, token)
        &&& forall|i: int, j: int|
            0 <= i < j < self.order@.len() ==> lex_less(
                #[trigger] self.bytes_at(i),
                #[trigger] self.bytes_at(j),
            )
    }

    /// The texts in lexical order.
    pub closed spec fn ranked(&self) -> Seq<Seq<char>> {
        Seq::new(self.order@.len(), |i: int| self@[self.order@[i] as int])
    }

    /// The texts in lexical order are the texts, in strictly increasing order.
    pub proof fn lemma_ranked(&self)
        requires
            self.wf(),
        ensures
            lexical(self.ranked()),
            all_different(self.ranked()),
            self.ranked().len() == self@.len(),
            forall|text: Seq<char>| #[trigger]
                self.ranked().contains(text) <==> self@.contains(text),
    {
        let ranked = self.ranked();
        assert forall|i: int, j: int| 0 <= i < j < ranked.len() implies lex_less(
            encode_utf8(#[trigger] ranked[i]),
            encode_utf8(#[trigger] ranked[j]),
        ) by {
            assert(lex_less(self.bytes_at(i), self.bytes_at(j)));
        }
        assert forall|i: int, j: int| 0 <= i < j < ranked.len() implies #[trigger] ranked[i]
            != #[trigger] ranked[j] by {
            lemma_lex_irreflexive(encode_utf8(ranked[i]));
            assert(lex_less(encode_utf8(ranked[i]), encode_utf8(ranked[j])));
        }
        assert forall|text: Seq<char>| #[trigger] ranked.contains(text) <==> self@.contains(
            text,
        ) by {
            if ranked.contains(text) {
                let i = choose|i: int| 0 <= i < ranked.len() && ranked[i] == text;
                assert(self@[self.order@[i] as int] == text);
            }
            if self@.contains(text) {
                let token = choose|token: int| 0 <= token < self@.len() && self@[token] == text;
                assert(is_ordered(self.order@, token));
                let i = choose|i: int| #[trigger] ordered_at(self.order@, i, token);
                assert(ranked[i] == text);
            }
        }
    }

    /// A dictionary without texts.
    pub fn new() -> (dictionary: Self)
        ensures
            dictionary.wf(),
            dictionary@ == Seq::<Seq<char>>::empty(),
            dictionary.ranked() == Seq::<Seq<char>>::empty(),
    {
        let dictionary = TextDictionary { values: Vec::new(), order: Vec::new() };
        assert(dictionary.ranked() =~= Seq::<Seq<char>>::empty());
        dictionary
    }

    /// The text at a lexical rank.
    pub fn nth(&self, rank: usize) -> (text: &str)
        requires
            self.wf(),
            rank < self@.len(),
        ensures
            text@ == self.ranked()[rank as int],
    {
        let token: u32 = self.order[rank];
        let length: usize = self.values.len();
        self.values[token as usize].as_str()
    }

    /// The lexical rank of an interned text.
    pub fn rank(&self, text: &str) -> (rank: usize)
        requires
            self.wf(),
            self@.contains(text@),
        ensures
            rank < self.ranked().len(),
            self.ranked()[rank as int] == text@,
    {
        let at: usize = self.position(text);
        proof {
            self.lemma_ranked();
            assert(self.ranked().contains(text@));
            let i = choose|i: int| 0 <= i < self.ranked().len() && self.ranked()[i] == text@;
            assert(self.bytes_at(i) == encode_utf8(text@));
            lemma_lex_irreflexive(encode_utf8(text@));
            if at < i {
                assert(lex_less(self.bytes_at(at as int), self.bytes_at(i)));
            }
        }
        at
    }

    /// No text occurs twice, and every position is a token.
    pub proof fn lemma_different(&self)
        requires
            self.wf(),
        ensures
            all_different(self@),
            self@.len() <= u32::MAX + 1,
    {
    }

    /// Number of texts.
    pub fn len(&self) -> (length: usize)
        ensures
            length == self@.len(),
    {
        self.values.len()
    }

    /// The text of a token.
    pub fn get(&self, token: u32) -> (text: Option<&str>)
        ensures
            match text {
                Some(value) => token < self@.len() && value@ == self@[token as int],
                None => token >= self@.len(),
            },
    {
        let length: usize = self.values.len();
        if (token as usize) < length {
            Some(self.values[token as usize].as_str())
        } else {
            None
        }
    }

    /// Where a text stands, or would stand, in the lexical order.
    fn position(&self, text: &str) -> (at: usize)
        requires
            self.wf(),
        ensures
            at <= self.order@.len(),
            forall|i: int|
                0 <= i < at ==> lex_less(#[trigger] self.bytes_at(i), encode_utf8(text@)),
            forall|i: int|
                at <= i < self.order@.len() ==> !lex_less(
                    #[trigger] self.bytes_at(i),
                    encode_utf8(text@),
                ),
    {
        let mut low: usize = 0;
        let mut high: usize = self.order.len();
        let wanted: &[u8] = text.as_bytes();
        while low < high
            invariant
                low <= high <= self.order@.len(),
                self.wf(),
                wanted@ == encode_utf8(text@),
                forall|i: int|
                    0 <= i < low ==> lex_less(#[trigger] self.bytes_at(i), encode_utf8(text@)),
                forall|i: int|
                    high <= i < self.order@.len() ==> !lex_less(
                        #[trigger] self.bytes_at(i),
                        encode_utf8(text@),
                    ),
            decreases high - low,
        {
            let mid: usize = low + (high - low) / 2;
            let token: u32 = self.order[mid];
            let length: usize = self.values.len();
            let here: &[u8] = self.values[token as usize].as_str().as_bytes();
            assert(here@ == self.bytes_at(mid as int));
            if sorts_before(here, wanted) {
                proof {
                    assert forall|i: int| 0 <= i < mid + 1 implies lex_less(
                        #[trigger] self.bytes_at(i),
                        encode_utf8(text@),
                    ) by {
                        if i < mid {
                            lemma_lex_transitive(
                                self.bytes_at(i),
                                self.bytes_at(mid as int),
                                encode_utf8(text@),
                            );
                        }
                    }
                }
                low = mid + 1;
            } else {
                proof {
                    assert forall|i: int| mid <= i < self.order@.len() implies !lex_less(
                        #[trigger] self.bytes_at(i),
                        encode_utf8(text@),
                    ) by {
                        if i > mid && lex_less(self.bytes_at(i), encode_utf8(text@)) {
                            lemma_lex_transitive(
                                self.bytes_at(mid as int),
                                self.bytes_at(i),
                                encode_utf8(text@),
                            );
                        }
                    }
                }
                high = mid;
            }
        }
        low
    }

    /// The token of a text, if it is interned.
    pub fn find(&self, text: &str) -> (token: Option<u32>)
        requires
            self.wf(),
        ensures
            token == token_of(self@, text@),
            match token {
                Some(token) => token < self@.len() && self@[token as int] == text@,
                None => !self@.contains(text@),
            },
    {
        let at: usize = self.position(text);
        if at < self.order.len() {
            let token: u32 = self.order[at];
            let length: usize = self.values.len();
            if bytes_equal(self.values[token as usize].as_str().as_bytes(), text.as_bytes()) {
                proof {
                    lemma_utf8_injective(self@[token as int], text@);
                    lemma_token(self@, token as int, text@);
                }
                return Some(token);
            }
        }
        proof {
            assert forall|t: int| 0 <= t < self@.len() implies #[trigger] self@[t] != text@ by {
                if self@[t] == text@ {
                    assert(is_ordered(self.order@, t));
                    let i = choose|i: int| #[trigger] ordered_at(self.order@, i, t);
                    assert(self.bytes_at(i) == encode_utf8(text@));
                    lemma_lex_irreflexive(encode_utf8(text@));
                    if i > at {
                        assert(lex_less(self.bytes_at(at as int), self.bytes_at(i)));
                    }
                    lemma_utf8_injective(self@[self.order@[at as int] as int], text@);
                }
            }
        }
        None
    }

    /// Interns a text: an interned one keeps its token, another gets the next
    /// one. `None` when no token is left.
    pub fn intern(&mut self, text: &str) -> (token: Option<u32>)
        requires
            old(self).wf(),
        ensures
            final(self).wf(),
            token is None <==> !old(self)@.contains(text@) && old(self)@.len() > u32::MAX,
            final(self)@ == (if token is None || old(self)@.contains(text@) {
                old(self)@
            } else {
                old(self)@.push(text@)
            }),
            token matches Some(token) ==> token < final(self)@.len() && final(self)@[token as int]
                == text@,
            token is None || old(self)@.contains(text@) ==> final(self).ranked() == old(
                self,
            ).ranked(),
            token is Some && !old(self)@.contains(text@) ==> exists|at: int|
                0 <= at <= old(self).ranked().len() && final(self).ranked()
                    == #[trigger] old(self).ranked().insert(at, text@),
    {
        if let Some(token) = self.find(text) {
            return Some(token);
        }
        let length: usize = self.values.len();
        if length > u32::MAX as usize {
            return None;
        }
        let at: usize = self.position(text);
        let token: u32 = length as u32;
        let ghost before = *self;
        self.values.push(text.to_owned());
        self.order.insert(at, token);
        proof {
            assert(self@ =~= before@.push(text@));
            lemma_interned(before, *self, text@, at as int);
            assert(self.ranked() =~= before.ranked().insert(at as int, text@)) by {
                assert forall|i: int| 0 <= i < before.order@.len() implies (
                #[trigger] before.order@[i]) < before@.len() by {}
            }
        }
        Some(token)
    }
}

/// A text of a dictionary has the token of its position.
pub proof fn lemma_token(texts: Seq<Seq<char>>, at: int, text: Seq<char>)
    requires
        all_different(texts),
        0 <= at < texts.len(),
        at <= u32::MAX,
        texts[at] == text,
    ensures
        token_of(texts, text) == Some(at as u32),
{
    let found = choose|i: int| 0 <= i <= u32::MAX && i < texts.len() && #[trigger] texts[i] == text;
    assert(found == at);
}

proof fn lemma_interned(before: TextDictionary, after: TextDictionary, text: Seq<char>, at: int)
    requires
        before.wf(),
        !before@.contains(text),
        before@.len() <= u32::MAX,
        after@ == before@.push(text),
        0 <= at <= before.order@.len(),
        after.order@ == before.order@.insert(at, before@.len() as u32),
        forall|i: int| 0 <= i < at ==> lex_less(#[trigger] before.bytes_at(i), encode_utf8(text)),
        forall|i: int|
            at <= i < before.order@.len() ==> !lex_less(
                #[trigger] before.bytes_at(i),
                encode_utf8(text),
            ),
    ensures
        after.wf(),
{
    let count = before@.len() as int;
    assert forall|i: int| 0 <= i < after.order@.len() implies after.bytes_at(i) == (if i == at {
        encode_utf8(text)
    } else if i < at {
        before.bytes_at(i)
    } else {
        before.bytes_at(i - 1)
    }) by {
        if i < at {
            assert(after.order@[i] == before.order@[i]);
            assert(before.order@[i] < count);
        } else if i > at {
            assert(after.order@[i] == before.order@[i - 1]);
            assert(before.order@[i - 1] < count);
        }
    }
    assert forall|i: int| 0 <= i < after.order@.len() implies (#[trigger] after.order@[i])
        < after@.len() by {
        if i < at {
            assert(after.order@[i] == before.order@[i]);
        } else if i > at {
            assert(after.order@[i] == before.order@[i - 1]);
        }
    }
    assert forall|token: int| 0 <= token < after@.len() implies #[trigger] is_ordered(
        after.order@,
        token,
    ) by {
        if token == count {
            assert(ordered_at(after.order@, at, token));
        } else {
            assert(is_ordered(before.order@, token));
            let i = choose|i: int| #[trigger] ordered_at(before.order@, i, token);
            let j = if i < at { i } else { i + 1 };
            assert(ordered_at(after.order@, j, token));
        }
    }
    assert forall|i: int, j: int| 0 <= i < j < after.order@.len() implies lex_less(
        #[trigger] after.bytes_at(i),
        #[trigger] after.bytes_at(j),
    ) by {
        if i == at {
            let k = j - 1;
            assert(!lex_less(before.bytes_at(k), encode_utf8(text)));
            lemma_lex_total(before.bytes_at(k), encode_utf8(text));
            lemma_utf8_injective(before@[before.order@[k] as int], text);
            assert(before@.contains(before@[before.order@[k] as int]));
        } else if j == at {
            assert(lex_less(before.bytes_at(i), encode_utf8(text)));
        } else {
            let i0 = if i < at { i } else { i - 1 };
            let j0 = if j < at { j } else { j - 1 };
            assert(lex_less(before.bytes_at(i0), before.bytes_at(j0)));
        }
    }
    assert forall|i: int, j: int| 0 <= i < j < after@.len() implies #[trigger] after@[i]
        != #[trigger] after@[j] by {
        if j == count {
            assert(before@.contains(before@[i]));
        } else {
            assert(before@[i] != before@[j]);
        }
    }
}

/// What a dictionary of these texts takes: a list of the texts, and their
/// order.
pub open spec fn dictionary_needs(texts: Seq<Seq<char>>) -> Seq<Need> {
    seq![Need::Items { count: texts.len(), unit: vstd::layout::size_of::<String>() }] + Seq::new(
        texts.len(),
        |i: int| text_need(texts[i]),
    ) + seq![Need::Items { count: texts.len(), unit: vstd::layout::size_of::<u32>() }]
}

impl TextDictionary {
    /// Adds the room of the dictionary.
    pub fn push_rooms(&self, rooms: &mut Vec<Room>)
        requires
            self.wf(),
        ensures
            adds(old(rooms)@, final(rooms)@, dictionary_needs(self@)),
    {
        let ghost start = rooms@;
        push_text_list(rooms, &self.values);
        let ghost middle = rooms@;
        push_list(rooms, &self.order);
        proof {
            let texts = text_list_needs(self.values@);
            let order = seq![
                Need::Items { count: self@.len(), unit: vstd::layout::size_of::<u32>() },
            ];
            lemma_adds(start, middle, rooms@, texts, order);
            assert(texts + order =~= dictionary_needs(self@));
        }
    }
}

impl Clone for TextDictionary {
    /// A copy with the same texts and tokens.
    fn clone(&self) -> (copy: Self)
        ensures
            copy@ == self@,
            copy.ranked() == self.ranked(),
            self.wf() ==> copy.wf(),
    {
        let mut values: Vec<String> = Vec::new();
        let mut at: usize = 0;
        while at < self.values.len()
            invariant
                at <= self.values@.len(),
                values@.len() == at,
                forall|i: int| 0 <= i < at ==> (#[trigger] values@[i])@ == self.values@[i]@,
            decreases self.values@.len() - at,
        {
            values.push(self.values[at].clone());
            at = at + 1;
        }
        let order = vstd::slice::slice_to_vec(self.order.as_slice());
        let copy = TextDictionary { values, order };
        assert(copy@ =~= self@);
        assert(copy.order@ =~= self.order@);
        assert(copy.ranked() =~= self.ranked());
        proof {
            assert forall|i: int| copy.bytes_at(i) == self.bytes_at(i) by {}
        }
        copy
    }
}

} // verus!
