//! Building the two alphabets and looking syllables up in them.

use crate::compiled_dictionary::{
    bases_strictly_ascending, bytes_lt, chars_strictly_ascending, text_bytes, CharacterStore,
    Jyutping, JyutpingStore,
};
use crate::jyutping_splitter::{parse_jyutping_tone, spec_base, spec_tone};
use crate::text::{digit_char, lemma_encode_utf8_concat, lemma_encode_utf8_push_ascii, push_char, spec_is_digit};
use crate::validity::{bytes_less, lemma_bytes_lt_irreflexive, lemma_bytes_lt_transitive};
use vstd::prelude::*;
use vstd::string::*;
use vstd::utf8::*;

verus! {

/// Of two different byte strings one comes before the other.
pub proof fn lemma_bytes_lt_total(a: Seq<u8>, b: Seq<u8>)
    ensures
        bytes_lt(a, b) || bytes_lt(b, a) || a == b,
    decreases a.len(),
{
    if a.len() > 0 && b.len() > 0 && a[0] == b[0] {
        lemma_bytes_lt_total(a.drop_first(), b.drop_first());
        if a.drop_first() == b.drop_first() {
            assert(a.len() == b.len()) by {
                assert(a.drop_first().len() == b.drop_first().len());
            }
            assert forall|i: int| 0 <= i < a.len() implies a[i] == b[i] by {
                if i > 0 {
                    assert(a[i] == a.drop_first()[i - 1]);
                    assert(b[i] == b.drop_first()[i - 1]);
                }
            }
            assert(a =~= b);
        }
    } else if a.len() == 0 && b.len() == 0 {
        assert(a =~= b);
    }
}

/// No character stands before a smaller one.
pub open spec fn chars_ascending(chars: Seq<char>) -> bool {
    forall|i: int, j: int| 0 <= i <= j < chars.len() ==> chars[i] <= chars[j]
}

/// No byte string stands before a smaller one.
pub open spec fn bases_ascending(bases: Seq<Seq<u8>>) -> bool {
    forall|i: int, j: int| 0 <= i < j < bases.len() ==> !bytes_lt(bases[j], bases[i])
}

/// The texts as byte strings.
pub open spec fn bases_of(texts: Seq<String>) -> Seq<Seq<u8>> {
    Seq::new(texts.len(), |i: int| text_bytes(texts[i]@))
}

/// `<[char]>::sort`: afterwards the characters stand in ascending order, and
/// they are the same characters, each as often as before.
#[verifier::external_body]
fn sort_chars(chars: &mut Vec<char>)
    ensures
        chars_ascending(final(chars)@),
        final(chars)@.to_multiset() == old(chars)@.to_multiset(),
{
    chars.sort();
}

/// `<[String]>::sort`: afterwards the texts stand in ascending order of
/// their bytes, and they are the same texts, each as often as before.
#[verifier::external_body]
fn sort_texts(texts: &mut Vec<String>)
    ensures
        bases_ascending(bases_of(final(texts)@)),
        bases_of(final(texts)@).to_multiset() == bases_of(old(texts)@).to_multiset(),
{
    texts.sort();
}

impl CharacterStore {
    /// An alphabet of the given characters, in ascending order.
    pub fn from_chars(characters: Vec<char>) -> (store: Self)
        ensures
            chars_ascending(store.characters@),
            store.characters@.to_multiset() == characters@.to_multiset(),
            characters@.no_duplicates() ==> chars_strictly_ascending(store.characters@),
    {
        let mut characters = characters;
        let ghost given = characters@;
        sort_chars(&mut characters);
        proof {
            if given.no_duplicates() {
                let sorted = characters@;
                given.lemma_multiset_has_no_duplicates();
                assert forall|i: int, j: int| 0 <= i < j < sorted.len() implies sorted[i]
                    < sorted[j] by {
                    if sorted[i] == sorted[j] {
                        sorted.lemma_multiset_has_no_duplicates_conv();
                        assert(sorted.no_duplicates());
                    }
                }
            }
        }
        Self { characters }
    }

    /// Puts `c` into the alphabet at its place, unless it is there already.
    pub fn insert(&mut self, c: char)
        requires
            chars_strictly_ascending(old(self).characters@),
        ensures
            chars_strictly_ascending(final(self).characters@),
            final(self).characters@.to_set() == old(self).characters@.to_set().insert(c),
            final(self).characters@.len() <= old(self).characters@.len() + 1,
    {
        let ghost before = self.characters@;
        let mut low: usize = 0;
        let mut high: usize = self.characters.len();
        while low < high
            invariant
                self.characters@ == before,
                chars_strictly_ascending(before),
                low <= high <= before.len(),
                forall|k: int| 0 <= k < low ==> before[k] < c,
                forall|k: int| high <= k < before.len() ==> c < before[k],
            decreases high - low,
        {
            let mid: usize = low + (high - low) / 2;
            let here: char = self.characters[mid];
            if here == c {
                assert(before.to_set().insert(c) =~= before.to_set());
                return ;
            } else if here < c {
                low = mid + 1;
            } else {
                high = mid;
            }
        }
        self.characters.insert(low, c);
        proof {
            let after = self.characters@;
            assert(after == before.insert(low as int, c));
            assert forall|i: int, j: int| 0 <= i < j < after.len() implies after[i] < after[j] by {
                if i < low && j > low {
                    assert(after[j] == before[j - 1]);
                } else if i < low && j < low {
                } else if i > low {
                    assert(after[i] == before[i - 1] && after[j] == before[j - 1]);
                }
            }
            assert forall|x: char| after.to_set().contains(x) == before.to_set().insert(c).contains(
                x,
            ) by {
                if after.contains(x) {
                    let i = choose|i: int| 0 <= i < after.len() && after[i] == x;
                    if i < low {
                        assert(before[i] == x);
                    } else if i > low {
                        assert(before[i - 1] == x);
                    }
                }
                if before.contains(x) {
                    let i = choose|i: int| 0 <= i < before.len() && before[i] == x;
                    if i < low {
                        assert(after[i] == x);
                    } else {
                        assert(after[i + 1] == x);
                    }
                }
                if x == c {
                    assert(after[low as int] == c);
                }
            }
            assert(after.to_set() =~= before.to_set().insert(c));
        }
    }
}

/// Where `word` stands among the texts, which are in strictly ascending
/// order of their bytes; or where it would have to be put in.
pub fn find_text(texts: &Vec<String>, word: &[u8]) -> (r: (bool, usize))
    requires
        bases_strictly_ascending(bases_of(texts@)),
    ensures
        r.1 <= texts@.len(),
        r.0 ==> r.1 < texts@.len() && bases_of(texts@)[r.1 as int] == word@,
        !r.0 ==> !bases_of(texts@).contains(word@),
        forall|k: int| 0 <= k < r.1 ==> bytes_lt(#[trigger] bases_of(texts@)[k], word@),
        forall|k: int|
            r.1 <= k < texts@.len() && !(r.0 && k == r.1) ==> bytes_lt(
                word@,
                #[trigger] bases_of(texts@)[k],
            ),
{
    let ghost bases = bases_of(texts@);
    let mut low: usize = 0;
    let mut high: usize = texts.len();
    while low < high
        invariant
            bases == bases_of(texts@),
            bases_strictly_ascending(bases),
            low <= high <= bases.len(),
            forall|k: int| 0 <= k < low ==> bytes_lt(#[trigger] bases[k], word@),
            forall|k: int| high <= k < bases.len() ==> bytes_lt(word@, #[trigger] bases[k]),
        decreases high - low,
    {
        let mid: usize = low + (high - low) / 2;
        let here: &[u8] = texts[mid].as_str().as_bytes();
        assert(here@ == bases[mid as int]);
        if bytes_less(here, word) {
            assert forall|k: int| 0 <= k < mid + 1 implies bytes_lt(#[trigger] bases[k], word@) by {
                if k < mid {
                    lemma_bytes_lt_transitive(bases[k], bases[mid as int], word@);
                }
            }
            low = mid + 1;
        } else if bytes_less(word, here) {
            assert forall|k: int| mid <= k < bases.len() implies bytes_lt(
                word@,
                #[trigger] bases[k],
            ) by {
                if k > mid {
                    lemma_bytes_lt_transitive(word@, bases[mid as int], bases[k]);
                }
            }
            high = mid;
        } else {
            proof {
                lemma_bytes_lt_total(here@, word@);
                assert forall|k: int| mid < k < bases.len() implies bytes_lt(
                    word@,
                    #[trigger] bases[k],
                ) by {
                    assert(bytes_lt(bases[mid as int], bases[k]));
                }
                assert forall|k: int| 0 <= k < mid implies bytes_lt(#[trigger] bases[k], word@) by {
                    assert(bytes_lt(bases[k], bases[mid as int]));
                }
            }
            return (true, mid);
        }
    }
    proof {
        if bases.contains(word@) {
            let i = choose|i: int| 0 <= i < bases.len() && bases[i] == word@;
            lemma_bytes_lt_irreflexive(word@);
        }
    }
    (false, low)
}

/// Putting a text in at its place among texts in strictly ascending order
/// leaves them in strictly ascending order, with the text among them.
pub proof fn lemma_insert_keeps_ascending(before: Seq<Seq<u8>>, at: int, w: Seq<u8>)
    requires
        bases_strictly_ascending(before),
        0 <= at <= before.len(),
        forall|k: int| 0 <= k < at ==> bytes_lt(#[trigger] before[k], w),
        forall|k: int| at <= k < before.len() ==> bytes_lt(w, #[trigger] before[k]),
    ensures
        bases_strictly_ascending(before.insert(at, w)),
        before.insert(at, w).to_set() == before.to_set().insert(w),
{
    let after = before.insert(at, w);
    assert forall|i: int, j: int| 0 <= i < j < after.len() implies bytes_lt(after[i], after[j]) by {
        if i < at && j > at {
            assert(after[j] == before[j - 1]);
            assert(bytes_lt(before[i], before[j - 1]));
        } else if i < at && j == at {
            assert(bytes_lt(before[i], w));
        } else if i == at {
            assert(after[j] == before[j - 1]);
        } else if i > at {
            assert(after[i] == before[i - 1] && after[j] == before[j - 1]);
            assert(bytes_lt(before[i - 1], before[j - 1]));
        } else {
            assert(bytes_lt(before[i], before[j]));
        }
    }
    assert forall|x: Seq<u8>| after.to_set().contains(x) == before.to_set().insert(w).contains(
        x,
    ) by {
        if after.contains(x) {
            let i = choose|i: int| 0 <= i < after.len() && after[i] == x;
            if i < at {
                assert(before[i] == x);
            } else if i > at {
                assert(before[i - 1] == x);
            }
        }
        if before.contains(x) {
            let i = choose|i: int| 0 <= i < before.len() && before[i] == x;
            if i < at {
                assert(after[i] == x);
            } else {
                assert(after[i + 1] == x);
            }
        }
        if x == w {
            assert(after[at] == w);
        }
    }
    assert(after.to_set() =~= before.to_set().insert(w));
}

impl JyutpingStore {
    /// An alphabet of the given bases, in ascending order of their bytes.
    pub fn from_strings(jyutpings: Vec<String>) -> (store: Self)
        ensures
            bases_ascending(store@),
            store@.to_multiset() == bases_of(jyutpings@).to_multiset(),
            bases_of(jyutpings@).no_duplicates() ==> bases_strictly_ascending(store@),
    {
        let mut jyutpings = jyutpings;
        let ghost given = bases_of(jyutpings@);
        sort_texts(&mut jyutpings);
        let store = Self { base_strings: jyutpings };
        proof {
            assert(store@ =~= bases_of(store.base_strings@));
            if given.no_duplicates() {
                let sorted = store@;
                given.lemma_multiset_has_no_duplicates();
                assert forall|i: int, j: int| 0 <= i < j < sorted.len() implies bytes_lt(
                    sorted[i],
                    sorted[j],
                ) by {
                    lemma_bytes_lt_total(sorted[i], sorted[j]);
                    if sorted[i] == sorted[j] {
                        sorted.lemma_multiset_has_no_duplicates_conv();
                        assert(sorted.no_duplicates());
                    }
                }
            }
        }
        store
    }

    /// The syllable with the base `word` and the tone `tone`, where the
    /// alphabet holds the base; found by binary search.
    pub fn get_with_tone(&self, word: &str, tone: u8) -> (r: Option<Jyutping>)
        requires
            bases_strictly_ascending(self@),
            self@.len() <= 0x1_0000,
        ensures
            match r {
                Some(j) => j.tone == tone && j.base < self@.len() && self@[j.base as int]
                    == word.spec_bytes(),
                None => !self@.contains(word.spec_bytes()),
            },
    {
        assert(self@ =~= bases_of(self.base_strings@));
        let (found, at) = find_text(&self.base_strings, word.as_bytes());
        if found {
            Some(Jyutping { base: at as u16, tone })
        } else {
            None
        }
    }

    /// The syllable that `word_with_tone` names by a base and a last digit.
    pub fn get(&self, word_with_tone: &str) -> (r: Option<Jyutping>)
        requires
            bases_strictly_ascending(self@),
            self@.len() <= 0x1_0000,
            word_with_tone.spec_bytes().len() > 0,
            spec_is_digit(word_with_tone.spec_bytes().last()),
        ensures
            match r {
                Some(j) => Some(j.tone) == spec_tone(word_with_tone.spec_bytes()) && j.base
                    < self@.len() && self@[j.base as int] == spec_base(word_with_tone.spec_bytes()),
                None => !self@.contains(spec_base(word_with_tone.spec_bytes())),
            },
    {
        let (without_tone, tone) = parse_jyutping_tone(word_with_tone);
        match tone {
            Some(tone) => self.get_with_tone(without_tone, tone),
            None => None,
        }
    }

    /// The syllable written out: its base and its tone digit.
    pub fn get_string(&self, j: Jyutping) -> (text: String)
        requires
            j.base < self@.len(),
            j.tone <= 9,
        ensures
            text_bytes(text@) == self@[j.base as int].push((j.tone + 0x30) as u8),
    {
        let base: &str = self.base_strings[j.base as usize].as_str();
        let mut text: String = String::new();
        proof {
            lemma_encode_utf8_concat(text@, base@);
            assert(text@ + base@ =~= base@);
        }
        text.append(base);
        let digit: char = digit_char(j.tone);
        proof {
            lemma_encode_utf8_push_ascii(text@, digit);
        }
        push_char(&mut text, digit);
        text
    }

    /// Puts `word` into the alphabet at its place, unless it is there already.
    pub fn insert(&mut self, word: &str)
        requires
            bases_strictly_ascending(old(self)@),
        ensures
            bases_strictly_ascending(final(self)@),
            final(self)@.to_set() == old(self)@.to_set().insert(word.spec_bytes()),
            final(self)@.len() <= old(self)@.len() + 1,
    {
        let ghost before = self@;
        assert(before =~= bases_of(self.base_strings@));
        let (found, at) = find_text(&self.base_strings, word.as_bytes());
        if found {
            assert(before.to_set().insert(word.spec_bytes()) =~= before.to_set());
            return ;
        }
        self.base_strings.insert(at, word.to_owned());
        proof {
            assert(self@ =~= before.insert(at as int, word.spec_bytes()));
            lemma_insert_keeps_ascending(before, at as int, word.spec_bytes());
        }
    }
}

} // verus!
