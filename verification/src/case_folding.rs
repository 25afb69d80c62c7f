//! A search does not regard the case of the ASCII letters of the query.

use crate::compiled_dictionary::{CompiledDictionary, Jyutping};
use crate::jyutping_splitter::{spec_base, spec_tone};
use crate::reconstruct_match::{
    spec_definition_spans, spec_jyutping_spans, spec_syllable_start, spec_term_spans, spec_whole,
    spec_whole_at,
};
use crate::search::{
    spec_all_best, spec_best, spec_count_non_ascii, spec_english_cost, spec_fits, spec_hits,
    spec_jyutping_cost, spec_penalty, spec_term, spec_term_costs, spec_term_members,
    spec_traditional_terms, Match, TermModel,
};
use crate::string_search::{
    eq_ci, lemma_indexof_ci_folds, seq_eq_ci, spec_indexof_ci, spec_prefix_levenshtein,
};
use crate::text::{
    lemma_encode_utf8_concat, lemma_token_ranges_sound, spec_tokens, token_ranges,
};
use vstd::prelude::*;
use vstd::utf8::*;

verus! {

/// The two characters are the same, or the same ASCII letter in small and in
/// capital.
pub open spec fn char_eq_ci(a: char, b: char) -> bool {
    a == b || (a as u32 <= 0x7f && b as u32 <= 0x7f && eq_ci((a as u32) as u8, (b as u32) as u8))
}

/// The two texts are the same but for the case of ASCII letters.
pub open spec fn text_eq_ci(a: Seq<char>, b: Seq<char>) -> bool {
    &&& a.len() == b.len()
    &&& forall|i: int| 0 <= i < a.len() ==> char_eq_ci(#[trigger] a[i], b[i])
}

/// Texts that are the same but for case have bytes that are the same but
/// for case.
pub proof fn lemma_encoding_folds(a: Seq<char>, b: Seq<char>)
    requires
        text_eq_ci(a, b),
    ensures
        seq_eq_ci(encode_utf8(a), encode_utf8(b)),
    decreases a.len(),
{
    if a.len() > 0 {
        let x = a.first();
        let y = b.first();
        assert(char_eq_ci(x, y));
        assert(text_eq_ci(a.drop_first(), b.drop_first())) by {
            assert forall|i: int| 0 <= i < a.drop_first().len() implies char_eq_ci(
                #[trigger] a.drop_first()[i],
                b.drop_first()[i],
            ) by {
                assert(char_eq_ci(a[i + 1], b[i + 1]));
            }
        }
        lemma_encoding_folds(a.drop_first(), b.drop_first());
        lemma_encode_utf8_concat(seq![x], a.drop_first());
        lemma_encode_utf8_concat(seq![y], b.drop_first());
        assert(seq![x] + a.drop_first() =~= a);
        assert(seq![y] + b.drop_first() =~= b);
        let head = encode_utf8(seq![x]);
        let other_head = encode_utf8(seq![y]);
        assert(seq_eq_ci(head, other_head)) by {
            if x != y {
                lemma_encode_ascii(x);
                lemma_encode_ascii(y);
            }
        }
        let tail = encode_utf8(a.drop_first());
        let other_tail = encode_utf8(b.drop_first());
        assert forall|k: int| 0 <= k < (head + tail).len() implies eq_ci(
            #[trigger] (head + tail)[k],
            (other_head + other_tail)[k],
        ) by {
            if k < head.len() {
                assert(eq_ci(head[k], other_head[k]));
            } else {
                assert(eq_ci(tail[k - head.len()], other_tail[k - head.len()]));
            }
        }
    }
}

/// An ASCII character alone is one byte.
proof fn lemma_encode_ascii(c: char)
    requires
        c as u32 <= 0x7f,
    ensures
        encode_utf8(seq![c]) == seq![(c as u32) as u8],
{
    let scalar = c as u32;
    assert((scalar & 0x7F) as u8 == scalar as u8) by (bit_vector)
        requires
            scalar <= 0x7f,
    ;
    assert(seq![c].drop_first() =~= Seq::<char>::empty());
    assert(encode_utf8(seq![c]) =~= seq![scalar as u8]) by {
        reveal_with_fuel(encode_utf8, 2);
    }
}

/// Texts that are the same but for case have as many characters outside
/// ASCII.
pub proof fn lemma_count_non_ascii_folds(a: Seq<char>, b: Seq<char>)
    requires
        text_eq_ci(a, b),
    ensures
        spec_count_non_ascii(a) == spec_count_non_ascii(b),
    decreases a.len(),
{
    if a.len() > 0 {
        assert(char_eq_ci(a[a.len() - 1], b[a.len() - 1]));
        assert(text_eq_ci(a.drop_last(), b.drop_last())) by {
            assert forall|i: int| 0 <= i < a.drop_last().len() implies char_eq_ci(
                #[trigger] a.drop_last()[i],
                b.drop_last()[i],
            ) by {
                assert(char_eq_ci(a[i], b[i]));
            }
        }
        lemma_count_non_ascii_folds(a.drop_last(), b.drop_last());
    }
}

/// Wherever the two texts differ, neither of the two characters is in the
/// alphabet.
pub open spec fn differences_unknown(alphabet: Seq<char>, a: Seq<char>, b: Seq<char>) -> bool {
    forall|i: int|
        0 <= i < a.len() && i < b.len() && a[i] != b[i] ==> !alphabet.contains(#[trigger] a[i])
            && !alphabet.contains(b[i])
}

/// Texts of one length that differ only in characters that the alphabet
/// does not hold, hold the same characters of the alphabet.
pub proof fn lemma_traditional_terms_fold(alphabet: Seq<char>, a: Seq<char>, b: Seq<char>)
    requires
        a.len() == b.len(),
        differences_unknown(alphabet, a, b),
    ensures
        spec_traditional_terms(alphabet, a) == spec_traditional_terms(alphabet, b),
    decreases a.len(),
{
    if a.len() > 0 {
        let n = a.len() - 1;
        assert(differences_unknown(alphabet, a.drop_last(), b.drop_last())) by {
            assert forall|i: int|
                0 <= i < a.drop_last().len() && i < b.drop_last().len() && a.drop_last()[i]
                    != b.drop_last()[i] implies !alphabet.contains(#[trigger] a.drop_last()[i])
                && !alphabet.contains(b.drop_last()[i]) by {
                assert(a.drop_last()[i] == a[i] && b.drop_last()[i] == b[i]);
                assert(!alphabet.contains(a[i]));
            }
        }
        lemma_traditional_terms_fold(alphabet, a.drop_last(), b.drop_last());
        if a[n] != b[n] {
            assert(!alphabet.contains(a[n]) && !alphabet.contains(b[n]));
        }
    }
}

/// Bytes that are the same but for case hold their words at the same places.
pub proof fn lemma_token_ranges_fold(a: Seq<u8>, b: Seq<u8>)
    requires
        seq_eq_ci(a, b),
    ensures
        token_ranges(a) == token_ranges(b),
    decreases a.len(),
{
    if a.len() > 0 {
        let n = a.len() - 1;
        assert(seq_eq_ci(a.take(n), b.take(n))) by {
            assert forall|k: int| 0 <= k < n implies eq_ci(#[trigger] a.take(n)[k], b.take(n)[k]) by {
                assert(eq_ci(a[k], b[k]));
            }
        }
        lemma_token_ranges_fold(a.take(n), b.take(n));
        assert(eq_ci(a[n], b[n]));
        if n >= 1 {
            assert(eq_ci(a[n - 1], b[n - 1]));
        }
    }
}

/// Bytes that are the same but for case have as many words, and each word
/// of the one is a word of the other but for case.
pub proof fn lemma_tokens_fold(a: Seq<u8>, b: Seq<u8>)
    requires
        seq_eq_ci(a, b),
    ensures
        spec_tokens(a).len() == spec_tokens(b).len(),
        forall|i: int|
            0 <= i < spec_tokens(a).len() ==> seq_eq_ci(
                #[trigger] spec_tokens(a)[i],
                spec_tokens(b)[i],
            ),
{
    lemma_token_ranges_fold(a, b);
    lemma_token_ranges_sound(a);
    assert forall|i: int| 0 <= i < spec_tokens(a).len() implies seq_eq_ci(
        #[trigger] spec_tokens(a)[i],
        spec_tokens(b)[i],
    ) by {
        let r = token_ranges(a)[i];
        let x = a.subrange(r.0, r.1);
        let y = b.subrange(r.0, r.1);
        assert forall|k: int| 0 <= k < x.len() implies eq_ci(#[trigger] x[k], y[k]) by {
            assert(eq_ci(a[r.0 + k], b[r.0 + k]));
        }
    }
}

/// The edit distance from the typed text to a prefix of the syllable, where
/// it is below 2.
pub open spec fn spec_near(base: Seq<u8>, syllable: Seq<u8>) -> Option<int> {
    if spec_prefix_levenshtein(base, syllable) < 2 {
        Some(spec_prefix_levenshtein(base, syllable))
    } else {
        None
    }
}

/// Where the typed text `a` does not stand in the syllable, so that its edit
/// distance decides, `b` is as near to the syllable as `a` is.
pub open spec fn near_alike(a: Seq<u8>, b: Seq<u8>, syllable: Seq<u8>) -> bool {
    spec_indexof_ci(a, syllable) is None ==> spec_near(a, syllable) == spec_near(b, syllable)
}

/// The two words are the same but for case, and as near to each syllable of
/// the alphabet in which they do not stand.
pub open spec fn words_alike(alphabet: Seq<Seq<u8>>, a: Seq<u8>, b: Seq<u8>) -> bool {
    &&& seq_eq_ci(a, b)
    &&& forall|k: int|
        0 <= k < alphabet.len() ==> near_alike(spec_base(a), spec_base(b), #[trigger] alphabet[k])
}

/// The two terms match the same syllables at the same penalties, with the
/// same tone, and were typed the same but for case.
pub open spec fn terms_alike(a: TermModel, b: TermModel) -> bool {
    &&& seq_eq_ci(a.base, b.base)
    &&& a.tone == b.tone
    &&& a.members == b.members
    &&& a.costs == b.costs
}

/// Words that are the same but for case have the same tone, and bases that
/// are the same but for case.
pub proof fn lemma_base_folds(a: Seq<u8>, b: Seq<u8>)
    requires
        seq_eq_ci(a, b),
    ensures
        seq_eq_ci(spec_base(a), spec_base(b)),
        spec_tone(a) == spec_tone(b),
{
    if a.len() > 0 {
        assert(eq_ci(a[a.len() - 1], b[a.len() - 1]));
        assert forall|k: int| 0 <= k < a.drop_last().len() implies eq_ci(
            #[trigger] a.drop_last()[k],
            b.drop_last()[k],
        ) by {
            assert(eq_ci(a[k], b[k]));
        }
    }
}

/// Typed texts that are the same but for case, and as near to the syllable
/// where they do not stand in it, match it alike and at the same penalty.
pub proof fn lemma_fits_folds(a: Seq<u8>, b: Seq<u8>, syllable: Seq<u8>)
    requires
        seq_eq_ci(a, b),
        near_alike(a, b, syllable),
    ensures
        seq_eq_ci(syllable, a) == seq_eq_ci(syllable, b),
        spec_penalty(a, syllable) == spec_penalty(b, syllable),
        spec_fits(a, syllable) == spec_fits(b, syllable),
        spec_indexof_ci(a, syllable) == spec_indexof_ci(b, syllable),
{
    lemma_indexof_ci_folds(a, b, syllable, syllable);
    if a.len() == 0 {
        assert(a =~= b);
    }
    if seq_eq_ci(syllable, a) {
        assert forall|k: int| 0 <= k < syllable.len() implies eq_ci(#[trigger] syllable[k], b[k]) by {
            assert(eq_ci(syllable[k], a[k]));
            assert(eq_ci(a[k], b[k]));
        }
    }
    if seq_eq_ci(syllable, b) {
        assert forall|k: int| 0 <= k < syllable.len() implies eq_ci(#[trigger] syllable[k], a[k]) by {
            assert(eq_ci(syllable[k], b[k]));
            assert(eq_ci(a[k], b[k]));
        }
    }
}

/// Typed texts that are alike have the same penalties over the alphabet.
pub proof fn lemma_term_costs_fold(a: Seq<u8>, b: Seq<u8>, syllables: Seq<Seq<u8>>, n: int)
    requires
        seq_eq_ci(a, b),
        0 <= n <= syllables.len(),
        forall|k: int| 0 <= k < syllables.len() ==> near_alike(a, b, #[trigger] syllables[k]),
    ensures
        spec_term_costs(a, syllables, n) == spec_term_costs(b, syllables, n),
    decreases n,
{
    if n > 0 {
        lemma_term_costs_fold(a, b, syllables, n - 1);
        lemma_fits_folds(a, b, syllables[n - 1]);
    }
}

/// Words that are alike give terms that are alike.
pub proof fn lemma_term_folds(alphabet: Seq<Seq<u8>>, a: Seq<u8>, b: Seq<u8>)
    requires
        words_alike(alphabet, a, b),
    ensures
        terms_alike(spec_term(a, alphabet), spec_term(b, alphabet)),
{
    lemma_base_folds(a, b);
    let x = spec_base(a);
    let y = spec_base(b);
    lemma_term_costs_fold(x, y, alphabet, alphabet.len() as int);
    assert forall|id: nat|
        spec_term_members(x, alphabet, alphabet.len() as int).contains(id)
            == spec_term_members(y, alphabet, alphabet.len() as int).contains(id) by {
        if id < alphabet.len() {
            lemma_fits_folds(x, y, alphabet[id as int]);
        }
    }
    assert(spec_term_members(x, alphabet, alphabet.len() as int) =~= spec_term_members(
        y,
        alphabet,
        alphabet.len() as int,
    ));
}

/// Terms that are alike have the same best syllable.
pub proof fn lemma_best_alike(a: TermModel, b: TermModel, syllables: Seq<Jyutping>, n: int)
    requires
        terms_alike(a, b),
    ensures
        spec_best(a, syllables, n) == spec_best(b, syllables, n),
    decreases n,
{
    if n > 0 {
        lemma_best_alike(a, b, syllables, n - 1);
    }
}

/// The terms of the two sequences are alike one by one.
pub open spec fn all_terms_alike(a: Seq<TermModel>, b: Seq<TermModel>) -> bool {
    &&& a.len() == b.len()
    &&& forall|i: int| 0 <= i < a.len() ==> terms_alike(#[trigger] a[i], b[i])
}

/// Terms that are alike choose the same syllables.
pub proof fn lemma_all_best_alike(
    a: Seq<TermModel>,
    b: Seq<TermModel>,
    syllables: Seq<Jyutping>,
    count: int,
)
    requires
        all_terms_alike(a, b),
        count <= a.len(),
    ensures
        spec_all_best(a, syllables, count) == spec_all_best(b, syllables, count),
    decreases count,
{
    if count > 0 {
        lemma_all_best_alike(a, b, syllables, count - 1);
        assert(terms_alike(a[count - 1], b[count - 1]));
        lemma_best_alike(a[count - 1], b[count - 1], syllables, syllables.len() as int);
    }
}

/// Terms that are alike give an entry the same penalties.
pub proof fn lemma_jyutping_cost_alike(
    a: Seq<TermModel>,
    b: Seq<TermModel>,
    syllables: Seq<Jyutping>,
)
    requires
        all_terms_alike(a, b),
    ensures
        spec_jyutping_cost(a, syllables) == spec_jyutping_cost(b, syllables),
{
    lemma_all_best_alike(a, b, syllables, a.len() as int);
}

/// Terms that are alike give the same stretches in a syllable.
pub proof fn lemma_term_spans_alike(
    a: TermModel,
    b: TermModel,
    base: Seq<u8>,
    start: int,
    bridged: bool,
)
    requires
        terms_alike(a, b),
    ensures
        spec_whole(a, base) == spec_whole(b, base),
        spec_term_spans(a, base, start, bridged) == spec_term_spans(b, base, start, bridged),
{
    lemma_indexof_ci_folds(a.base, b.base, base, base);
    if seq_eq_ci(base, a.base) {
        assert forall|k: int| 0 <= k < base.len() implies eq_ci(#[trigger] base[k], b.base[k]) by {
            assert(eq_ci(base[k], a.base[k]));
            assert(eq_ci(a.base[k], b.base[k]));
        }
    }
    if seq_eq_ci(base, b.base) {
        assert forall|k: int| 0 <= k < base.len() implies eq_ci(#[trigger] base[k], a.base[k]) by {
            assert(eq_ci(base[k], b.base[k]));
            assert(eq_ci(a.base[k], b.base[k]));
        }
    }
}

/// Terms that are alike give the same stretches in the romanisation of an
/// entry.
pub proof fn lemma_jyutping_spans_alike(
    alphabet: Seq<Seq<u8>>,
    syllables: Seq<Jyutping>,
    a: Seq<TermModel>,
    b: Seq<TermModel>,
    n: int,
)
    requires
        all_terms_alike(a, b),
        n <= a.len(),
    ensures
        spec_jyutping_spans(alphabet, syllables, a, n) == spec_jyutping_spans(
            alphabet,
            syllables,
            b,
            n,
        ),
    decreases n,
{
    if n > 0 {
        lemma_jyutping_spans_alike(alphabet, syllables, a, b, n - 1);
        assert(terms_alike(a[n - 1], b[n - 1]));
        lemma_best_alike(a[n - 1], b[n - 1], syllables, syllables.len() as int);
        if n >= 2 {
            assert(terms_alike(a[n - 2], b[n - 2]));
            lemma_best_alike(a[n - 2], b[n - 2], syllables, syllables.len() as int);
            match spec_best(a[n - 2], syllables, syllables.len() as int) {
                Some((left, _)) => {
                    lemma_term_spans_alike(
                        a[n - 2],
                        b[n - 2],
                        alphabet[syllables[left].base as int],
                        0,
                        false,
                    );
                },
                None => {},
            }
        }
        assert(spec_whole_at(alphabet, syllables, a, n - 2) == spec_whole_at(
            alphabet,
            syllables,
            b,
            n - 2,
        ));
        match spec_best(a[n - 1], syllables, syllables.len() as int) {
            Some((at, _)) => {
                let bridged = match spec_whole_at(alphabet, syllables, a, n - 2) {
                    Some(left) => left + 1 == at,
                    None => false,
                };
                lemma_term_spans_alike(
                    a[n - 1],
                    b[n - 1],
                    alphabet[syllables[at].base as int],
                    spec_syllable_start(alphabet, syllables, at),
                    bridged,
                );
            },
            None => {},
        }
    }
}

/// Words that are the same but for case stand at the same places in a block.
pub proof fn lemma_hits_fold(a: Seq<Seq<u8>>, b: Seq<Seq<u8>>, block: Seq<u8>, n: int)
    requires
        a.len() == b.len(),
        forall|i: int| 0 <= i < a.len() ==> seq_eq_ci(#[trigger] a[i], b[i]),
        n <= a.len(),
    ensures
        spec_hits(a, block, n) == spec_hits(b, block, n),
    decreases n,
{
    if n > 0 {
        lemma_hits_fold(a, b, block, n - 1);
        assert(seq_eq_ci(a[n - 1], b[n - 1]));
        lemma_indexof_ci_folds(a[n - 1], b[n - 1], block, block);
    }
}

/// Words that are the same but for case give the same stretches in a
/// definition.
pub proof fn lemma_definition_spans_fold(
    a: Seq<Seq<u8>>,
    b: Seq<Seq<u8>>,
    definition: Seq<u8>,
    start: int,
    n: int,
)
    requires
        a.len() == b.len(),
        forall|i: int| 0 <= i < a.len() ==> seq_eq_ci(#[trigger] a[i], b[i]),
        n <= a.len(),
    ensures
        spec_definition_spans(a, definition, start, n) == spec_definition_spans(
            b,
            definition,
            start,
            n,
        ),
    decreases n,
{
    if n > 0 {
        lemma_definition_spans_fold(a, b, definition, start, n - 1);
        assert(seq_eq_ci(a[n - 1], b[n - 1]));
        lemma_indexof_ci_folds(a[n - 1], b[n - 1], definition, definition);
    }
}

/// The two queries are the same but for the case of ASCII letters, and
/// each word of the one is as near as the word of the other to each syllable
/// of the alphabet in which it does not stand.
pub open spec fn queries_alike(alphabet: Seq<Seq<u8>>, a: Seq<char>, b: Seq<char>) -> bool {
    &&& text_eq_ci(a, b)
    &&& forall|i: int, k: int|
        0 <= i < spec_tokens(encode_utf8(a)).len() && 0 <= k < alphabet.len() ==> near_alike(
            spec_base(#[trigger] spec_tokens(encode_utf8(a))[i]),
            spec_base(spec_tokens(encode_utf8(b))[i]),
            #[trigger] alphabet[k],
        )
}

impl CompiledDictionary {
    /// Wherever the two queries differ, neither of the two letters is a
    /// character of the dictionary.
    pub open spec fn letters_unknown(&self, a: Seq<char>, b: Seq<char>) -> bool {
        differences_unknown(self.character_store.characters@, a, b)
    }

    /// Queries that are alike are read as terms that are alike.
    pub proof fn lemma_query_terms_fold(&self, a: Seq<char>, b: Seq<char>)
        requires
            queries_alike(self.jyutping_store@, a, b),
        ensures
            all_terms_alike(self.spec_query_terms(a), self.spec_query_terms(b)),
    {
        let alphabet = self.jyutping_store@;
        let words = spec_tokens(encode_utf8(a));
        let others = spec_tokens(encode_utf8(b));
        lemma_encoding_folds(a, b);
        lemma_tokens_fold(encode_utf8(a), encode_utf8(b));
        assert forall|i: int| 0 <= i < words.len() implies terms_alike(
            #[trigger] self.spec_query_terms(a)[i],
            self.spec_query_terms(b)[i],
        ) by {
            assert(seq_eq_ci(words[i], others[i]));
            assert forall|k: int| 0 <= k < alphabet.len() implies near_alike(
                spec_base(words[i]),
                spec_base(others[i]),
                #[trigger] alphabet[k],
            ) by {}
            lemma_term_folds(alphabet, words[i], others[i]);
        }
    }

    /// Queries that are alike give the same stretches in the definitions.
    pub proof fn lemma_english_spans_fold(
        &self,
        a: Seq<Seq<u8>>,
        b: Seq<Seq<u8>>,
        from: int,
        to: int,
    )
        requires
            a.len() == b.len(),
            forall|i: int| 0 <= i < a.len() ==> seq_eq_ci(#[trigger] a[i], b[i]),
        ensures
            self.spec_english_spans(a, from, to) == self.spec_english_spans(b, from, to),
        decreases to - from,
    {
        if to > from {
            self.lemma_english_spans_fold(a, b, from, to - 1);
            lemma_definition_spans_fold(
                a,
                b,
                self.spec_definition(to - 1),
                self.english_data_starts@[to - 1] as int,
                a.len() as int,
            );
        }
    }

    /// Queries that are alike find the same matches in an entry.
    pub proof fn lemma_entry_matches_fold(&self, i: int, a: Seq<char>, b: Seq<char>)
        requires
            0 <= i < self.entries@.len(),
            queries_alike(self.jyutping_store@, a, b),
            self.letters_unknown(a, b),
        ensures
            self.spec_entry_matches(i, a) == self.spec_entry_matches(i, b),
    {
        let entry = &self.entries@[i];
        self.lemma_query_terms_fold(a, b);
        lemma_jyutping_cost_alike(self.spec_query_terms(a), self.spec_query_terms(b), entry.jyutping@);
        lemma_encoding_folds(a, b);
        lemma_tokens_fold(encode_utf8(a), encode_utf8(b));
        let words = spec_tokens(encode_utf8(a));
        let others = spec_tokens(encode_utf8(b));
        lemma_hits_fold(words, others, self.spec_english_block(entry), words.len() as int);
        lemma_count_non_ascii_folds(a, b);
        assert(spec_english_cost(self.spec_english_block(entry), a, entry.cost) == spec_english_cost(
            self.spec_english_block(entry),
            b,
            entry.cost,
        ));
        lemma_traditional_terms_fold(self.character_store.characters@, a, b);
    }

    /// Queries that are alike find the same matches in the first `n` entries.
    pub proof fn lemma_candidates_fold(&self, a: Seq<char>, b: Seq<char>, n: int)
        requires
            n <= self.entries@.len(),
            queries_alike(self.jyutping_store@, a, b),
            self.letters_unknown(a, b),
        ensures
            self.spec_candidates(a, n) == self.spec_candidates(b, n),
        decreases n,
    {
        if n > 0 {
            self.lemma_candidates_fold(a, b, n - 1);
            self.lemma_entry_matches_fold(n - 1, a, b);
        }
    }

    /// Queries that are alike give a match the same stretches.
    pub proof fn lemma_match_spans_fold(&self, m: Match, a: Seq<char>, b: Seq<char>)
        requires
            queries_alike(self.jyutping_store@, a, b),
            self.letters_unknown(a, b),
        ensures
            self.spec_match_spans(m, a) == self.spec_match_spans(m, b),
    {
        let entry = &self.entries@[m.entry_id as int];
        self.lemma_query_terms_fold(a, b);
        lemma_jyutping_spans_alike(
            self.jyutping_store@,
            entry.jyutping@,
            self.spec_query_terms(a),
            self.spec_query_terms(b),
            self.spec_query_terms(a).len() as int,
        );
        lemma_traditional_terms_fold(self.character_store.characters@, a, b);
        lemma_encoding_folds(a, b);
        lemma_tokens_fold(encode_utf8(a), encode_utf8(b));
        self.lemma_english_spans_fold(
            spec_tokens(encode_utf8(a)),
            spec_tokens(encode_utf8(b)),
            entry.english_start as int,
            entry.english_end as int,
        );
    }

    /// A search does not regard the case of the ASCII letters of the query:
    /// two queries that are the same but for case return the same matches
    /// with the same stretches, and out of as many candidates.
    ///
    /// This holds where each word of the one query is as near as the word
    /// of the other to each syllable in which it does not stand, since the
    /// edit distance regards case, and where no letter in which the queries
    /// differ is a character of the dictionary, since the characters of a
    /// query are looked up as they are.
    pub proof fn lemma_search_folds(&self, a: Seq<char>, b: Seq<char>, max_results: int)
        requires
            queries_alike(self.jyutping_store@, a, b),
            self.letters_unknown(a, b),
        ensures
            self.spec_search(a, max_results) == self.spec_search(b, max_results),
            self.spec_candidate_count(a) == self.spec_candidate_count(b),
    {
        lemma_encoding_folds(a, b);
        lemma_tokens_fold(encode_utf8(a), encode_utf8(b));
        self.lemma_candidates_fold(a, b, self.entries@.len() as int);
        let found = self.spec_search_matches(a, max_results);
        assert(found == self.spec_search_matches(b, max_results));
        assert forall|i: int| 0 <= i < found.len() implies self.spec_match_spans(found[i], a)
            == self.spec_match_spans(found[i], b) by {
            self.lemma_match_spans_fold(found[i], a, b);
        }
        assert(self.spec_search(a, max_results) =~= self.spec_search(b, max_results));
    }
}

} // verus!
