//! Where a match shows in what is displayed of an entry: the stretches to
//! highlight, as half-open ranges.

use crate::compiled_dictionary::{CompiledDictionary, CompiledDictionaryEntry, Jyutping};
use crate::search::{
    best_syllable, spec_best, JyutpingQueryTerm, QueryTerms, TermModel,
};
use crate::string_search::{
    bytes_eq_ignore_case, indexof_ignore_case, lemma_first_match_from, seq_eq_ci, spec_indexof_ci,
};
use crate::text::{lemma_token_ranges_sound, scan_tokens, spec_tokens, token_ranges, token_ranges_sound};
use vstd::prelude::*;
use vstd::string::*;
use vstd::utf8::*;

verus! {

/// Where syllable `k` of an entry starts in the entry's romanisation, in
/// which each syllable is its base and one tone digit, and one space stands
/// between two syllables.
pub open spec fn spec_syllable_start(alphabet: Seq<Seq<u8>>, syllables: Seq<Jyutping>, k: int) -> int
    decreases k,
{
    if k <= 0 {
        0
    } else {
        spec_syllable_start(alphabet, syllables, k - 1) + alphabet[syllables[k - 1].base as int].len()
            + 2
    }
}

/// The romanisation of the first `n` syllables of an entry.
pub open spec fn spec_jyutping_display(alphabet: Seq<Seq<u8>>, syllables: Seq<Jyutping>, n: int)
    -> Seq<u8>
    decreases n,
{
    if n <= 0 {
        Seq::empty()
    } else {
        let before = spec_jyutping_display(alphabet, syllables, n - 1);
        let spaced = if n == 1 {
            before
        } else {
            before.push(0x20u8)
        };
        (spaced + alphabet[syllables[n - 1].base as int]).push((syllables[n - 1].tone + 0x30) as u8)
    }
}

/// The syllables of an entry lie in the alphabet.
pub open spec fn syllables_in(alphabet: Seq<Seq<u8>>, syllables: Seq<Jyutping>) -> bool {
    forall|k: int|
        0 <= k < syllables.len() ==> (#[trigger] syllables[k]).base < alphabet.len()
            && syllables[k].tone <= 9
}

/// A syllable starts before the next one does, and all of them start within
/// 32 bits where there are fewer than 256 syllables of bounded length.
pub proof fn lemma_syllable_start_bounds(alphabet: Seq<Seq<u8>>, syllables: Seq<Jyutping>, k: int)
    requires
        syllables_in(alphabet, syllables),
        forall|i: int| 0 <= i < alphabet.len() ==> (#[trigger] alphabet[i]).len() <= 0xff_ffff,
        0 <= k <= syllables.len(),
    ensures
        0 <= spec_syllable_start(alphabet, syllables, k) <= k * 0x100_0001,
    decreases k,
{
    if k > 0 {
        lemma_syllable_start_bounds(alphabet, syllables, k - 1);
        assert(syllables[k - 1].base < alphabet.len());
    }
}

/// The romanisation of the first `n` syllables ends one byte before the next
/// syllable would start.
pub proof fn lemma_jyutping_display_len(alphabet: Seq<Seq<u8>>, syllables: Seq<Jyutping>, n: int)
    requires
        0 <= n <= syllables.len(),
    ensures
        spec_jyutping_display(alphabet, syllables, n).len() == if n == 0 {
            0
        } else {
            spec_syllable_start(alphabet, syllables, n) - 1
        },
    decreases n,
{
    if n > 0 {
        lemma_jyutping_display_len(alphabet, syllables, n - 1);
        let before = spec_jyutping_display(alphabet, syllables, n - 1);
        let spaced = if n == 1 {
            before
        } else {
            before.push(0x20u8)
        };
        let base = alphabet[syllables[n - 1].base as int];
        assert((spaced + base).len() == spaced.len() + base.len());
        assert(spec_syllable_start(alphabet, syllables, 1) == spec_syllable_start(
            alphabet,
            syllables,
            0,
        ) + alphabet[syllables[0].base as int].len() + 2);
    }
}

/// The term is matched whole by a syllable with this base: a tone was typed,
/// and the typed text is the base but for case.
pub open spec fn spec_whole(term: TermModel, base: Seq<u8>) -> bool {
    term.tone is Some && seq_eq_ci(base, term.base)
}

/// The stretches to highlight for one term matched by the syllable with base
/// `base` that starts at `start`.
///
/// A term matched whole gives the syllable with its tone, and with the space
/// before it where `bridged`. Any other term gives the typed text where it
/// stands first in the base, or the whole base where it does not stand in
/// it, and after that the tone digit where a tone was typed.
pub open spec fn spec_term_spans(term: TermModel, base: Seq<u8>, start: int, bridged: bool) -> Seq<
    (usize, usize),
> {
    if spec_whole(term, base) {
        seq![
            (
                (start - if bridged {
                    1int
                } else {
                    0int
                }) as usize,
                (start + base.len() + 1) as usize,
            ),
        ]
    } else {
        let typed: Seq<(usize, usize)> = if term.base.len() == 0 {
            Seq::empty()
        } else if spec_indexof_ci(term.base, base) is Some {
            seq![
                (
                    (start + spec_indexof_ci(term.base, base).unwrap()) as usize,
                    (start + spec_indexof_ci(term.base, base).unwrap() + term.base.len()) as usize,
                ),
            ]
        } else if base.len() > 0 {
            seq![(start as usize, (start + base.len()) as usize)]
        } else {
            Seq::empty()
        };
        if term.tone is Some {
            typed.push(((start + base.len()) as usize, (start + base.len() + 1) as usize))
        } else {
            typed
        }
    }
}

/// The syllable that term `i` is matched by, where it is matched whole.
pub open spec fn spec_whole_at(
    alphabet: Seq<Seq<u8>>,
    syllables: Seq<Jyutping>,
    terms: Seq<TermModel>,
    i: int,
) -> Option<int> {
    if 0 <= i < terms.len() {
        match spec_best(terms[i], syllables, syllables.len() as int) {
            Some((at, _)) => if spec_whole(terms[i], alphabet[syllables[at].base as int]) {
                Some(at)
            } else {
                None
            },
            None => None,
        }
    } else {
        None
    }
}

/// The stretches to highlight in the romanisation of an entry for the first
/// `n` terms of a query, term by term. A term that no syllable matches gives
/// none. Where two terms in a row are matched whole by two syllables in a
/// row, the stretch of the second takes in the space between them.
pub open spec fn spec_jyutping_spans(
    alphabet: Seq<Seq<u8>>,
    syllables: Seq<Jyutping>,
    terms: Seq<TermModel>,
    n: int,
) -> Seq<(usize, usize)>
    decreases n,
{
    if n <= 0 {
        Seq::empty()
    } else {
        let before = spec_jyutping_spans(alphabet, syllables, terms, n - 1);
        match spec_best(terms[n - 1], syllables, syllables.len() as int) {
            Some((at, _)) => {
                let bridged = match spec_whole_at(alphabet, syllables, terms, n - 2) {
                    Some(left) => left + 1 == at,
                    None => false,
                };
                before + spec_term_spans(
                    terms[n - 1],
                    alphabet[syllables[at].base as int],
                    spec_syllable_start(alphabet, syllables, at),
                    bridged,
                )
            },
            None => before,
        }
    }
}

/// Every stretch has a start before its end.
pub open spec fn spans_nonempty(spans: Seq<(usize, usize)>) -> bool {
    forall|i: int| 0 <= i < spans.len() ==> (#[trigger] spans[i]).0 < spans[i].1
}

impl CompiledDictionary {
    /// The stretches to highlight in the romanisation of the entry for the
    /// syllable terms of a query.
    pub fn get_jyutping_matched_spans(
        &self,
        entry: &CompiledDictionaryEntry,
        query_terms: &QueryTerms,
    ) -> (spans: Vec<(usize, usize)>)
        requires
            self.jyutping_store.wf(),
            syllables_in(self.jyutping_store@, entry.jyutping@),
            entry.jyutping@.len() < 256,
        ensures
            spans@ == spec_jyutping_spans(
                self.jyutping_store@,
                entry.jyutping@,
                query_terms.terms(),
                query_terms.terms().len() as int,
            ),
            spans_nonempty(spans@),
    {
        let ghost alphabet = self.jyutping_store@;
        let ghost syllables = entry.jyutping@;
        let ghost terms = query_terms.terms();
        let count: usize = entry.jyutping.len();
        // Where each syllable starts.
        let mut starts: Vec<usize> = Vec::new();
        let mut offset: usize = 0;
        let mut k: usize = 0;
        while k < count
            invariant
                self.jyutping_store.wf(),
                alphabet == self.jyutping_store@,
                syllables == entry.jyutping@,
                syllables_in(alphabet, syllables),
                count == syllables.len(),
                count < 256,
                k <= count,
                starts@.len() == k,
                offset as int == spec_syllable_start(alphabet, syllables, k as int),
                forall|j: int|
                    0 <= j < k ==> (#[trigger] starts@[j]) as int == spec_syllable_start(
                        alphabet,
                        syllables,
                        j,
                    ),
            decreases count - k,
        {
            proof {
                lemma_syllable_start_bounds(alphabet, syllables, k as int);
                lemma_syllable_start_bounds(alphabet, syllables, k + 1);
                assert(syllables[k as int].base < alphabet.len());
            }
            starts.push(offset);
            let base_len: usize = self.jyutping_store.base_strings[entry.jyutping[k].base as usize]
                .as_str().as_bytes().len();
            assert(base_len == alphabet[syllables[k as int].base as int].len());
            offset = offset + base_len + 2;
            k += 1;
        }
        let mut spans: Vec<(usize, usize)> = Vec::new();
        let mut left: Option<usize> = None;
        let mut t: usize = 0;
        while t < query_terms.jyutping_terms.len()
            invariant
                self.jyutping_store.wf(),
                alphabet == self.jyutping_store@,
                syllables == entry.jyutping@,
                terms == query_terms.terms(),
                syllables_in(alphabet, syllables),
                count == syllables.len(),
                count < 256,
                starts@.len() == count,
                forall|j: int|
                    0 <= j < count ==> (#[trigger] starts@[j]) as int == spec_syllable_start(
                        alphabet,
                        syllables,
                        j,
                    ),
                t <= terms.len(),
                terms.len() == query_terms.jyutping_terms@.len(),
                spans@ == spec_jyutping_spans(alphabet, syllables, terms, t as int),
                spans_nonempty(spans@),
                match left {
                    Some(at) => at < count && spec_whole_at(alphabet, syllables, terms, t - 1)
                        == Some(at as int),
                    None => spec_whole_at(alphabet, syllables, terms, t - 1) is None,
                },
            decreases terms.len() - t,
        {
            let term: &JyutpingQueryTerm = &query_terms.jyutping_terms[t];
            assert(terms[t as int] == term@);
            proof {
                crate::search::lemma_spec_best(term@, syllables, count as int);
            }
            let mut whole_here: Option<usize> = None;
            match best_syllable(term, &entry.jyutping) {
                Some((at, _)) => {
                    proof {
                        lemma_syllable_start_bounds(alphabet, syllables, at as int);
                        assert(syllables[at as int].base < alphabet.len());
                    }
                    let base: &[u8] = self.jyutping_store.base_strings[entry.jyutping[at].base as usize]
                        .as_str().as_bytes();
                    assert(base@ == alphabet[syllables[at as int].base as int]);
                    let typed: &[u8] = term.string_no_tone.as_str().as_bytes();
                    assert(typed@ == term@.base);
                    let start: usize = starts[at];
                    let ghost before = spans@;
                    if term.tone.is_some() && bytes_eq_ignore_case(base, typed) {
                        let bridged: bool = match left {
                            Some(prev) => prev + 1 == at,
                            None => false,
                        };
                        proof {
                            if bridged {
                                lemma_syllable_start_bounds(alphabet, syllables, at - 1);
                            }
                        }
                        let from: usize = if bridged {
                            start - 1
                        } else {
                            start
                        };
                        spans.push((from, start + base.len() + 1));
                        whole_here = Some(at);
                        proof {
                            assert(spans@ =~= before + spec_term_spans(
                                term@,
                                base@,
                                start as int,
                                bridged,
                            ));
                        }
                    } else {
                        if typed.len() > 0 {
                            match indexof_ignore_case(typed, base) {
                                Some(found) => {
                                    proof {
                                        lemma_first_match_from(typed@, base@, 0);
                                    }
                                    spans.push((start + found, start + found + typed.len()));
                                },
                                None => {
                                    if base.len() > 0 {
                                        spans.push((start, start + base.len()));
                                    }
                                },
                            }
                        }
                        if term.tone.is_some() {
                            spans.push((start + base.len(), start + base.len() + 1));
                        }
                        proof {
                            assert(spans@ =~= before + spec_term_spans(
                                term@,
                                base@,
                                start as int,
                                false,
                            ));
                        }
                    }
                },
                None => {},
            }
            left = whole_here;
            t += 1;
        }
        spans
    }
}

/// The stretches where the first `n` words stand first in a definition that
/// starts at byte `start` of the blob, word by word; a word that does not
/// stand in the definition gives none.
pub open spec fn spec_definition_spans(
    words: Seq<Seq<u8>>,
    definition: Seq<u8>,
    start: int,
    n: int,
) -> Seq<(usize, usize)>
    decreases n,
{
    if n <= 0 {
        Seq::empty()
    } else {
        let before = spec_definition_spans(words, definition, start, n - 1);
        match spec_indexof_ci(words[n - 1], definition) {
            Some(at) => before.push(
                ((start + at) as usize, (start + at + words[n - 1].len()) as usize),
            ),
            None => before,
        }
    }
}

/// The entries of the first `n` positions of `characters` whose id stands
/// among `terms`, each as the stretch from its position to the next.
pub open spec fn spec_traditional_spans(characters: Seq<u16>, terms: Seq<u16>, n: int) -> Seq<
    (usize, usize),
>
    decreases n,
{
    if n <= 0 {
        Seq::empty()
    } else {
        let before = spec_traditional_spans(characters, terms, n - 1);
        if terms.contains(characters[n - 1]) {
            before.push(((n - 1) as usize, n as usize))
        } else {
            before
        }
    }
}

impl CompiledDictionary {
    /// The stretches to highlight in the blob for the words of a query,
    /// through the definitions from `from` up to `to`: definition by
    /// definition, and in each word by word.
    pub open spec fn spec_english_spans(&self, words: Seq<Seq<u8>>, from: int, to: int) -> Seq<
        (usize, usize),
    >
        decreases to - from,
    {
        if to <= from {
            Seq::empty()
        } else {
            self.spec_english_spans(words, from, to - 1) + spec_definition_spans(
                words,
                self.spec_definition(to - 1),
                self.english_data_starts@[to - 1] as int,
                words.len() as int,
            )
        }
    }

    /// The stretches to highlight in the blob of definitions for the words of
    /// `query`, in the definitions of the entry.
    pub fn get_english_matched_spans(&self, entry: &CompiledDictionaryEntry, query: &str) -> (spans:
        Vec<(usize, usize)>)
        requires
            self.starts_wf(),
            self.english_range_wf(entry),
        ensures
            spans@ == self.spec_english_spans(
                spec_tokens(query.spec_bytes()),
                entry.english_start as int,
                entry.english_end as int,
            ),
            spans_nonempty(spans@),
    {
        let mut spans: Vec<(usize, usize)> = Vec::new();
        let text: &[u8] = query.as_bytes();
        let ranges: Vec<(usize, usize)> = scan_tokens(text);
        let ghost words = spec_tokens(text@);
        proof {
            lemma_token_ranges_sound(text@);
        }
        let mut def_idx: u32 = entry.english_start;
        while def_idx < entry.english_end
            invariant
                self.starts_wf(),
                self.english_range_wf(entry),
                words == spec_tokens(text@),
                token_ranges_sound(text@, token_ranges(text@)),
                ranges@.len() == token_ranges(text@).len(),
                forall|i: int|
                    0 <= i < ranges@.len() ==> (#[trigger] ranges@[i]).0 as int == token_ranges(
                        text@,
                    )[i].0 && ranges@[i].1 as int == token_ranges(text@)[i].1,
                entry.english_start <= def_idx <= entry.english_end,
                spans@ == self.spec_english_spans(
                    words,
                    entry.english_start as int,
                    def_idx as int,
                ),
                spans_nonempty(spans@),
            decreases entry.english_end - def_idx,
        {
            let start: usize = self.english_data_starts[def_idx as usize] as usize;
            let end: usize = self.english_data_starts[def_idx as usize + 1] as usize;
            let definition: &[u8] = &self.english_data.as_slice()[start..end];
            assert(definition@ == self.spec_definition(def_idx as int));
            let ghost before = spans@;
            let mut t: usize = 0;
            while t < ranges.len()
                invariant
                    words == spec_tokens(text@),
                    token_ranges_sound(text@, token_ranges(text@)),
                    ranges@.len() == token_ranges(text@).len(),
                    forall|i: int|
                        0 <= i < ranges@.len() ==> (#[trigger] ranges@[i]).0 as int
                            == token_ranges(text@)[i].0 && ranges@[i].1 as int == token_ranges(
                            text@,
                        )[i].1,
                    t <= ranges@.len(),
                    start + definition@.len() <= u32::MAX,
                    spans@ == before + spec_definition_spans(
                        words,
                        definition@,
                        start as int,
                        t as int,
                    ),
                    spans_nonempty(spans@),
                decreases ranges@.len() - t,
            {
                let range: (usize, usize) = ranges[t];
                proof {
                    let r = token_ranges(text@)[t as int];
                    assert(0 <= r.0 < r.1 <= text@.len());
                    assert(words[t as int] == text@.subrange(r.0, r.1));
                }
                let word: &[u8] = &text[range.0..range.1];
                let ghost so_far = spans@;
                if let Some(at) = indexof_ignore_case(word, definition) {
                    proof {
                        lemma_first_match_from(word@, definition@, 0);
                    }
                    spans.push((start + at, start + at + word.len()));
                }
                proof {
                    assert(spans@ =~= before + spec_definition_spans(
                        words,
                        definition@,
                        start as int,
                        t + 1,
                    ));
                }
                t += 1;
            }
            def_idx += 1;
        }
        spans
    }

    /// The positions in the entry of the characters whose id stands among the
    /// character terms of the query, each as a stretch of one.
    pub fn get_traditional_matched_spans(
        &self,
        entry: &CompiledDictionaryEntry,
        query_terms: &QueryTerms,
    ) -> (spans: Vec<(usize, usize)>)
        ensures
            spans@ == spec_traditional_spans(
                entry.characters@,
                query_terms.traditional_terms@,
                entry.characters@.len() as int,
            ),
            spans_nonempty(spans@),
    {
        let mut spans: Vec<(usize, usize)> = Vec::new();
        let mut k: usize = 0;
        while k < entry.characters.len()
            invariant
                k <= entry.characters@.len(),
                spans@ == spec_traditional_spans(
                    entry.characters@,
                    query_terms.traditional_terms@,
                    k as int,
                ),
                spans_nonempty(spans@),
            decreases entry.characters@.len() - k,
        {
            let id: u16 = entry.characters[k];
            let mut found: bool = false;
            let mut t: usize = 0;
            while t < query_terms.traditional_terms.len() && !found
                invariant
                    t <= query_terms.traditional_terms@.len(),
                    found ==> query_terms.traditional_terms@.contains(id),
                    !found ==> forall|j: int|
                        0 <= j < t ==> query_terms.traditional_terms@[j] != id,
                decreases query_terms.traditional_terms@.len() - t + if found {
                    0int
                } else {
                    1int
                },
            {
                if query_terms.traditional_terms[t] == id {
                    found = true;
                } else {
                    t += 1;
                }
            }
            if found {
                spans.push((k, k + 1));
            }
            k += 1;
        }
        spans
    }
}

/// `span` put into `sorted` behind every stretch that does not start later.
pub open spec fn spec_insert_span(sorted: Seq<(usize, usize)>, span: (usize, usize)) -> Seq<
    (usize, usize),
>
    decreases sorted.len(),
{
    if sorted.len() == 0 {
        seq![span]
    } else if sorted.last().0 <= span.0 {
        sorted.push(span)
    } else {
        spec_insert_span(sorted.drop_last(), span).push(sorted.last())
    }
}

/// The stretches in ascending order of their starts; stretches that start
/// together keep their order.
pub open spec fn spec_sort_spans(spans: Seq<(usize, usize)>) -> Seq<(usize, usize)>
    decreases spans.len(),
{
    if spans.len() == 0 {
        Seq::empty()
    } else {
        spec_insert_span(spec_sort_spans(spans.drop_last()), spans.last())
    }
}

/// The first `n` of the sorted stretches with every stretch that starts
/// inside the one before it, or where that one ends, made one with it.
pub open spec fn spec_coalesce(sorted: Seq<(usize, usize)>, n: int) -> Seq<(usize, usize)>
    decreases n,
{
    if n <= 0 {
        Seq::empty()
    } else {
        let before = spec_coalesce(sorted, n - 1);
        let span = sorted[n - 1];
        if before.len() > 0 && span.0 <= before.last().1 {
            before.drop_last().push(
                (
                    before.last().0,
                    if span.1 > before.last().1 {
                        span.1
                    } else {
                        before.last().1
                    },
                ),
            )
        } else {
            before.push(span)
        }
    }
}

/// The stretches sorted by their starts, with overlapping and touching ones
/// made one.
pub open spec fn spec_merge_spans(spans: Seq<(usize, usize)>) -> Seq<(usize, usize)> {
    spec_coalesce(spec_sort_spans(spans), spans.len() as int)
}

/// Putting a stretch in makes the stretches one more.
pub proof fn lemma_insert_span_len(sorted: Seq<(usize, usize)>, span: (usize, usize))
    ensures
        spec_insert_span(sorted, span).len() == sorted.len() + 1,
    decreases sorted.len(),
{
    if sorted.len() > 0 && sorted.last().0 > span.0 {
        lemma_insert_span_len(sorted.drop_last(), span);
    }
}

/// Sorting leaves as many stretches as there were.
pub proof fn lemma_sort_spans_len(spans: Seq<(usize, usize)>)
    ensures
        spec_sort_spans(spans).len() == spans.len(),
    decreases spans.len(),
{
    if spans.len() > 0 {
        lemma_sort_spans_len(spans.drop_last());
        lemma_insert_span_len(spec_sort_spans(spans.drop_last()), spans.last());
    }
}

/// Putting a stretch in is putting it at the place behind the last stretch
/// that does not start later.
pub proof fn lemma_insert_span_at(sorted: Seq<(usize, usize)>, span: (usize, usize), at: int)
    requires
        0 <= at <= sorted.len(),
        forall|k: int| at <= k < sorted.len() ==> (#[trigger] sorted[k]).0 > span.0,
        at > 0 ==> sorted[at - 1].0 <= span.0,
    ensures
        spec_insert_span(sorted, span) == sorted.insert(at, span),
    decreases sorted.len() - at,
{
    if at == sorted.len() {
        assert(sorted.insert(at, span) =~= sorted.push(span));
    } else {
        let head = sorted.drop_last();
        lemma_insert_span_at(head, span, at);
        assert(head.insert(at, span).push(sorted.last()) =~= sorted.insert(at, span));
    }
}

/// Each stretch ends before the next one starts, and none ends before it starts.
pub open spec fn spans_apart(spans: Seq<(usize, usize)>) -> bool {
    &&& forall|i: int| 0 <= i < spans.len() ==> (#[trigger] spans[i]).0 <= spans[i].1
    &&& forall|i: int| 0 <= i < spans.len() - 1 ==> (#[trigger] spans[i]).1 < spans[i + 1].0
}

/// Merging stretches that already lie apart, in order, changes nothing.
pub proof fn lemma_merge_apart_is_identity(spans: Seq<(usize, usize)>)
    requires
        spans_apart(spans),
    ensures
        spec_merge_spans(spans) == spans,
{
    lemma_sort_apart(spans);
    lemma_coalesce_apart(spans, spans.len() as int);
    assert(spans.take(spans.len() as int) =~= spans);
}

/// Sorting stretches that lie apart in order changes nothing.
proof fn lemma_sort_apart(spans: Seq<(usize, usize)>)
    requires
        spans_apart(spans),
    ensures
        spec_sort_spans(spans) == spans,
    decreases spans.len(),
{
    if spans.len() > 0 {
        let head = spans.drop_last();
        assert(spans_apart(head)) by {
            assert forall|i: int| 0 <= i < head.len() - 1 implies (#[trigger] head[i]).1 < head[i
                + 1].0 by {
                assert(spans[i].1 < spans[i + 1].0);
            }
        }
        lemma_sort_apart(head);
        if head.len() > 0 {
            let i = head.len() - 1;
            assert(spans[i].1 < spans[i + 1].0);
        }
        assert(head.push(spans.last()) =~= spans);
    }
}

/// Of stretches that lie apart none is made one with another.
proof fn lemma_coalesce_apart(spans: Seq<(usize, usize)>, n: int)
    requires
        spans_apart(spans),
        0 <= n <= spans.len(),
    ensures
        spec_coalesce(spans, n) == spans.take(n),
    decreases n,
{
    if n > 0 {
        lemma_coalesce_apart(spans, n - 1);
        if n > 1 {
            assert(spans[n - 2].1 < spans[n - 1].0);
        }
        assert(spans.take(n - 1).push(spans[n - 1]) =~= spans.take(n));
    } else {
        assert(spans.take(0) =~= Seq::<(usize, usize)>::empty());
    }
}

/// Putting a stretch with its start before its end among such stretches leaves
/// such stretches.
proof fn lemma_insert_span_nonempty(sorted: Seq<(usize, usize)>, span: (usize, usize))
    requires
        spans_nonempty(sorted),
        span.0 < span.1,
    ensures
        spans_nonempty(spec_insert_span(sorted, span)),
    decreases sorted.len(),
{
    let put = spec_insert_span(sorted, span);
    if sorted.len() == 0 {
        assert(put[0] == span);
    } else if sorted.last().0 <= span.0 {
        assert forall|i: int| 0 <= i < put.len() implies (#[trigger] put[i]).0 < put[i].1 by {
            if i < sorted.len() {
                assert(put[i] == sorted[i]);
            }
        }
    } else {
        let head = sorted.drop_last();
        assert forall|i: int| 0 <= i < head.len() implies (#[trigger] head[i]).0 < head[i].1 by {
            assert(head[i] == sorted[i]);
        }
        lemma_insert_span_nonempty(head, span);
        let inner = spec_insert_span(head, span);
        assert forall|i: int| 0 <= i < put.len() implies (#[trigger] put[i]).0 < put[i].1 by {
            if i < inner.len() {
                assert(put[i] == inner[i]);
            } else {
                assert(put[i] == sorted[sorted.len() - 1]);
            }
        }
    }
}

/// Sorting stretches of which each has its start before its end leaves such
/// stretches.
proof fn lemma_sort_spans_nonempty(spans: Seq<(usize, usize)>)
    requires
        spans_nonempty(spans),
    ensures
        spans_nonempty(spec_sort_spans(spans)),
    decreases spans.len(),
{
    if spans.len() > 0 {
        let head = spans.drop_last();
        assert forall|i: int| 0 <= i < head.len() implies (#[trigger] head[i]).0 < head[i].1 by {
            assert(head[i] == spans[i]);
        }
        lemma_sort_spans_nonempty(head);
        assert(spans[spans.len() - 1].0 < spans[spans.len() - 1].1);
        lemma_insert_span_nonempty(spec_sort_spans(head), spans.last());
    }
}

/// Making stretches one of which each has its start before its end leaves
/// such stretches.
proof fn lemma_coalesce_nonempty(sorted: Seq<(usize, usize)>, n: int)
    requires
        spans_nonempty(sorted),
        0 <= n <= sorted.len(),
    ensures
        spans_nonempty(spec_coalesce(sorted, n)),
    decreases n,
{
    if n > 0 {
        lemma_coalesce_nonempty(sorted, n - 1);
        let before = spec_coalesce(sorted, n - 1);
        let span = sorted[n - 1];
        let out = spec_coalesce(sorted, n);
        assert(span.0 < span.1);
        assert forall|i: int| 0 <= i < out.len() implies (#[trigger] out[i]).0 < out[i].1 by {
            if i < before.len() - 1 {
                assert(out[i] == before[i]);
            } else if before.len() > 0 && span.0 <= before.last().1 {
                assert(before[before.len() - 1].0 < before[before.len() - 1].1);
            } else if i < before.len() {
                assert(out[i] == before[i]);
            }
        }
    }
}

/// Merging stretches of which each has its start before its end leaves
/// stretches of which each has its start before its end.
pub proof fn lemma_merge_keeps_nonempty(spans: Seq<(usize, usize)>)
    requires
        spans_nonempty(spans),
    ensures
        spans_nonempty(spec_merge_spans(spans)),
{
    lemma_sort_spans_nonempty(spans);
    lemma_sort_spans_len(spans);
    lemma_coalesce_nonempty(spec_sort_spans(spans), spans.len() as int);
}

/// Of the stretches made one, each ends before the next one starts.
proof fn lemma_coalesce_chain(sorted: Seq<(usize, usize)>, n: int)
    requires
        0 <= n <= sorted.len(),
    ensures
        forall|i: int|
            0 <= i < spec_coalesce(sorted, n).len() - 1 ==> (#[trigger] spec_coalesce(
                sorted,
                n,
            )[i]).1 < spec_coalesce(sorted, n)[i + 1].0,
    decreases n,
{
    if n > 0 {
        lemma_coalesce_chain(sorted, n - 1);
        let before = spec_coalesce(sorted, n - 1);
        let after = spec_coalesce(sorted, n);
        assert forall|i: int| 0 <= i < after.len() - 1 implies (#[trigger] after[i]).1 < after[i
            + 1].0 by {
            if i + 1 < before.len() {
                assert(before[i].1 < before[i + 1].0);
            }
        }
    }
}

/// Merging what was merged changes nothing, where each stretch has its
/// start before its end.
pub proof fn lemma_merge_is_idempotent(spans: Seq<(usize, usize)>)
    requires
        spans_nonempty(spans),
    ensures
        spans_apart(spec_merge_spans(spans)),
        spec_merge_spans(spec_merge_spans(spans)) == spec_merge_spans(spans),
{
    lemma_merge_keeps_nonempty(spans);
    lemma_sort_spans_len(spans);
    lemma_coalesce_chain(spec_sort_spans(spans), spans.len() as int);
    lemma_merge_apart_is_identity(spec_merge_spans(spans));
}

/// Stretches behind stretches, each with its start before its end, are
/// stretches of which each has its start before its end.
pub proof fn lemma_spans_nonempty_concat(a: Seq<(usize, usize)>, b: Seq<(usize, usize)>)
    requires
        spans_nonempty(a),
        spans_nonempty(b),
    ensures
        spans_nonempty(a + b),
{
    assert forall|i: int| 0 <= i < (a + b).len() implies (#[trigger] (a + b)[i]).0 < (a + b)[i].1 by {
        if i < a.len() {
            assert((a + b)[i] == a[i]);
        } else {
            assert((a + b)[i] == b[i - a.len()]);
        }
    }
}

/// Each stretch of a term in a syllable has its start before its end.
pub proof fn lemma_term_spans_nonempty(term: TermModel, base: Seq<u8>, start: int, bridged: bool)
    requires
        0 <= start,
        bridged ==> start >= 1,
        start + base.len() + 1 <= usize::MAX,
    ensures
        spans_nonempty(spec_term_spans(term, base, start, bridged)),
{
    lemma_first_match_from(term.base, base, 0);
    let spans = spec_term_spans(term, base, start, bridged);
    assert forall|i: int| 0 <= i < spans.len() implies (#[trigger] spans[i]).0 < spans[i].1 by {}
}

/// Each stretch in the romanisation of an entry has its start before its
/// end.
pub proof fn lemma_jyutping_spans_nonempty(
    alphabet: Seq<Seq<u8>>,
    syllables: Seq<Jyutping>,
    terms: Seq<TermModel>,
    n: int,
)
    requires
        syllables_in(alphabet, syllables),
        forall|i: int| 0 <= i < alphabet.len() ==> (#[trigger] alphabet[i]).len() <= 0xff_ffff,
        syllables.len() < 256,
        0 <= n <= terms.len(),
    ensures
        spans_nonempty(spec_jyutping_spans(alphabet, syllables, terms, n)),
    decreases n,
{
    if n > 0 {
        lemma_jyutping_spans_nonempty(alphabet, syllables, terms, n - 1);
        let count = syllables.len() as int;
        crate::search::lemma_spec_best(terms[n - 1], syllables, count);
        match spec_best(terms[n - 1], syllables, count) {
            Some((at, _)) => {
                let bridged = match spec_whole_at(alphabet, syllables, terms, n - 2) {
                    Some(left) => left + 1 == at,
                    None => false,
                };
                lemma_syllable_start_bounds(alphabet, syllables, at);
                assert(syllables[at].base < alphabet.len());
                if bridged {
                    crate::search::lemma_spec_best(terms[n - 2], syllables, count);
                    lemma_syllable_start_bounds(alphabet, syllables, at - 1);
                }
                lemma_term_spans_nonempty(
                    terms[n - 1],
                    alphabet[syllables[at].base as int],
                    spec_syllable_start(alphabet, syllables, at),
                    bridged,
                );
                lemma_spans_nonempty_concat(
                    spec_jyutping_spans(alphabet, syllables, terms, n - 1),
                    spec_term_spans(
                        terms[n - 1],
                        alphabet[syllables[at].base as int],
                        spec_syllable_start(alphabet, syllables, at),
                        bridged,
                    ),
                );
            },
            None => {},
        }
    }
}

/// Each stretch of a word in a definition has its start before its end.
pub proof fn lemma_definition_spans_nonempty(
    words: Seq<Seq<u8>>,
    definition: Seq<u8>,
    start: int,
    n: int,
)
    requires
        forall|i: int| 0 <= i < words.len() ==> (#[trigger] words[i]).len() > 0,
        0 <= start,
        start + definition.len() <= usize::MAX,
        n <= words.len(),
    ensures
        spans_nonempty(spec_definition_spans(words, definition, start, n)),
    decreases n,
{
    if n > 0 {
        lemma_definition_spans_nonempty(words, definition, start, n - 1);
        lemma_first_match_from(words[n - 1], definition, 0);
        assert(words[n - 1].len() > 0);
        let before = spec_definition_spans(words, definition, start, n - 1);
        let spans = spec_definition_spans(words, definition, start, n);
        assert forall|i: int| 0 <= i < spans.len() implies (#[trigger] spans[i]).0 < spans[i].1 by {
            if i < before.len() {
                assert(spans[i] == before[i]);
            }
        }
    }
}

/// Each stretch of a character of an entry has its start before its end.
pub proof fn lemma_traditional_spans_nonempty(characters: Seq<u16>, terms: Seq<u16>, n: int)
    requires
        n <= characters.len() <= usize::MAX,
    ensures
        spans_nonempty(spec_traditional_spans(characters, terms, n)),
    decreases n,
{
    if n > 0 {
        lemma_traditional_spans_nonempty(characters, terms, n - 1);
        let before = spec_traditional_spans(characters, terms, n - 1);
        let spans = spec_traditional_spans(characters, terms, n);
        assert forall|i: int| 0 <= i < spans.len() implies (#[trigger] spans[i]).0 < spans[i].1 by {
            if i < before.len() {
                assert(spans[i] == before[i]);
            }
        }
    }
}

impl CompiledDictionary {
    /// Each stretch of a word in the definitions has its start before its
    /// end.
    pub proof fn lemma_english_spans_nonempty(&self, words: Seq<Seq<u8>>, from: int, to: int)
        requires
            self.starts_wf(),
            0 <= from,
            to < self.english_data_starts@.len(),
            forall|i: int| 0 <= i < words.len() ==> (#[trigger] words[i]).len() > 0,
        ensures
            spans_nonempty(self.spec_english_spans(words, from, to)),
        decreases to - from,
    {
        if to > from {
            self.lemma_english_spans_nonempty(words, from, to - 1);
            let starts = self.english_data_starts@;
            assert(starts[to - 1] <= starts[to]);
            assert(starts[to] <= self.english_data@.len());
            lemma_definition_spans_nonempty(
                words,
                self.spec_definition(to - 1),
                starts[to - 1] as int,
                words.len() as int,
            );
            lemma_spans_nonempty_concat(
                self.spec_english_spans(words, from, to - 1),
                spec_definition_spans(
                    words,
                    self.spec_definition(to - 1),
                    starts[to - 1] as int,
                    words.len() as int,
                ),
            );
        }
    }
}

/// The romanisation of more syllables starts with the romanisation of fewer.
pub proof fn lemma_display_grows(
    alphabet: Seq<Seq<u8>>,
    syllables: Seq<Jyutping>,
    n: int,
    more: int,
)
    requires
        0 <= n <= more <= syllables.len(),
    ensures
        spec_jyutping_display(alphabet, syllables, n).len() <= spec_jyutping_display(
            alphabet,
            syllables,
            more,
        ).len(),
        spec_jyutping_display(alphabet, syllables, more).subrange(
            0,
            spec_jyutping_display(alphabet, syllables, n).len() as int,
        ) == spec_jyutping_display(alphabet, syllables, n),
    decreases more - n,
{
    let small = spec_jyutping_display(alphabet, syllables, n);
    let big = spec_jyutping_display(alphabet, syllables, more);
    if n < more {
        lemma_display_grows(alphabet, syllables, n, more - 1);
        let mid = spec_jyutping_display(alphabet, syllables, more - 1);
        assert(mid.len() <= big.len());
        assert(big.subrange(0, mid.len() as int) =~= mid);
        assert(big.subrange(0, small.len() as int) =~= mid.subrange(0, small.len() as int));
    } else {
        assert(big.subrange(0, small.len() as int) =~= small);
    }
}

/// In the romanisation of an entry, the base of syllable `k` stands where
/// the syllable starts, and its tone digit behind it.
pub proof fn lemma_display_holds_syllable(
    alphabet: Seq<Seq<u8>>,
    syllables: Seq<Jyutping>,
    k: int,
)
    requires
        0 <= k < syllables.len(),
    ensures
        ({
            let display = spec_jyutping_display(alphabet, syllables, syllables.len() as int);
            let start = spec_syllable_start(alphabet, syllables, k);
            let base = alphabet[syllables[k].base as int];
            &&& 0 <= start
            &&& start + base.len() + 1 <= display.len()
            &&& display.subrange(start, start + base.len()) == base
            &&& display[start + base.len()] == (syllables[k].tone + 0x30) as u8
            &&& k > 0 ==> display[start - 1] == 0x20u8
        }),
{
    let display = spec_jyutping_display(alphabet, syllables, syllables.len() as int);
    let upto = spec_jyutping_display(alphabet, syllables, k + 1);
    let before = spec_jyutping_display(alphabet, syllables, k);
    let start = spec_syllable_start(alphabet, syllables, k);
    let base = alphabet[syllables[k].base as int];
    lemma_jyutping_display_len(alphabet, syllables, k);
    lemma_jyutping_display_len(alphabet, syllables, k + 1);
    lemma_display_grows(alphabet, syllables, k + 1, syllables.len() as int);
    let spaced = if k == 0 {
        before
    } else {
        before.push(0x20u8)
    };
    assert(spaced.len() == start);
    assert(upto == (spaced + base).push((syllables[k].tone + 0x30) as u8));
    assert(upto.subrange(start, start + base.len()) =~= base);
    assert(display.subrange(start, start + base.len()) =~= upto.subrange(start, start + base.len()))
        by {
        assert forall|i: int| 0 <= i < upto.len() implies display[i] == upto[i] by {
            assert(display.subrange(0, upto.len() as int)[i] == display[i]);
        }
    }
    assert(display[start + base.len()] == upto[start + base.len()]) by {
        assert(display.subrange(0, upto.len() as int)[start + base.len()] == display[start
            + base.len()]);
    }
    if k > 0 {
        assert(display[start - 1] == upto[start - 1]) by {
            assert(display.subrange(0, upto.len() as int)[start - 1] == display[start - 1]);
        }
        assert(upto[start - 1] == spaced[start - 1]);
    }
}

/// Where the typed text of a term stands inside the base of the syllable
/// that the term is matched by, the stretch to highlight for it shows, but
/// for case, the typed text, and not the rest of the syllable.
pub proof fn lemma_partial_span_shows_typed_text(
    alphabet: Seq<Seq<u8>>,
    syllables: Seq<Jyutping>,
    typed: Seq<u8>,
    k: int,
)
    requires
        0 <= k < syllables.len(),
        typed.len() > 0,
        spec_indexof_ci(typed, alphabet[syllables[k].base as int]) is Some,
    ensures
        ({
            let display = spec_jyutping_display(alphabet, syllables, syllables.len() as int);
            let from = spec_syllable_start(alphabet, syllables, k) + spec_indexof_ci(
                typed,
                alphabet[syllables[k].base as int],
            ).unwrap();
            &&& 0 <= from
            &&& from + typed.len() <= display.len()
            &&& seq_eq_ci(typed, display.subrange(from, from + typed.len()))
        }),
{
    let display = spec_jyutping_display(alphabet, syllables, syllables.len() as int);
    let start = spec_syllable_start(alphabet, syllables, k);
    let base = alphabet[syllables[k].base as int];
    let at = spec_indexof_ci(typed, base).unwrap();
    lemma_first_match_from(typed, base, 0);
    lemma_display_holds_syllable(alphabet, syllables, k);
    let shown = display.subrange(start + at, start + at + typed.len());
    assert forall|i: int| 0 <= i < typed.len() implies crate::string_search::eq_ci(
        #[trigger] typed[i],
        shown[i],
    ) by {
        assert(shown[i] == display[start + at + i]);
        assert(display.subrange(start, start + base.len())[at + i] == display[start + at + i]);
    }
}

/// Sorts the stretches by their starts and makes overlapping and touching
/// ones one.
pub fn merge_overlapping_match_spans(spans: Vec<(usize, usize)>) -> (merged: Vec<(usize, usize)>)
    ensures
        merged@ == spec_merge_spans(spans@),
        spans_nonempty(spans@) ==> spans_nonempty(merged@),
{
    proof {
        if spans_nonempty(spans@) {
            lemma_merge_keeps_nonempty(spans@);
        }
    }
    let mut sorted: Vec<(usize, usize)> = Vec::new();
    let mut i: usize = 0;
    assert(spans@.take(0) =~= Seq::<(usize, usize)>::empty());
    while i < spans.len()
        invariant
            i <= spans@.len(),
            sorted@ == spec_sort_spans(spans@.take(i as int)),
            sorted@.len() == i,
        decreases spans@.len() - i,
    {
        let span: (usize, usize) = spans[i];
        let mut at: usize = sorted.len();
        while at > 0 && sorted[at - 1].0 > span.0
            invariant
                at <= sorted@.len(),
                forall|k: int| at <= k < sorted@.len() ==> (#[trigger] sorted@[k]).0 > span.0,
            decreases at,
        {
            at -= 1;
        }
        proof {
            lemma_insert_span_at(sorted@, span, at as int);
            assert(spans@.take(i + 1).drop_last() =~= spans@.take(i as int));
        }
        sorted.insert(at, span);
        i += 1;
    }
    assert(spans@.take(spans@.len() as int) =~= spans@);
    let mut merged: Vec<(usize, usize)> = Vec::new();
    let mut k: usize = 0;
    while k < sorted.len()
        invariant
            k <= sorted@.len(),
            merged@ == spec_coalesce(sorted@, k as int),
        decreases sorted@.len() - k,
    {
        let span: (usize, usize) = sorted[k];
        let count: usize = merged.len();
        if count > 0 && span.0 <= merged[count - 1].1 {
            let last: (usize, usize) = merged[count - 1];
            let end: usize = if span.1 > last.1 {
                span.1
            } else {
                last.1
            };
            merged.set(count - 1, (last.0, end));
            assert(merged@ =~= spec_coalesce(sorted@, k + 1));
        } else {
            merged.push(span);
        }
        k += 1;
    }
    merged
}

} // verus!
