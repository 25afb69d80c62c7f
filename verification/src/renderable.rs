//! What a search returns can be rendered: the stretches of every match lie in
//! what is displayed of its entry, and start and end where a character does.

use crate::compiled_dictionary::{CompiledDictionary, Jyutping};
use crate::jyutping_splitter::spec_base;
use crate::reconstruct_match::{
    lemma_display_holds_syllable, lemma_insert_span_len, lemma_jyutping_display_len,
    lemma_syllable_start_bounds, spec_coalesce, spec_definition_spans, spec_insert_span,
    spec_jyutping_display, spec_jyutping_spans, spec_merge_spans, spec_sort_spans,
    spec_syllable_start, spec_term_spans, spec_traditional_spans, spec_whole_at, syllables_in,
};
use crate::rendered_result::{highlights_fit, spec_spans_within, RenderedResult};
use crate::search::{
    lemma_rank_keeps, lemma_spec_best, spec_best, spec_rank, spec_traditional_terms,
    spec_truncate, Match, MatchType, MatchWithHitInfo, SearchResult, TermModel,
};
use crate::string_search::{eq_ci, lemma_first_match_from, matches_at_ci, spec_indexof_ci};
use crate::text::{
    lemma_boundary_at_ascii, lemma_boundary_behind_ascii, lemma_token_ranges_sound, spec_is_digit,
    spec_tokens, token_ranges,
};
use vstd::prelude::*;
use vstd::utf8::*;

verus! {

/// In a text, a character that starts before the end of the text ends
/// where the next character starts or the text ends.
pub proof fn lemma_next_boundary(bytes: Seq<u8>, p: int)
    requires
        valid_utf8(bytes),
        0 <= p < bytes.len(),
        is_char_boundary(bytes, p),
    ensures
        valid_first_scalar(bytes.skip(p)),
        1 <= length_of_first_scalar(bytes.skip(p)),
        p + length_of_first_scalar(bytes.skip(p)) <= bytes.len(),
        is_char_boundary(bytes, p + length_of_first_scalar(bytes.skip(p))),
{
    valid_utf8_split(bytes, p);
    let rest = bytes.skip(p);
    assert(rest =~= bytes.subrange(p, bytes.len() as int));
    let l = length_of_first_scalar(rest);
    let e = p + l;
    if e < bytes.len() {
        assert(is_char_boundary(rest, l)) by {
            reveal_with_fuel(is_char_boundary, 2);
        }
        is_char_boundary_iff_not_is_continuation_byte(rest, l);
        is_char_boundary_iff_not_is_continuation_byte(bytes, e);
        assert(rest[l] == bytes[e]);
    } else {
        is_char_boundary_start_end_of_seq(bytes);
    }
}

/// A text that stands in another text from the start of a character on, case
/// not regarded, ends there where a character ends.
pub proof fn lemma_match_ends_on_boundary(needle: Seq<u8>, hay: Seq<u8>, at: int)
    requires
        valid_utf8(needle),
        valid_utf8(hay),
        matches_at_ci(needle, hay, at),
        is_char_boundary(hay, at),
    ensures
        is_char_boundary(hay, at + needle.len()),
    decreases needle.len(),
{
    if needle.len() > 0 {
        let l = length_of_first_scalar(needle);
        assert(eq_ci(needle[0], hay[at]));
        lemma_next_boundary(hay, at);
        assert(hay.skip(at)[0] == hay[at]);
        assert(length_of_first_scalar(hay.skip(at)) == l);
        let rest = pop_first_scalar(needle);
        assert forall|k: int| 0 <= k < rest.len() implies eq_ci(
            #[trigger] rest[k],
            hay[at + l + k],
        ) by {
            assert(rest[k] == needle[l + k]);
            assert(eq_ci(needle[l + k], hay[at + (l + k)]));
        }
        lemma_match_ends_on_boundary(rest, hay, at + l);
    }
}

/// A text that is not empty and stands in another text, case not regarded,
/// starts and ends there where a character does.
pub proof fn lemma_match_on_boundaries(needle: Seq<u8>, hay: Seq<u8>, at: int)
    requires
        valid_utf8(needle),
        valid_utf8(hay),
        needle.len() > 0,
        matches_at_ci(needle, hay, at),
    ensures
        is_char_boundary(hay, at),
        is_char_boundary(hay, at + needle.len()),
{
    assert(eq_ci(needle[0], hay[at]));
    is_char_boundary_start_end_of_seq(needle);
    is_char_boundary_iff_not_is_continuation_byte(needle, 0);
    is_char_boundary_iff_not_is_continuation_byte(hay, at);
    lemma_match_ends_on_boundary(needle, hay, at);
}

/// The stretch starts where one of the stretches starts that it takes in,
/// and ends where one of them ends.
pub open spec fn span_made_of(raw: Seq<(usize, usize)>, m: (usize, usize)) -> bool {
    &&& exists|i: int| 0 <= i < raw.len() && (#[trigger] raw[i]).0 == m.0 && raw[i].1 <= m.1
    &&& exists|j: int| 0 <= j < raw.len() && (#[trigger] raw[j]).1 == m.1 && m.0 <= raw[j].0
}

/// No stretch starts before one that stands before it.
pub open spec fn starts_ascending(spans: Seq<(usize, usize)>) -> bool {
    forall|i: int, j: int| 0 <= i <= j < spans.len() ==> spans[i].0 <= spans[j].0
}

/// Putting a stretch among stretches in order brings no other stretch, and
/// leaves them in order.
proof fn lemma_insert_span_keeps(
    sorted: Seq<(usize, usize)>,
    span: (usize, usize),
    raw: Seq<(usize, usize)>,
)
    requires
        starts_ascending(sorted),
        forall|i: int| 0 <= i < sorted.len() ==> raw.contains(#[trigger] sorted[i]),
        raw.contains(span),
    ensures
        starts_ascending(spec_insert_span(sorted, span)),
        spec_insert_span(sorted, span).len() == sorted.len() + 1,
        forall|i: int|
            0 <= i < spec_insert_span(sorted, span).len() ==> raw.contains(
                #[trigger] spec_insert_span(sorted, span)[i],
            ),
    decreases sorted.len(),
{
    let put = spec_insert_span(sorted, span);
    if sorted.len() == 0 {
    } else if sorted.last().0 <= span.0 {
        assert forall|i: int, j: int| 0 <= i <= j < put.len() implies put[i].0 <= put[j].0 by {
            if j < sorted.len() {
                assert(sorted[i].0 <= sorted[j].0);
            } else if i < sorted.len() {
                assert(sorted[i].0 <= sorted[sorted.len() - 1].0);
            }
        }
    } else {
        let head = sorted.drop_last();
        assert forall|i: int, j: int| 0 <= i <= j < head.len() implies head[i].0 <= head[j].0 by {
            assert(sorted[i].0 <= sorted[j].0);
        }
        assert forall|i: int| 0 <= i < head.len() implies raw.contains(#[trigger] head[i]) by {
            assert(head[i] == sorted[i]);
        }
        lemma_insert_span_keeps(head, span, raw);
        let inner = spec_insert_span(head, span);
        assert(put == inner.push(sorted.last()));
        assert forall|i: int| 0 <= i < inner.len() implies (#[trigger] inner[i]).0
            <= sorted.last().0 by {
            if inner[i] == span {
            } else {
                // every stretch of `inner` but `span` is one of `head`
                lemma_insert_span_from(head, span, i);
                let k = choose|k: int| 0 <= k < head.len() && head[k] == inner[i];
                assert(sorted[k].0 <= sorted[sorted.len() - 1].0);
            }
        }
        assert forall|i: int, j: int| 0 <= i <= j < put.len() implies put[i].0 <= put[j].0 by {
            if j < inner.len() {
                assert(inner[i].0 <= inner[j].0);
            } else if i < inner.len() {
                assert(inner[i].0 <= sorted.last().0);
            }
        }
        assert forall|i: int| 0 <= i < put.len() implies raw.contains(#[trigger] put[i]) by {
            if i < inner.len() {
                assert(put[i] == inner[i]);
            } else {
                assert(put[i] == sorted[sorted.len() - 1]);
            }
        }
    }
}

/// What stands among stretches after one was put in is that one or stood
/// there before.
proof fn lemma_insert_span_from(sorted: Seq<(usize, usize)>, span: (usize, usize), i: int)
    requires
        0 <= i < spec_insert_span(sorted, span).len(),
    ensures
        spec_insert_span(sorted, span)[i] == span || exists|k: int|
            0 <= k < sorted.len() && sorted[k] == spec_insert_span(sorted, span)[i],
    decreases sorted.len(),
{
    let put = spec_insert_span(sorted, span);
    if sorted.len() == 0 {
    } else if sorted.last().0 <= span.0 {
        if i < sorted.len() {
            assert(sorted[i] == put[i]);
        }
    } else {
        let head = sorted.drop_last();
        let inner = spec_insert_span(head, span);
        lemma_insert_span_len(head, span);
        if i < inner.len() {
            lemma_insert_span_from(head, span, i);
            if inner[i] != span {
                let k = choose|k: int| 0 <= k < head.len() && head[k] == inner[i];
                assert(sorted[k] == put[i]);
            }
        } else {
            assert(sorted[sorted.len() - 1] == put[i]);
        }
    }
}

/// Sorted stretches stand in order of their starts, are as many as were
/// given, and each of them was given.
pub proof fn lemma_sort_spans_keeps(spans: Seq<(usize, usize)>)
    ensures
        starts_ascending(spec_sort_spans(spans)),
        spec_sort_spans(spans).len() == spans.len(),
        forall|i: int|
            0 <= i < spans.len() ==> spans.contains(#[trigger] spec_sort_spans(spans)[i]),
    decreases spans.len(),
{
    if spans.len() > 0 {
        let head = spans.drop_last();
        lemma_sort_spans_keeps(head);
        let sorted = spec_sort_spans(head);
        assert forall|i: int| 0 <= i < sorted.len() implies spans.contains(#[trigger] sorted[i]) by {
            let k = choose|k: int| 0 <= k < head.len() && head[k] == sorted[i];
            assert(spans[k] == sorted[i]);
        }
        assert(spans[spans.len() - 1] == spans.last());
        lemma_insert_span_keeps(sorted, spans.last(), spans);
    }
}

/// The stretch starts where one of the first `n` stretches starts.
pub open spec fn starts_among(sorted: Seq<(usize, usize)>, n: int, m: (usize, usize)) -> bool {
    exists|k: int| 0 <= k < n && (#[trigger] sorted[k]).0 == m.0
}

/// Each of the stretches made one starts where one of the sorted stretches
/// starts that it takes in, and ends where one of them ends.
proof fn lemma_coalesce_made_of(sorted: Seq<(usize, usize)>, n: int)
    requires
        starts_ascending(sorted),
        0 <= n <= sorted.len(),
    ensures
        forall|i: int|
            0 <= i < spec_coalesce(sorted, n).len() ==> span_made_of(
                sorted,
                #[trigger] spec_coalesce(sorted, n)[i],
            ),
        forall|i: int|
            0 <= i < spec_coalesce(sorted, n).len() ==> starts_among(
                sorted,
                n,
                #[trigger] spec_coalesce(sorted, n)[i],
            ),
    decreases n,
{
    if n > 0 {
        lemma_coalesce_made_of(sorted, n - 1);
        let before = spec_coalesce(sorted, n - 1);
        let span = sorted[n - 1];
        let out = spec_coalesce(sorted, n);
        assert forall|i: int| 0 <= i < out.len() implies span_made_of(sorted, #[trigger] out[i])
            && starts_among(sorted, n, out[i]) by {
            if before.len() > 0 && span.0 <= before.last().1 {
                if i < before.len() - 1 {
                    assert(out[i] == before[i]);
                    assert(span_made_of(sorted, before[i]));
                    assert(starts_among(sorted, n - 1, before[i]));
                    let k = choose|k: int| 0 <= k < n - 1 && (#[trigger] sorted[k]).0 == before[i].0;
                    assert(sorted[k].0 == out[i].0);
                } else {
                    let last = before[before.len() - 1];
                    assert(span_made_of(sorted, last));
                    assert(starts_among(sorted, n - 1, last));
                    let k = choose|k: int| 0 <= k < n - 1 && (#[trigger] sorted[k]).0 == last.0;
                    assert(sorted[k].0 <= sorted[n - 1].0);
                    let x = choose|x: int|
                        0 <= x < sorted.len() && (#[trigger] sorted[x]).0 == last.0 && sorted[x].1
                            <= last.1;
                    let y = choose|y: int|
                        0 <= y < sorted.len() && (#[trigger] sorted[y]).1 == last.1 && last.0
                            <= sorted[y].0;
                    assert(sorted[x].0 == out[i].0 && sorted[x].1 <= out[i].1);
                    if span.1 > last.1 {
                        assert(sorted[n - 1].1 == out[i].1 && out[i].0 <= sorted[n - 1].0);
                    } else {
                        assert(sorted[y].1 == out[i].1 && out[i].0 <= sorted[y].0);
                    }
                    assert(sorted[k].0 == out[i].0);
                }
            } else {
                if i < before.len() {
                    assert(out[i] == before[i]);
                    assert(span_made_of(sorted, before[i]));
                    assert(starts_among(sorted, n - 1, before[i]));
                    let k = choose|k: int| 0 <= k < n - 1 && (#[trigger] sorted[k]).0 == before[i].0;
                    assert(sorted[k].0 == out[i].0);
                } else {
                    assert(out[i] == span);
                    assert(sorted[n - 1].0 == out[i].0 && sorted[n - 1].1 <= out[i].1);
                    assert(sorted[n - 1].1 == out[i].1 && out[i].0 <= sorted[n - 1].0);
                }
            }
        }
    }
}

/// Each of the merged stretches starts where one of the given stretches
/// starts that it takes in, and ends where one of them ends.
pub proof fn lemma_merge_made_of(raw: Seq<(usize, usize)>, i: int)
    requires
        0 <= i < spec_merge_spans(raw).len(),
    ensures
        span_made_of(raw, spec_merge_spans(raw)[i]),
{
    let sorted = spec_sort_spans(raw);
    lemma_sort_spans_keeps(raw);
    lemma_coalesce_made_of(sorted, raw.len() as int);
    let m = spec_merge_spans(raw)[i];
    assert(span_made_of(sorted, m));
    let x = choose|x: int|
        0 <= x < sorted.len() && (#[trigger] sorted[x]).0 == m.0 && sorted[x].1 <= m.1;
    let y = choose|y: int|
        0 <= y < sorted.len() && (#[trigger] sorted[y]).1 == m.1 && m.0 <= sorted[y].0;
    assert(raw.contains(sorted[x]));
    assert(raw.contains(sorted[y]));
    let a = choose|a: int| 0 <= a < raw.len() && raw[a] == sorted[x];
    let b = choose|b: int| 0 <= b < raw.len() && raw[b] == sorted[y];
    assert(raw[a].0 == m.0 && raw[a].1 <= m.1);
    assert(raw[b].1 == m.1 && m.0 <= raw[b].0);
}

/// A part of a text between two places where characters end is a text.
pub proof fn lemma_part_is_text(bytes: Seq<u8>, from: int, to: int)
    requires
        valid_utf8(bytes),
        0 <= from <= to <= bytes.len(),
        is_char_boundary(bytes, from),
        is_char_boundary(bytes, to),
    ensures
        valid_utf8(bytes.subrange(from, to)),
{
    valid_utf8_split(bytes, to);
    let head = bytes.subrange(0, to);
    if from < to {
        is_char_boundary_iff_not_is_continuation_byte(bytes, from);
        is_char_boundary_iff_not_is_continuation_byte(head, from);
        assert(head[from] == bytes[from]);
    } else {
        is_char_boundary_start_end_of_seq(head);
    }
    valid_utf8_split(head, from);
    assert(head.subrange(from, to) =~= bytes.subrange(from, to));
}

/// Where a text holds another text as a part that starts and ends where
/// characters do, a character that ends in the part ends in the whole.
pub proof fn lemma_boundary_in_part(text: Seq<u8>, start: int, part: Seq<u8>, q: int)
    requires
        valid_utf8(text),
        valid_utf8(part),
        0 <= start,
        start + part.len() <= text.len(),
        text.subrange(start, start + part.len()) == part,
        is_char_boundary(text, start + part.len()),
        0 <= q <= part.len(),
        is_char_boundary(part, q),
    ensures
        is_char_boundary(text, start + q),
{
    if q < part.len() {
        is_char_boundary_iff_not_is_continuation_byte(part, q);
        is_char_boundary_iff_not_is_continuation_byte(text, start + q);
        assert(text.subrange(start, start + part.len())[q] == text[start + q]);
    }
}

/// The stretch lies in the text, start before or at end, and starts and ends
/// where a character does.
pub open spec fn span_fits(text: Seq<u8>, span: (usize, usize)) -> bool {
    &&& span.0 <= span.1 <= text.len()
    &&& is_char_boundary(text, span.0 as int)
    &&& is_char_boundary(text, span.1 as int)
}

/// Stretches that fit a text, behind stretches that fit it, fit it.
pub proof fn lemma_highlights_fit_concat(
    text: Seq<u8>,
    a: Seq<(usize, usize)>,
    b: Seq<(usize, usize)>,
)
    requires
        highlights_fit(text, a),
        highlights_fit(text, b),
    ensures
        highlights_fit(text, a + b),
{
    assert forall|i: int| 0 <= i < (a + b).len() implies span_fits(text, #[trigger] (a + b)[i]) by {
        if i < a.len() {
            assert((a + b)[i] == a[i]);
        } else {
            assert((a + b)[i] == b[i - a.len()]);
        }
    }
}

/// The words of a query are texts, and so is each without its tone digit.
pub proof fn lemma_tokens_are_texts(query: Seq<char>, i: int)
    requires
        0 <= i < spec_tokens(encode_utf8(query)).len(),
    ensures
        spec_tokens(encode_utf8(query))[i].len() > 0,
        valid_utf8(spec_tokens(encode_utf8(query))[i]),
        valid_utf8(spec_base(spec_tokens(encode_utf8(query))[i])),
{
    let bytes = encode_utf8(query);
    encode_utf8_valid_utf8(query);
    lemma_token_ranges_sound(bytes);
    let r = token_ranges(bytes)[i];
    if r.0 > 0 {
        lemma_boundary_behind_ascii(bytes, r.0 - 1);
    }
    if r.1 < bytes.len() {
        lemma_boundary_at_ascii(bytes, r.1);
    }
    is_char_boundary_start_end_of_seq(bytes);
    lemma_part_is_text(bytes, r.0, r.1);
    let word = bytes.subrange(r.0, r.1);
    assert(word == spec_tokens(bytes)[i]);
    if spec_is_digit(word.last()) {
        lemma_boundary_at_ascii(word, word.len() - 1);
        is_char_boundary_start_end_of_seq(word);
        lemma_part_is_text(word, 0, word.len() - 1);
        assert(word.subrange(0, word.len() - 1) =~= word.drop_last());
    }
}

/// The romanisation of an entry is a text, where the bases of its syllables
/// are texts.
pub proof fn lemma_display_is_text(alphabet: Seq<Seq<u8>>, syllables: Seq<Jyutping>, n: int)
    requires
        syllables_in(alphabet, syllables),
        forall|i: int| 0 <= i < alphabet.len() ==> valid_utf8(#[trigger] alphabet[i]),
        0 <= n <= syllables.len(),
    ensures
        valid_utf8(spec_jyutping_display(alphabet, syllables, n)),
    decreases n,
{
    if n > 0 {
        lemma_display_is_text(alphabet, syllables, n - 1);
        let before = spec_jyutping_display(alphabet, syllables, n - 1);
        let base = alphabet[syllables[n - 1].base as int];
        let digit = (syllables[n - 1].tone + 0x30) as u8;
        assert(syllables[n - 1].base < alphabet.len() && syllables[n - 1].tone <= 9);
        assert(valid_utf8(seq![0x20u8])) by {
            reveal_with_fuel(valid_utf8, 2);
            assert(pop_first_scalar(seq![0x20u8]) =~= Seq::<u8>::empty());
        }
        assert(valid_utf8(seq![digit])) by {
            reveal_with_fuel(valid_utf8, 2);
            assert(pop_first_scalar(seq![digit]) =~= Seq::<u8>::empty());
        }
        let spaced = if n == 1 {
            before
        } else {
            before.push(0x20u8)
        };
        if n > 1 {
            valid_utf8_concat(before, seq![0x20u8]);
            assert(before + seq![0x20u8] =~= before.push(0x20u8));
        }
        valid_utf8_concat(spaced, base);
        valid_utf8_concat(spaced + base, seq![digit]);
        assert((spaced + base) + seq![digit] =~= (spaced + base).push(digit));
    }
}

/// The stretches of a term in a syllable fit the romanisation in which the
/// syllable stands.
pub proof fn lemma_term_spans_fit(
    display: Seq<u8>,
    term: TermModel,
    base: Seq<u8>,
    start: int,
    bridged: bool,
)
    requires
        valid_utf8(display),
        valid_utf8(base),
        valid_utf8(term.base),
        display.len() <= usize::MAX,
        0 <= start,
        start + base.len() + 1 <= display.len(),
        display.subrange(start, start + base.len()) == base,
        display[start + base.len()] < 0x80,
        is_char_boundary(display, start),
        bridged ==> start >= 1 && display[start - 1] < 0x80,
    ensures
        highlights_fit(display, spec_term_spans(term, base, start, bridged)),
{
    let end = start + base.len();
    lemma_boundary_at_ascii(display, end);
    lemma_boundary_behind_ascii(display, end);
    if bridged {
        lemma_boundary_at_ascii(display, start - 1);
    }
    lemma_first_match_from(term.base, base, 0);
    if term.base.len() > 0 && spec_indexof_ci(term.base, base) is Some {
        let at = spec_indexof_ci(term.base, base).unwrap();
        lemma_match_on_boundaries(term.base, base, at);
        lemma_boundary_in_part(display, start, base, at);
        lemma_boundary_in_part(display, start, base, at + term.base.len());
    }
    let spans = spec_term_spans(term, base, start, bridged);
    assert forall|i: int| 0 <= i < spans.len() implies span_fits(display, #[trigger] spans[i]) by {}
}

/// The stretches of the first `n` terms fit the romanisation of the entry.
pub proof fn lemma_jyutping_spans_fit(
    alphabet: Seq<Seq<u8>>,
    syllables: Seq<Jyutping>,
    terms: Seq<TermModel>,
    n: int,
)
    requires
        syllables_in(alphabet, syllables),
        forall|i: int|
            0 <= i < alphabet.len() ==> (#[trigger] alphabet[i]).len() <= 0xff_ffff && valid_utf8(
                alphabet[i],
            ),
        forall|i: int| 0 <= i < terms.len() ==> valid_utf8((#[trigger] terms[i]).base),
        syllables.len() < 256,
        0 <= n <= terms.len(),
    ensures
        highlights_fit(
            spec_jyutping_display(alphabet, syllables, syllables.len() as int),
            spec_jyutping_spans(alphabet, syllables, terms, n),
        ),
    decreases n,
{
    let count = syllables.len() as int;
    let display = spec_jyutping_display(alphabet, syllables, count);
    if n > 0 {
        lemma_jyutping_spans_fit(alphabet, syllables, terms, n - 1);
        lemma_spec_best(terms[n - 1], syllables, count);
        match spec_best(terms[n - 1], syllables, count) {
            Some((at, _)) => {
                let bridged = match spec_whole_at(alphabet, syllables, terms, n - 2) {
                    Some(left) => left + 1 == at,
                    None => false,
                };
                let base = alphabet[syllables[at].base as int];
                let start = spec_syllable_start(alphabet, syllables, at);
                assert(syllables[at].base < alphabet.len() && syllables[at].tone <= 9);
                assert(valid_utf8(terms[n - 1].base));
                lemma_display_is_text(alphabet, syllables, count);
                lemma_display_holds_syllable(alphabet, syllables, at);
                lemma_jyutping_display_len(alphabet, syllables, count);
                lemma_syllable_start_bounds(alphabet, syllables, count);
                if bridged {
                    lemma_spec_best(terms[n - 2], syllables, count);
                }
                if at > 0 {
                    lemma_syllable_start_bounds(alphabet, syllables, at - 1);
                    assert(syllables[at - 1].base < alphabet.len());
                    assert(start >= 2);
                    lemma_boundary_behind_ascii(display, start - 1);
                } else {
                    is_char_boundary_start_end_of_seq(display);
                }
                lemma_term_spans_fit(display, terms[n - 1], base, start, bridged);
                lemma_highlights_fit_concat(
                    display,
                    spec_jyutping_spans(alphabet, syllables, terms, n - 1),
                    spec_term_spans(terms[n - 1], base, start, bridged),
                );
            },
            None => {},
        }
    }
}

/// Each of the first `n` stretches of characters of an entry ends within
/// the characters.
pub proof fn lemma_traditional_spans_within(characters: Seq<u16>, terms: Seq<u16>, n: int)
    requires
        n <= characters.len() <= usize::MAX,
    ensures
        forall|i: int|
            0 <= i < spec_traditional_spans(characters, terms, n).len()
                ==> (#[trigger] spec_traditional_spans(characters, terms, n)[i]).1 <= n,
    decreases n,
{
    if n > 0 {
        lemma_traditional_spans_within(characters, terms, n - 1);
        let before = spec_traditional_spans(characters, terms, n - 1);
        let spans = spec_traditional_spans(characters, terms, n);
        assert forall|i: int| 0 <= i < spans.len() implies (#[trigger] spans[i]).1 <= n by {
            if i < before.len() {
                assert(spans[i] == before[i]);
            }
        }
    }
}

/// Each of the stretches that lie between `start` and `end` is one of the
/// given stretches that lie there, counted from `start`.
pub proof fn lemma_spans_within_from(
    spans: Seq<(usize, usize)>,
    start: int,
    end: int,
    n: int,
    k: int,
)
    requires
        0 <= n <= spans.len(),
        0 <= k < spec_spans_within(spans, start, end, n).len(),
    ensures
        exists|j: int|
            0 <= j < n && (#[trigger] spans[j]).0 >= start && spans[j].1 <= end
                && spec_spans_within(spans, start, end, n)[k] == (
                (spans[j].0 - start) as usize,
                (spans[j].1 - start) as usize,
            ),
    decreases n,
{
    if n > 0 {
        let before = spec_spans_within(spans, start, end, n - 1);
        if k < before.len() {
            lemma_spans_within_from(spans, start, end, n - 1, k);
            let j = choose|j: int|
                0 <= j < n - 1 && (#[trigger] spans[j]).0 >= start && spans[j].1 <= end
                    && before[k] == ((spans[j].0 - start) as usize, (spans[j].1 - start) as usize);
            assert(spans[j].0 >= start && spec_spans_within(spans, start, end, n)[k] == (
                (spans[j].0 - start) as usize,
                (spans[j].1 - start) as usize,
            ));
        } else {
            assert(spans[n - 1].0 >= start);
        }
    }
}

impl CompiledDictionary {
    /// The stretch lies in definition `i`, start before end, and starts and
    /// ends where a character of the definition does.
    pub open spec fn span_in_definition(&self, i: int, span: (usize, usize)) -> bool {
        &&& self.english_data_starts@[i] <= span.0 < span.1 <= self.english_data_starts@[i + 1]
        &&& is_char_boundary(self.spec_definition(i), span.0 - self.english_data_starts@[i])
        &&& is_char_boundary(self.spec_definition(i), span.1 - self.english_data_starts@[i])
    }

    /// The stretch lies in one of the definitions from `from` up to `to`.
    pub open spec fn span_in_definitions(&self, from: int, to: int, span: (usize, usize)) -> bool {
        exists|i: int| from <= i < to && #[trigger] self.span_in_definition(i, span)
    }

    /// Each stretch of a word in a definition lies in the definition and
    /// starts and ends where a character does.
    pub proof fn lemma_definition_spans_in(&self, words: Seq<Seq<u8>>, i: int, n: int)
        requires
            self.starts_wf(),
            0 <= i,
            i + 1 < self.english_data_starts@.len(),
            valid_utf8(self.spec_definition(i)),
            forall|k: int|
                0 <= k < words.len() ==> (#[trigger] words[k]).len() > 0 && valid_utf8(words[k]),
            n <= words.len(),
        ensures
            forall|k: int|
                0 <= k < spec_definition_spans(
                    words,
                    self.spec_definition(i),
                    self.english_data_starts@[i] as int,
                    n,
                ).len() ==> self.span_in_definition(
                    i,
                    #[trigger] spec_definition_spans(
                        words,
                        self.spec_definition(i),
                        self.english_data_starts@[i] as int,
                        n,
                    )[k],
                ),
        decreases n,
    {
        if n > 0 {
            self.lemma_definition_spans_in(words, i, n - 1);
            let starts = self.english_data_starts@;
            let definition = self.spec_definition(i);
            let start = starts[i] as int;
            assert(starts[i] <= starts[i + 1]);
            assert(starts[i + 1] <= self.english_data@.len());
            assert(definition.len() == starts[i + 1] - starts[i]);
            let before = spec_definition_spans(words, definition, start, n - 1);
            let spans = spec_definition_spans(words, definition, start, n);
            let word = words[n - 1];
            assert(word.len() > 0 && valid_utf8(word));
            lemma_first_match_from(word, definition, 0);
            if spec_indexof_ci(word, definition) is Some {
                lemma_match_on_boundaries(word, definition, spec_indexof_ci(word, definition).unwrap());
            }
            assert forall|k: int| 0 <= k < spans.len() implies self.span_in_definition(
                i,
                #[trigger] spans[k],
            ) by {
                if k < before.len() {
                    assert(spans[k] == before[k]);
                }
            }
        }
    }

    /// Each stretch of a word in the definitions lies in one of them and
    /// starts and ends where a character does.
    pub proof fn lemma_english_spans_in(&self, words: Seq<Seq<u8>>, from: int, to: int)
        requires
            self.wf(),
            0 <= from,
            to < self.english_data_starts@.len(),
            forall|k: int|
                0 <= k < words.len() ==> (#[trigger] words[k]).len() > 0 && valid_utf8(words[k]),
        ensures
            forall|k: int|
                0 <= k < self.spec_english_spans(words, from, to).len()
                    ==> self.span_in_definitions(
                    from,
                    to,
                    #[trigger] self.spec_english_spans(words, from, to)[k],
                ),
        decreases to - from,
    {
        if to > from {
            self.lemma_english_spans_in(words, from, to - 1);
            self.lemma_wf_parts();
            assert(valid_utf8(self.spec_definition(to - 1))) by {
                assert(valid_utf8(self@.definition(to - 1)));
            }
            self.lemma_definition_spans_in(words, to - 1, words.len() as int);
            let before = self.spec_english_spans(words, from, to - 1);
            let here = spec_definition_spans(
                words,
                self.spec_definition(to - 1),
                self.english_data_starts@[to - 1] as int,
                words.len() as int,
            );
            let spans = self.spec_english_spans(words, from, to);
            assert forall|k: int| 0 <= k < spans.len() implies self.span_in_definitions(
                from,
                to,
                #[trigger] spans[k],
            ) by {
                if k < before.len() {
                    assert(spans[k] == before[k]);
                    assert(self.span_in_definitions(from, to - 1, before[k]));
                    let i = choose|i: int|
                        from <= i < to - 1 && #[trigger] self.span_in_definition(i, before[k]);
                    assert(self.span_in_definition(i, spans[k]));
                } else {
                    assert(spans[k] == here[k - before.len()]);
                    assert(self.span_in_definition(to - 1, spans[k]));
                }
            }
        }
    }
}

impl CompiledDictionary {
    /// A merged stretch that lies in definition `d` starts and ends where a
    /// character of the definition does, where each of the stretches that
    /// were merged lies in one of the definitions.
    proof fn lemma_merged_in_definition(
        &self,
        raw: Seq<(usize, usize)>,
        from: int,
        to: int,
        d: int,
        j: int,
    )
        requires
            self.starts_wf(),
            0 <= from <= d < to,
            to < self.english_data_starts@.len(),
            forall|k: int| 0 <= k < raw.len() ==> self.span_in_definitions(from, to, #[trigger] raw[k]),
            0 <= j < spec_merge_spans(raw).len(),
            spec_merge_spans(raw)[j].0 >= self.english_data_starts@[d],
            spec_merge_spans(raw)[j].1 <= self.english_data_starts@[d + 1],
        ensures
            span_fits(
                self.spec_definition(d),
                (
                    (spec_merge_spans(raw)[j].0 - self.english_data_starts@[d]) as usize,
                    (spec_merge_spans(raw)[j].1 - self.english_data_starts@[d]) as usize,
                ),
            ),
    {
        let starts = self.english_data_starts@;
        let m = spec_merge_spans(raw)[j];
        lemma_merge_made_of(raw, j);
        let a = choose|a: int| 0 <= a < raw.len() && (#[trigger] raw[a]).0 == m.0 && raw[a].1 <= m.1;
        let b = choose|b: int| 0 <= b < raw.len() && (#[trigger] raw[b]).1 == m.1 && m.0 <= raw[b].0;
        assert(self.span_in_definitions(from, to, raw[a]));
        assert(self.span_in_definitions(from, to, raw[b]));
        let ia = choose|i: int| from <= i < to && #[trigger] self.span_in_definition(i, raw[a]);
        let ib = choose|i: int| from <= i < to && #[trigger] self.span_in_definition(i, raw[b]);
        assert(starts[d] <= starts[d + 1]);
        assert(starts[d + 1] <= self.english_data@.len());
        assert(self.spec_definition(d).len() == starts[d + 1] - starts[d]);
        if ia < d {
            assert(starts[ia + 1] <= starts[d]);
        } else if ia > d {
            assert(starts[d + 1] <= starts[ia]);
        }
        if ib < d {
            assert(starts[ib + 1] <= starts[d]);
        } else if ib > d {
            assert(starts[d + 1] <= starts[ib]);
        }
        assert(ia == d && ib == d);
    }

    /// The stretches of a match of an entry of the dictionary can be
    /// highlighted in what is displayed of the entry.
    pub proof fn lemma_match_can_render(&self, hit: &MatchWithHitInfo, query: Seq<char>)
        requires
            self.wf(),
            hit.match_obj.entry_id < self.entries@.len(),
            hit.matched_spans@ == self.spec_match_spans(hit.match_obj, query),
        ensures
            RenderedResult::match_fits(hit, self),
    {
        let m = hit.match_obj;
        let entry = &self.entries@[m.entry_id as int];
        let raw = self.spec_raw_spans(m, query);
        let merged = spec_merge_spans(raw);
        self.lemma_wf_parts();
        assert(self.entry_wf(entry));
        self.lemma_match_spans_are_merged(m, query);
        let words = spec_tokens(encode_utf8(query));
        assert forall|k: int| 0 <= k < words.len() implies (#[trigger] words[k]).len() > 0
            && valid_utf8(words[k]) && valid_utf8(spec_base(words[k])) by {
            lemma_tokens_are_texts(query, k);
        }
        match m.match_type {
            MatchType::Jyutping => {
                let alphabet = self.jyutping_store@;
                let terms = self.spec_query_terms(query);
                let display = spec_jyutping_display(
                    alphabet,
                    entry.jyutping@,
                    entry.jyutping@.len() as int,
                );
                assert forall|i: int| 0 <= i < terms.len() implies valid_utf8(
                    (#[trigger] terms[i]).base,
                ) by {
                    assert(terms[i].base == spec_base(words[i]));
                }
                assert(syllables_in(alphabet, entry.jyutping@));
                lemma_jyutping_spans_fit(alphabet, entry.jyutping@, terms, terms.len() as int);
                assert forall|k: int| 0 <= k < merged.len() implies span_fits(
                    display,
                    #[trigger] merged[k],
                ) by {
                    lemma_merge_made_of(raw, k);
                    let a = choose|a: int|
                        0 <= a < raw.len() && (#[trigger] raw[a]).0 == merged[k].0 && raw[a].1
                            <= merged[k].1;
                    let b = choose|b: int|
                        0 <= b < raw.len() && (#[trigger] raw[b]).1 == merged[k].1 && merged[k].0
                            <= raw[b].0;
                    assert(span_fits(display, raw[a]));
                    assert(span_fits(display, raw[b]));
                }
                assert(highlights_fit(display, merged));
            },
            MatchType::Traditional => {
                let terms = spec_traditional_terms(self.character_store.characters@, query);
                let count = entry.characters@.len() as int;
                lemma_traditional_spans_within(entry.characters@, terms, count);
                assert forall|k: int| 0 <= k < merged.len() implies (#[trigger] merged[k]).0
                    <= merged[k].1 <= count by {
                    lemma_merge_made_of(raw, k);
                    let b = choose|b: int|
                        0 <= b < raw.len() && (#[trigger] raw[b]).1 == merged[k].1 && merged[k].0
                            <= raw[b].0;
                    assert(raw[b].1 <= count);
                }
            },
            MatchType::English => {
                let from = entry.english_start as int;
                let to = entry.english_end as int;
                self.lemma_english_spans_in(words, from, to);
                assert forall|d: int| from <= d < to implies #[trigger] RenderedResult::english_fit_at(
                    self,
                    d,
                    merged,
                ) by {
                    let starts = self.english_data_starts@;
                    let within = spec_spans_within(
                        merged,
                        starts[d] as int,
                        starts[d + 1] as int,
                        merged.len() as int,
                    );
                    assert forall|k: int| 0 <= k < within.len() implies span_fits(
                        self.spec_definition(d),
                        #[trigger] within[k],
                    ) by {
                        lemma_spans_within_from(
                            merged,
                            starts[d] as int,
                            starts[d + 1] as int,
                            merged.len() as int,
                            k,
                        );
                        let j = choose|j: int|
                            0 <= j < merged.len() && (#[trigger] merged[j]).0 >= starts[d] as int
                                && merged[j].1 <= starts[d + 1] as int && within[k] == (
                                (merged[j].0 - starts[d] as int) as usize,
                                (merged[j].1 - starts[d] as int) as usize,
                            );
                        self.lemma_merged_in_definition(raw, from, to, d, j);
                    }
                    assert(highlights_fit(self.spec_definition(d), within));
                }
            },
        }
    }

    /// What a search returns can be rendered: the stretches of each of its
    /// matches can be highlighted in what is displayed of the entry.
    pub proof fn lemma_search_results_can_render(
        &self,
        query: Seq<char>,
        max_results: int,
        result: &SearchResult,
        i: int,
    )
        requires
            self.wf(),
            0 <= max_results,
            result.hits() == self.spec_search(query, max_results),
            0 <= i < result.matches@.len(),
        ensures
            RenderedResult::match_fits(&result.matches@[i], self),
    {
        let found = self.spec_search_matches(query, max_results);
        assert(result.hits().len() == result.matches@.len());
        assert(result.hits()[i] == result.matches@[i]@);
        assert(self.spec_search(query, max_results)[i] == (
            found[i],
            self.spec_match_spans(found[i], query),
        ));
        let count = self.entries@.len() as int;
        let all = self.spec_candidates(query, count);
        let in_range = |m: Match| m.entry_id < count;
        self.lemma_candidates_in_range(query, count);
        assert forall|k: int| 0 <= k < all.len() implies in_range(#[trigger] all[k]) by {}
        lemma_rank_keeps(all, in_range);
        assert(found == spec_truncate(spec_rank(all), max_results));
        assert(found[i] == spec_rank(all)[i]);
        assert(in_range(spec_rank(all)[i]));
        self.lemma_match_can_render(&result.matches@[i], query);
    }
}

} // verus!
