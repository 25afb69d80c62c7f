//! An entry made ready for display in HTML: special characters escaped, and
//! what matched wrapped in highlighting marks.

use crate::compiled_dictionary::{
    text_bytes, CompiledDictionary, CompiledDictionaryEntry, DisplayDictionaryEntry,
};
use crate::search::{MatchType, MatchWithHitInfo};
use crate::reconstruct_match::spec_jyutping_display;
use crate::text::{lemma_encode_utf8_concat, push_char, str_range};
use crate::EntrySource;
use vstd::prelude::*;
use vstd::string::*;
use vstd::utf8::*;

verus! {

/// A dictionary entry with its fields escaped and highlighted for display.
#[derive(Debug)]
pub struct RenderedResult {
    pub characters: String,
    pub jyutping: String,
    pub english_definitions: Vec<String>,
    pub cost: u32,
    pub entry_source: EntrySource,
}

/// What stands for a character in HTML: an entity for `<`, `>`, `&`, `"` and
/// `'`, and the character itself for every other.
pub open spec fn spec_escape_char(c: char) -> Seq<char> {
    if c == '<' {
        "&lt;"@
    } else if c == '>' {
        "&gt;"@
    } else if c == '&' {
        "&amp;"@
    } else if c == '"' {
        "&quot;"@
    } else if c == '\'' {
        "&#x27;"@
    } else {
        seq![c]
    }
}

/// The text with every character escaped.
pub open spec fn spec_escape_html(text: Seq<char>) -> Seq<char>
    decreases text.len(),
{
    if text.len() == 0 {
        Seq::empty()
    } else {
        spec_escape_html(text.drop_last()) + spec_escape_char(text.last())
    }
}

/// The mark that opens a highlighted stretch.
pub open spec fn spec_mark_open() -> Seq<char> {
    "<mark class=\"hit-highlight\">"@
}

/// The mark that closes a highlighted stretch.
pub open spec fn spec_mark_close() -> Seq<char> {
    "</mark>"@
}

/// The bytes from `from` to `to` as an escaped text.
pub open spec fn spec_piece(text: Seq<u8>, from: int, to: int) -> Seq<char> {
    spec_escape_html(decode_utf8(text.subrange(from, to)))
}

/// Where the stretch before stretch `n` ends; 0 for the first.
pub open spec fn spec_last_end(spans: Seq<(usize, usize)>, n: int) -> int {
    if n <= 0 {
        0
    } else {
        spans[n - 1].1 as int
    }
}

/// What the first `n` stretches give: for each, the text between the end of
/// the stretch before it and its start, where there is any, and the stretch
/// between the marks; all of it escaped.
pub open spec fn spec_highlighted(text: Seq<u8>, spans: Seq<(usize, usize)>, n: int) -> Seq<char>
    decreases n,
{
    if n <= 0 {
        Seq::empty()
    } else {
        let span = spans[n - 1];
        let last = spec_last_end(spans, n - 1);
        spec_highlighted(text, spans, n - 1) + (if span.0 > last {
            spec_piece(text, last, span.0 as int)
        } else {
            Seq::empty()
        }) + spec_mark_open() + spec_piece(text, span.0 as int, span.1 as int) + spec_mark_close()
    }
}

/// The text escaped, with each stretch between marks.
pub open spec fn spec_apply_highlights(text: Seq<u8>, spans: Seq<(usize, usize)>) -> Seq<char> {
    if spans.len() == 0 {
        spec_escape_html(decode_utf8(text))
    } else {
        spec_highlighted(text, spans, spans.len() as int) + (if spec_last_end(
            spans,
            spans.len() as int,
        ) < text.len() {
            spec_piece(text, spec_last_end(spans, spans.len() as int), text.len() as int)
        } else {
            Seq::empty()
        })
    }
}

/// Every stretch lies in the text, start before end, and starts and ends
/// where a character does.
pub open spec fn highlights_fit(text: Seq<u8>, spans: Seq<(usize, usize)>) -> bool {
    forall|i: int|
        0 <= i < spans.len() ==> {
            let span = #[trigger] spans[i];
            &&& span.0 <= span.1 <= text.len()
            &&& is_char_boundary(text, span.0 as int)
            &&& is_char_boundary(text, span.1 as int)
        }
}

impl RenderedResult {
    /// Escapes the characters that have a meaning in HTML.
    pub fn escape_html(text: &str) -> (escaped: String)
        ensures
            escaped@ == spec_escape_html(text@),
    {
        let mut escaped: String = String::new();
        assert(text@.take(0) =~= Seq::<char>::empty());
        for c in it: text.chars()
            invariant
                it.seq() == text@,
                escaped@ == spec_escape_html(text@.take(it.index() as int)),
        {
            proof {
                assert(text@.take(it.index() + 1).drop_last() =~= text@.take(it.index() as int));
            }
            if c == '<' {
                escaped.append("&lt;");
            } else if c == '>' {
                escaped.append("&gt;");
            } else if c == '&' {
                escaped.append("&amp;");
            } else if c == '"' {
                escaped.append("&quot;");
            } else if c == '\'' {
                escaped.append("&#x27;");
            } else {
                push_char(&mut escaped, c);
                assert(escaped@ =~= spec_escape_html(text@.take(it.index() as int)) + seq![c]);
            }
        }
        assert(text@.take(text@.len() as int) =~= text@);
        escaped
    }

    /// Whether the stretches can be highlighted in the text.
    pub fn highlights_can_apply(text: &str, matched_spans: &[(usize, usize)]) -> (fit: bool)
        ensures
            fit == highlights_fit(text.spec_bytes(), matched_spans@),
    {
        let len: usize = text.as_bytes().len();
        let mut i: usize = 0;
        while i < matched_spans.len()
            invariant
                len == text.spec_bytes().len(),
                i <= matched_spans@.len(),
                forall|k: int|
                    0 <= k < i ==> {
                        let span = #[trigger] matched_spans@[k];
                        &&& span.0 <= span.1 <= text.spec_bytes().len()
                        &&& is_char_boundary(text.spec_bytes(), span.0 as int)
                        &&& is_char_boundary(text.spec_bytes(), span.1 as int)
                    },
            decreases matched_spans@.len() - i,
        {
            let span: (usize, usize) = matched_spans[i];
            if !(span.0 <= span.1 && span.1 <= len && text.is_char_boundary(span.0)
                && text.is_char_boundary(span.1)) {
                return false;
            }
            i += 1;
        }
        true
    }

    /// The part of the text from `from` to `to`, escaped.
    fn escaped_piece(text: &str, from: usize, to: usize) -> (piece: String)
        requires
            from <= to <= text.spec_bytes().len(),
            is_char_boundary(text.spec_bytes(), from as int),
            is_char_boundary(text.spec_bytes(), to as int),
        ensures
            piece@ == spec_piece(text.spec_bytes(), from as int, to as int),
    {
        let part: &str = str_range(text, from, to);
        proof {
            encode_utf8_decode_utf8(part@);
        }
        Self::escape_html(part)
    }

    /// Escapes the text and wraps each stretch in highlighting marks. The
    /// text between two stretches is taken from the end of the first to the
    /// start of the second.
    pub fn apply_highlights(text: &str, matched_spans: &[(usize, usize)]) -> (marked: String)
        requires
            highlights_fit(text.spec_bytes(), matched_spans@),
        ensures
            marked@ == spec_apply_highlights(text.spec_bytes(), matched_spans@),
    {
        let ghost bytes = text.spec_bytes();
        let ghost spans = matched_spans@;
        if matched_spans.len() == 0 {
            proof {
                encode_utf8_decode_utf8(text@);
            }
            return Self::escape_html(text);
        }
        proof {
            encode_utf8_valid_utf8(text@);
            is_char_boundary_start_end_of_seq(bytes);
        }
        let len: usize = text.as_bytes().len();
        let mut result: String = String::new();
        let mut last_pos: usize = 0;
        let mut i: usize = 0;
        while i < matched_spans.len()
            invariant
                bytes == text.spec_bytes(),
                spans == matched_spans@,
                len == bytes.len(),
                highlights_fit(bytes, spans),
                i <= spans.len(),
                last_pos as int == spec_last_end(spans, i as int),
                last_pos <= len,
                is_char_boundary(bytes, last_pos as int),
                result@ == spec_highlighted(bytes, spans, i as int),
            decreases spans.len() - i,
        {
            let span: (usize, usize) = matched_spans[i];
            let ghost before = result@;
            let ghost gap = if span.0 > last_pos {
                spec_piece(bytes, last_pos as int, span.0 as int)
            } else {
                Seq::<char>::empty()
            };
            if span.0 > last_pos {
                let piece: String = Self::escaped_piece(text, last_pos, span.0);
                result.append(piece.as_str());
            }
            assert(result@ =~= before + gap);
            result.append("<mark class=\"hit-highlight\">");
            let piece: String = Self::escaped_piece(text, span.0, span.1);
            result.append(piece.as_str());
            result.append("</mark>");
            last_pos = span.1;
            i += 1;
        }
        if last_pos < len {
            let piece: String = Self::escaped_piece(text, last_pos, len);
            result.append(piece.as_str());
        } else {
            assert(result@ =~= result@ + Seq::<char>::empty());
        }
        result
    }
}

/// Of the first `n` stretches, those that lie between `start` and `end`,
/// each counted from `start`.
pub open spec fn spec_spans_within(spans: Seq<(usize, usize)>, start: int, end: int, n: int) -> Seq<
    (usize, usize),
>
    decreases n,
{
    if n <= 0 {
        Seq::empty()
    } else {
        let before = spec_spans_within(spans, start, end, n - 1);
        let span = spans[n - 1];
        if span.0 >= start && span.1 <= end {
            before.push(((span.0 - start) as usize, (span.1 - start) as usize))
        } else {
            before
        }
    }
}

/// How many bytes the first `k` characters of a text take.
pub open spec fn spec_char_offset(chars: Seq<char>, k: int) -> int {
    encode_utf8(chars.take(k)).len() as int
}

/// The stretches, given in characters, in bytes of the text.
pub open spec fn spec_char_spans(chars: Seq<char>, spans: Seq<(usize, usize)>) -> Seq<
    (usize, usize),
> {
    Seq::new(
        spans.len(),
        |i: int|
            (
                spec_char_offset(chars, spans[i].0 as int) as usize,
                spec_char_offset(chars, spans[i].1 as int) as usize,
            ),
    )
}

/// Every stretch has its start before or at its end.
pub open spec fn spans_ordered(spans: Seq<(usize, usize)>) -> bool {
    forall|i: int| 0 <= i < spans.len() ==> (#[trigger] spans[i]).0 <= spans[i].1
}

/// Every stretch lies within `count` characters.
pub open spec fn spans_within_chars(spans: Seq<(usize, usize)>, count: int) -> bool {
    forall|i: int| 0 <= i < spans.len() ==> (#[trigger] spans[i]).0 <= spans[i].1 <= count
}

/// The bytes of the first characters of a text end where a character ends,
/// and more characters take more bytes.
pub proof fn lemma_char_offset_is_boundary(chars: Seq<char>, k: int)
    requires
        0 <= k <= chars.len(),
    ensures
        0 <= spec_char_offset(chars, k) <= encode_utf8(chars).len(),
        is_char_boundary(encode_utf8(chars), spec_char_offset(chars, k)),
        encode_utf8(chars).subrange(0, spec_char_offset(chars, k)) == encode_utf8(chars.take(k)),
        encode_utf8(chars).subrange(
            spec_char_offset(chars, k),
            encode_utf8(chars).len() as int,
        ) == encode_utf8(chars.skip(k)),
{
    let bytes = encode_utf8(chars);
    let head = chars.take(k);
    let tail = chars.skip(k);
    assert(head + tail =~= chars);
    lemma_encode_utf8_concat(head, tail);
    let at = encode_utf8(head).len() as int;
    assert(bytes.subrange(0, at) =~= encode_utf8(head));
    assert(bytes.subrange(at, bytes.len() as int) =~= encode_utf8(tail));
    encode_utf8_valid_utf8(chars);
    if k == chars.len() {
        assert(tail =~= Seq::<char>::empty());
        is_char_boundary_start_end_of_seq(bytes);
    } else {
        encode_utf8_first_scalar(tail);
        assert(bytes[at] == encode_utf8(tail)[0]);
        is_char_boundary_iff_not_is_continuation_byte(bytes, at);
    }
}

/// More characters take at least as many bytes.
pub proof fn lemma_char_offset_grows(chars: Seq<char>, k: int, more: int)
    requires
        0 <= k <= more <= chars.len(),
    ensures
        spec_char_offset(chars, k) <= spec_char_offset(chars, more),
{
    let head = chars.take(more);
    assert(head.take(k) =~= chars.take(k));
    lemma_char_offset_is_boundary(head, k);
}

/// How many bytes the character takes in UTF-8.
pub fn char_width(c: char) -> (width: usize)
    ensures
        width == encode_scalar(c as u32).len(),
        1 <= width <= 4,
{
    let scalar: u32 = c as u32;
    if scalar <= 0x7F {
        1
    } else if scalar <= 0x7FF {
        2
    } else if scalar <= 0xFFFF {
        3
    } else {
        4
    }
}

/// Where each character of the text starts, and behind them where the text
/// ends.
pub fn char_offsets(text: &str) -> (offsets: Vec<usize>)
    ensures
        offsets@.len() == text@.len() + 1,
        forall|k: int|
            0 <= k <= text@.len() ==> (#[trigger] offsets@[k]) as int == spec_char_offset(text@, k),
{
    let mut offsets: Vec<usize> = Vec::new();
    let mut at: usize = 0;
    let total: usize = text.as_bytes().len();
    proof {
        assert(text@.take(0) =~= Seq::<char>::empty());
    }
    for c in it: text.chars()
        invariant
            it.seq() == text@,
            total == encode_utf8(text@).len(),
            offsets@.len() == it.index(),
            at as int == spec_char_offset(text@, it.index() as int),
            forall|k: int|
                0 <= k < it.index() ==> (#[trigger] offsets@[k]) as int == spec_char_offset(
                    text@,
                    k,
                ),
    {
        let ghost k = it.index() as int;
        proof {
            let head = text@.take(k);
            let next = text@.take(k + 1);
            assert(next =~= head + seq![c]);
            lemma_encode_utf8_concat(head, seq![c]);
            assert(seq![c].drop_first() =~= Seq::<char>::empty());
            assert(encode_utf8(seq![c]) =~= encode_scalar(c as u32)) by {
                reveal_with_fuel(encode_utf8, 2);
            }
            lemma_char_offset_is_boundary(text@, k + 1);
        }
        offsets.push(at);
        at = at + char_width(c);
    }
    offsets.push(at);
    offsets
}

impl RenderedResult {
    /// The definitions of the entry, escaped, each with the stretches marked
    /// that lie in it; a stretch is given by its place in the blob.
    pub fn build_english_definitions_with_highlights(
        entry: &CompiledDictionaryEntry,
        dict: &CompiledDictionary,
        matched_spans: &[(usize, usize)],
    ) -> (definitions: Vec<String>)
        requires
            dict.wf(),
            dict.entry_wf(entry),
            spans_ordered(matched_spans@),
            Self::english_spans_fit(entry, dict, matched_spans@),
        ensures
            definitions@.len() == entry.english_end - entry.english_start,
            forall|k: int|
                0 <= k < definitions@.len() ==> (#[trigger] definitions@[k])@
                    == Self::spec_marked_definition(
                    dict,
                    entry.english_start + k,
                    matched_spans@,
                ),
    {
        let mut definitions: Vec<String> = Vec::new();
        let mut i: u32 = entry.english_start;
        while i < entry.english_end
            invariant
                dict.wf(),
                dict.entry_wf(entry),
                spans_ordered(matched_spans@),
                Self::english_spans_fit(entry, dict, matched_spans@),
                entry.english_start <= i <= entry.english_end,
                definitions@.len() == i - entry.english_start,
                forall|k: int|
                    0 <= k < definitions@.len() ==> (#[trigger] definitions@[k])@
                        == Self::spec_marked_definition(
                        dict,
                        entry.english_start + k,
                        matched_spans@,
                    ),
            decreases entry.english_end - i,
        {
            let start: usize = dict.english_data_starts[i as usize] as usize;
            let end: usize = dict.english_data_starts[i as usize + 1] as usize;
            let blob: &[u8] = &dict.english_data.as_slice()[start..end];
            assert(blob@ == dict.spec_definition(i as int));
            assert(valid_utf8(dict@.definition(i as int)));
            let mut within: Vec<(usize, usize)> = Vec::new();
            let mut k: usize = 0;
            while k < matched_spans.len()
                invariant
                    spans_ordered(matched_spans@),
                    k <= matched_spans@.len(),
                    within@ == spec_spans_within(
                        matched_spans@,
                        start as int,
                        end as int,
                        k as int,
                    ),
                decreases matched_spans@.len() - k,
            {
                let span: (usize, usize) = matched_spans[k];
                if span.0 >= start && span.1 <= end {
                    within.push((span.0 - start, span.1 - start));
                }
                k += 1;
            }
            assert(Self::english_fit_at(dict, i as int, matched_spans@));
            let marked: String = match crate::text::str_from_utf8(blob) {
                Some(plain) => Self::apply_highlights(plain, within.as_slice()),
                None => String::new(),
            };
            definitions.push(marked);
            i += 1;
        }
        definitions
    }

    /// Definition `i` of the blob, escaped, with the stretches marked that
    /// lie in it.
    pub open spec fn spec_marked_definition(
        dict: &CompiledDictionary,
        i: int,
        spans: Seq<(usize, usize)>,
    ) -> Seq<char> {
        spec_apply_highlights(
            dict.spec_definition(i),
            spec_spans_within(
                spans,
                dict.english_data_starts@[i] as int,
                dict.english_data_starts@[i + 1] as int,
                spans.len() as int,
            ),
        )
    }

    /// The stretches that lie in definition `i` start and end where a
    /// character of the definition does.
    pub open spec fn english_fit_at(
        dict: &CompiledDictionary,
        i: int,
        spans: Seq<(usize, usize)>,
    ) -> bool {
        highlights_fit(
            dict.spec_definition(i),
            spec_spans_within(
                spans,
                dict.english_data_starts@[i] as int,
                dict.english_data_starts@[i + 1] as int,
                spans.len() as int,
            ),
        )
    }

    /// The stretches can be highlighted in the definitions of the entry.
    pub open spec fn english_spans_fit(
        entry: &CompiledDictionaryEntry,
        dict: &CompiledDictionary,
        spans: Seq<(usize, usize)>,
    ) -> bool {
        forall|i: int|
            entry.english_start <= i < entry.english_end ==> #[trigger] Self::english_fit_at(
                dict,
                i,
                spans,
            )
    }

    /// The stretches of the match can be highlighted in the entry that it
    /// names: for a match as characters they lie within the characters of
    /// the entry, and for the other two they start and end where a character
    /// of the displayed text does.
    pub open spec fn match_fits(match_result: &MatchWithHitInfo, dict: &CompiledDictionary) -> bool {
        let entry = &dict.entries@[match_result.match_obj.entry_id as int];
        let spans = match_result.matched_spans@;
        &&& match_result.match_obj.entry_id < dict.entries@.len()
        &&& spans_ordered(spans)
        &&& match match_result.match_obj.match_type {
            MatchType::Traditional => spans_within_chars(spans, entry.characters@.len() as int),
            MatchType::Jyutping => highlights_fit(
                spec_jyutping_display(
                    dict.jyutping_store@,
                    entry.jyutping@,
                    entry.jyutping@.len() as int,
                ),
                spans,
            ),
            MatchType::English => Self::english_spans_fit(entry, dict, spans),
        }
    }

    /// What is shown for the match: the characters and the romanisation of
    /// the entry as they are, or escaped and marked where the match is of
    /// their kind, and the definitions escaped, and marked where the match
    /// is English.
    pub open spec fn renders(&self, match_result: &MatchWithHitInfo, dict: &CompiledDictionary) -> bool {
        let entry = &dict.entries@[match_result.match_obj.entry_id as int];
        let spans = match_result.matched_spans@;
        let characters = crate::compiled_dictionary::spec_display_characters(
            dict.character_store.characters@,
            entry.characters@,
        );
        let jyutping = spec_jyutping_display(
            dict.jyutping_store@,
            entry.jyutping@,
            entry.jyutping@.len() as int,
        );
        let in_english = if match_result.match_obj.match_type == MatchType::English {
            spans
        } else {
            Seq::empty()
        };
        &&& self.characters@ == if match_result.match_obj.match_type == MatchType::Traditional {
            spec_apply_highlights(encode_utf8(characters), spec_char_spans(characters, spans))
        } else {
            characters
        }
        &&& if match_result.match_obj.match_type == MatchType::Jyutping {
            self.jyutping@ == spec_apply_highlights(jyutping, spans)
        } else {
            text_bytes(self.jyutping@) == jyutping
        }
        &&& self.english_definitions@.len() == entry.english_end - entry.english_start
        &&& forall|k: int|
            0 <= k < self.english_definitions@.len() ==> (#[trigger] self.english_definitions@[k])@
                == Self::spec_marked_definition(dict, entry.english_start + k, in_english)
        &&& self.cost == entry.cost
        &&& self.entry_source == entry.spec_source()
    }

    /// Whether the stretches of the match can be highlighted in the entry
    /// that it names.
    pub fn match_can_render(match_result: &MatchWithHitInfo, dict: &CompiledDictionary) -> (fit:
        bool)
        requires
            dict.wf(),
        ensures
            fit == Self::match_fits(match_result, dict),
    {
        if match_result.match_obj.entry_id >= dict.entries.len() {
            return false;
        }
        proof {
            dict.lemma_wf_parts();
        }
        let entry: &CompiledDictionaryEntry = &dict.entries[match_result.match_obj.entry_id];
        let spans: &[(usize, usize)] = match_result.matched_spans.as_slice();
        let mut i: usize = 0;
        while i < spans.len()
            invariant
                spans@ == match_result.matched_spans@,
                match_result.match_obj.entry_id < dict.entries@.len(),
                i <= spans@.len(),
                forall|k: int| 0 <= k < i ==> (#[trigger] spans@[k]).0 <= spans@[k].1,
            decreases spans@.len() - i,
        {
            if spans[i].0 > spans[i].1 {
                return false;
            }
            i += 1;
        }
        match match_result.match_obj.match_type {
            MatchType::Traditional => {
                let count: usize = entry.characters.len();
                let mut k: usize = 0;
                while k < spans.len()
                    invariant
                        spans@ == match_result.matched_spans@,
                        match_result.match_obj.entry_id < dict.entries@.len(),
                        match_result.match_obj.match_type == MatchType::Traditional,
                        *entry == dict.entries@[match_result.match_obj.entry_id as int],
                        count == entry.characters@.len(),
                        spans_ordered(spans@),
                        k <= spans@.len(),
                        forall|j: int| 0 <= j < k ==> (#[trigger] spans@[j]).1 <= count,
                    decreases spans@.len() - k,
                {
                    if spans[k].1 > count {
                        return false;
                    }
                    k += 1;
                }
                true
            },
            MatchType::Jyutping => {
                let shown: DisplayDictionaryEntry = DisplayDictionaryEntry::from_entry(entry, dict);
                Self::highlights_can_apply(shown.jyutping.as_str(), spans)
            },
            MatchType::English => {
                let mut d: u32 = entry.english_start;
                while d < entry.english_end
                    invariant
                        spans@ == match_result.matched_spans@,
                        match_result.match_obj.entry_id < dict.entries@.len(),
                        match_result.match_obj.match_type == MatchType::English,
                        *entry == dict.entries@[match_result.match_obj.entry_id as int],
                        dict.wf(),
                        dict.entry_wf(entry),
                        spans_ordered(spans@),
                        entry.english_start <= d <= entry.english_end,
                        forall|j: int|
                            entry.english_start <= j < d ==> #[trigger] Self::english_fit_at(
                                dict,
                                j,
                                spans@,
                            ),
                    decreases entry.english_end - d,
                {
                    let start: usize = dict.english_data_starts[d as usize] as usize;
                    let end: usize = dict.english_data_starts[d as usize + 1] as usize;
                    let blob: &[u8] = &dict.english_data.as_slice()[start..end];
                    assert(blob@ == dict.spec_definition(d as int));
                    assert(valid_utf8(dict@.definition(d as int)));
                    let mut within: Vec<(usize, usize)> = Vec::new();
                    let mut k: usize = 0;
                    while k < spans.len()
                        invariant
                            spans_ordered(spans@),
                            k <= spans@.len(),
                            within@ == spec_spans_within(spans@, start as int, end as int, k as int),
                        decreases spans@.len() - k,
                    {
                        let span: (usize, usize) = spans[k];
                        if span.0 >= start && span.1 <= end {
                            within.push((span.0 - start, span.1 - start));
                        }
                        k += 1;
                    }
                    let fits: bool = match crate::text::str_from_utf8(blob) {
                        Some(plain) => Self::highlights_can_apply(plain, within.as_slice()),
                        None => false,
                    };
                    if !fits {
                        assert(!Self::english_fit_at(dict, d as int, spans@));
                        return false;
                    }
                    d += 1;
                }
                true
            },
        }
    }

    /// Writes out the entry that the match names, escaped for HTML, with the
    /// stretches of the match marked in the field of its kind.
    pub fn from_match(match_result: &MatchWithHitInfo, dict: &CompiledDictionary) -> (rendered:
        Self)
        requires
            dict.wf(),
            Self::match_fits(match_result, dict),
        ensures
            rendered.renders(match_result, dict),
    {
        proof {
            dict.lemma_wf_parts();
        }
        let entry: &CompiledDictionaryEntry = &dict.entries[match_result.match_obj.entry_id];
        let spans: &[(usize, usize)] = match_result.matched_spans.as_slice();
        let shown: DisplayDictionaryEntry = DisplayDictionaryEntry::from_entry(entry, dict);
        let ghost chars = shown.characters@;
        let characters: String = match match_result.match_obj.match_type {
            MatchType::Traditional => {
                let offsets: Vec<usize> = char_offsets(shown.characters.as_str());
                let mut byte_spans: Vec<(usize, usize)> = Vec::new();
                let mut i: usize = 0;
                while i < spans.len()
                    invariant
                        chars == shown.characters@,
                        spans_within_chars(spans@, chars.len() as int),
                        offsets@.len() == chars.len() + 1,
                        forall|k: int|
                            0 <= k <= chars.len() ==> (#[trigger] offsets@[k]) as int
                                == spec_char_offset(chars, k),
                        i <= spans@.len(),
                        byte_spans@ == spec_char_spans(chars, spans@.take(i as int)),
                        highlights_fit(encode_utf8(chars), byte_spans@),
                    decreases spans@.len() - i,
                {
                    let span: (usize, usize) = spans[i];
                    proof {
                        lemma_char_offset_is_boundary(chars, span.0 as int);
                        lemma_char_offset_is_boundary(chars, span.1 as int);
                        lemma_char_offset_grows(chars, span.0 as int, span.1 as int);
                    }
                    let ghost before = byte_spans@;
                    byte_spans.push((offsets[span.0], offsets[span.1]));
                    assert(byte_spans@ =~= spec_char_spans(chars, spans@.take(i + 1)));
                    i += 1;
                }
                assert(spans@.take(spans@.len() as int) =~= spans@);
                Self::apply_highlights(shown.characters.as_str(), byte_spans.as_slice())
            },
            _ => shown.characters,
        };
        let jyutping: String = match match_result.match_obj.match_type {
            MatchType::Jyutping => Self::apply_highlights(shown.jyutping.as_str(), spans),
            _ => shown.jyutping,
        };
        let english_definitions: Vec<String> = match match_result.match_obj.match_type {
            MatchType::English => Self::build_english_definitions_with_highlights(
                entry,
                dict,
                spans,
            ),
            _ => {
                let none: Vec<(usize, usize)> = Vec::new();
                proof {
                    assert forall|i: int|
                        entry.english_start <= i
                            < entry.english_end implies #[trigger] Self::english_fit_at(
                        dict,
                        i,
                        none@,
                    ) by {}
                }
                Self::build_english_definitions_with_highlights(entry, dict, none.as_slice())
            },
        };
        Self {
            characters,
            jyutping,
            english_definitions,
            cost: entry.cost,
            entry_source: entry.get_source(),
        }
    }
}

} // verus!
