//! The lines of the source texts that entries are taken from.
//!
//! A line of CEDICT reads `traditional simplified [pinyin] /definition/../`;
//! a line of CC-Canto has the romanisation in braces before the definitions,
//! and a line of the table of readings ends with it. Lines that are empty or
//! start with `#` hold nothing.

use crate::alphabet::bases_of;
use crate::builder::{cost_heuristic, spec_cost_heuristic, DictionaryEntry, EntryContent};
use crate::compile::{spec_words, split_words};
use crate::compiled_dictionary::chars_strictly_ascending;
use crate::validity::chars_ascend;
use crate::text::{lemma_boundary_at_ascii, lemma_boundary_behind_ascii, str_range};
use crate::{spec_added, EntrySource, StringVecSet};
use vstd::prelude::*;
use vstd::string::*;
use vstd::utf8::*;

verus! {

/// The first place at or behind `from` where the byte `b` stands.
pub open spec fn spec_find_byte(bytes: Seq<u8>, b: u8, from: int) -> Option<int>
    decreases bytes.len() - from,
{
    if from < 0 || from >= bytes.len() {
        None
    } else if bytes[from] == b {
        Some(from)
    } else {
        spec_find_byte(bytes, b, from + 1)
    }
}

/// What is found is the byte, at or behind `from`, with none of it between.
pub proof fn lemma_find_byte(bytes: Seq<u8>, b: u8, from: int)
    requires
        0 <= from,
    ensures
        match spec_find_byte(bytes, b, from) {
            Some(at) => from <= at < bytes.len() && bytes[at] == b && forall|k: int|
                from <= k < at ==> bytes[k] != b,
            None => forall|k: int| from <= k < bytes.len() ==> bytes[k] != b,
        },
    decreases bytes.len() - from,
{
    if from < bytes.len() && bytes[from] != b {
        lemma_find_byte(bytes, b, from + 1);
    }
}

/// The first place at or behind `from` where the byte `b` stands.
pub fn find_byte(bytes: &[u8], b: u8, from: usize) -> (r: Option<usize>)
    ensures
        match r {
            Some(at) => from <= at < bytes@.len() && spec_find_byte(bytes@, b, from as int) == Some(
                at as int,
            ),
            None => spec_find_byte(bytes@, b, from as int) is None,
        },
{
    let mut at: usize = from;
    while at < bytes.len()
        invariant
            from <= at,
            spec_find_byte(bytes@, b, from as int) == spec_find_byte(bytes@, b, at as int),
        decreases bytes@.len() - at,
    {
        if bytes[at] == b {
            return Some(at);
        }
        at += 1;
    }
    None
}

/// Where the parts of a line lie that open every kind of line: the end of
/// the word in traditional characters, which a space follows; and the start
/// of what stands behind the pinyin, two bytes behind the `]` that closes it.
/// The pinyin must open with `[` behind a second space.
pub open spec fn spec_line_head(line: Seq<u8>) -> Option<(int, int)> {
    match spec_find_byte(line, 0x20, 0) {
        None => None,
        Some(first) => match spec_find_byte(line, 0x20, first + 1) {
            None => None,
            Some(second) => if second + 1 < line.len() && line[second + 1] == 0x5b {
                match spec_find_byte(line, 0x5d, second + 1) {
                    None => None,
                    Some(close) => if close + 2 <= line.len() && is_char_boundary(line, close + 2) {
                        Some((first, close + 2))
                    } else {
                        None
                    },
                }
            } else {
                None
            },
        },
    }
}

/// Finds the word in traditional characters, and what stands behind the
/// pinyin.
pub fn line_head<'a>(line: &'a str) -> (r: Option<(&'a str, &'a str)>)
    ensures
        match r {
            Some((traditional, rest)) => match spec_line_head(line.spec_bytes()) {
                Some((end, after)) => {
                    &&& 0 <= end <= after <= line.spec_bytes().len()
                    &&& traditional.spec_bytes() == line.spec_bytes().subrange(0, end)
                    &&& rest.spec_bytes() == line.spec_bytes().subrange(
                        after,
                        line.spec_bytes().len() as int,
                    )
                },
                None => false,
            },
            None => spec_line_head(line.spec_bytes()) is None,
        },
{
    let bytes: &[u8] = line.as_bytes();
    let len: usize = bytes.len();
    proof {
        encode_utf8_valid_utf8(line@);
        lemma_find_byte(bytes@, 0x20, 0);
    }
    let first: usize = match find_byte(bytes, 0x20, 0) {
        Some(first) => first,
        None => {
            return None;
        },
    };
    proof {
        lemma_find_byte(bytes@, 0x20, first + 1);
    }
    let second: usize = match find_byte(bytes, 0x20, first + 1) {
        Some(second) => second,
        None => {
            return None;
        },
    };
    if !(len - second > 1 && bytes[second + 1] == 0x5b) {
        return None;
    }
    proof {
        lemma_find_byte(bytes@, 0x5d, second + 1);
    }
    let close: usize = match find_byte(bytes, 0x5d, second + 1) {
        Some(close) => close,
        None => {
            return None;
        },
    };
    if !(len - close >= 2 && line.is_char_boundary(close + 2)) {
        return None;
    }
    proof {
        lemma_boundary_at_ascii(bytes@, first as int);
        is_char_boundary_start_end_of_seq(bytes@);
    }
    let traditional: &'a str = str_range(line, 0, first);
    let rest: &'a str = str_range(line, close + 2, len);
    Some((traditional, rest))
}

/// Where the romanisation lies in what stands behind the pinyin of a line
/// of CC-Canto, and where the definitions start: the romanisation stands
/// between `{` at the start and the first `}`, and the definitions start two
/// bytes behind that.
pub open spec fn spec_braced(rest: Seq<u8>) -> Option<(int, int)> {
    if rest.len() > 0 && rest[0] == 0x7b {
        match spec_find_byte(rest, 0x7d, 0) {
            None => None,
            Some(close) => if close + 2 <= rest.len() && is_char_boundary(rest, close + 2) {
                Some((close, close + 2))
            } else {
                None
            },
        }
    } else {
        None
    }
}

/// Finds the romanisation in braces, and what stands behind it.
pub fn braced<'a>(rest: &'a str) -> (r: Option<(&'a str, &'a str)>)
    ensures
        match r {
            Some((jyutping, english)) => match spec_braced(rest.spec_bytes()) {
                Some((close, after)) => {
                    &&& 1 <= close < after <= rest.spec_bytes().len()
                    &&& jyutping.spec_bytes() == rest.spec_bytes().subrange(1, close)
                    &&& english.spec_bytes() == rest.spec_bytes().subrange(
                        after,
                        rest.spec_bytes().len() as int,
                    )
                },
                None => false,
            },
            None => spec_braced(rest.spec_bytes()) is None,
        },
{
    let bytes: &[u8] = rest.as_bytes();
    proof {
        encode_utf8_valid_utf8(rest@);
        lemma_find_byte(bytes@, 0x7d, 0);
    }
    if !(bytes.len() > 0 && bytes[0] == 0x7b) {
        return None;
    }
    let close: usize = match find_byte(bytes, 0x7d, 0) {
        Some(close) => close,
        None => {
            return None;
        },
    };
    if !(bytes.len() - close >= 2 && rest.is_char_boundary(close + 2)) {
        return None;
    }
    proof {
        lemma_boundary_behind_ascii(bytes@, 0);
        lemma_boundary_at_ascii(bytes@, close as int);
        is_char_boundary_start_end_of_seq(bytes@);
    }
    let jyutping: &'a str = str_range(rest, 1, close);
    let english: &'a str = str_range(rest, close + 2, bytes.len());
    Some((jyutping, english))
}

/// The romanisation at the end of a line of the table of readings: what
/// stands behind `{` at the start, without the last character.
pub open spec fn spec_reading(rest: Seq<u8>) -> Option<Seq<u8>> {
    if rest.len() >= 2 && rest[0] == 0x7b && is_char_boundary(rest, rest.len() - 1) {
        Some(rest.subrange(1, rest.len() - 1))
    } else {
        None
    }
}

/// Finds the romanisation that ends a line of the table of readings.
pub fn reading<'a>(rest: &'a str) -> (r: Option<&'a str>)
    ensures
        match r {
            Some(jyutping) => spec_reading(rest.spec_bytes()) == Some(jyutping.spec_bytes()),
            None => spec_reading(rest.spec_bytes()) is None,
        },
{
    let bytes: &[u8] = rest.as_bytes();
    proof {
        encode_utf8_valid_utf8(rest@);
    }
    if !(bytes.len() >= 2 && bytes[0] == 0x7b && rest.is_char_boundary(bytes.len() - 1)) {
        return None;
    }
    proof {
        lemma_boundary_behind_ascii(bytes@, 0);
    }
    Some(str_range(rest, 1, bytes.len() - 1))
}

/// Whether a line holds nothing: it is empty, or a comment.
pub fn line_is_blank(line: &str) -> (blank: bool)
    ensures
        blank == (line.spec_bytes().len() == 0 || line.spec_bytes()[0] == 0x23),
{
    let bytes: &[u8] = line.as_bytes();
    bytes.len() == 0 || bytes[0] == 0x23
}

/// The character is white space: one of the characters with the Unicode
/// property `White_Space`.
pub open spec fn spec_is_whitespace(c: char) -> bool {
    let n = c as u32;
    (0x09 <= n <= 0x0d) || n == 0x20 || n == 0x85 || n == 0xa0 || n == 0x1680 || (0x2000 <= n
        <= 0x200a) || n == 0x2028 || n == 0x2029 || n == 0x202f || n == 0x205f || n == 0x3000
}

/// The text without the white space that it starts with.
pub open spec fn spec_trim_start(text: Seq<char>) -> Seq<char>
    decreases text.len(),
{
    if text.len() > 0 && spec_is_whitespace(text[0]) {
        spec_trim_start(text.drop_first())
    } else {
        text
    }
}

/// The text without the white space that it ends with.
pub open spec fn spec_trim_end(text: Seq<char>) -> Seq<char>
    decreases text.len(),
{
    if text.len() > 0 && spec_is_whitespace(text.last()) {
        spec_trim_end(text.drop_last())
    } else {
        text
    }
}

/// The text without the white space that it starts and ends with.
pub open spec fn spec_trim(text: Seq<char>) -> Seq<char> {
    spec_trim_end(spec_trim_start(text))
}

/// `str::trim`: the text without the white space that it starts and ends
/// with, white space being the characters of the Unicode property
/// `White_Space`.
#[verifier::external_body]
fn trimmed<'a>(text: &'a str) -> (r: &'a str)
    ensures
        r@ == spec_trim(text@),
{
    text.trim()
}

/// The definitions in the pieces of `english` that end before place `upto`,
/// a piece being what stands between two `/`: each piece without the white
/// space around it, pieces that are empty left out, and none twice when case
/// is not regarded.
pub open spec fn spec_definitions_upto(english: Seq<u8>, upto: int) -> Seq<Seq<u8>>
    decreases upto,
{
    if upto <= 0 {
        Seq::empty()
    } else if english[upto - 1] == 0x2f {
        spec_with_piece(
            spec_definitions_upto(english, upto - 1),
            english.subrange(spec_piece_start(english, upto - 1), upto - 1),
        )
    } else {
        spec_definitions_upto(english, upto - 1)
    }
}

/// Where the piece starts that place `at` lies in: behind the last `/`
/// before `at`, or at the start.
pub open spec fn spec_piece_start(english: Seq<u8>, at: int) -> int
    decreases at,
{
    if at <= 0 {
        0
    } else if english[at - 1] == 0x2f {
        at
    } else {
        spec_piece_start(english, at - 1)
    }
}

/// The definitions with one more piece taken in.
pub open spec fn spec_with_piece(definitions: Seq<Seq<u8>>, piece: Seq<u8>) -> Seq<Seq<u8>> {
    let text = encode_utf8(spec_trim(decode_utf8(piece)));
    if text.len() == 0 {
        definitions
    } else {
        spec_added(definitions, text)
    }
}

/// Where the definitions end: at the first `#`, or at the end of the text.
pub open spec fn spec_definitions_end(english: Seq<u8>) -> int {
    match spec_find_byte(english, 0x23, 0) {
        Some(at) => at,
        None => english.len() as int,
    }
}

/// The definitions of a line: what stands before a comment, cut at every
/// `/`, each piece without the white space around it, empty pieces left out,
/// and none twice when case is not regarded.
pub open spec fn spec_definitions(english: Seq<u8>) -> Seq<Seq<u8>> {
    let text = english.subrange(0, spec_definitions_end(english));
    spec_with_piece(
        spec_definitions_upto(text, text.len() as int),
        text.subrange(spec_piece_start(text, text.len() as int), text.len() as int),
    )
}

/// Takes the definitions out of the end of a line.
pub fn definitions_of(english: &str) -> (definitions: StringVecSet)
    ensures
        definitions@ == spec_definitions(english.spec_bytes()),
{
    let all: &[u8] = english.as_bytes();
    proof {
        encode_utf8_valid_utf8(english@);
        lemma_find_byte(all@, 0x23, 0);
        is_char_boundary_start_end_of_seq(all@);
    }
    let end: usize = match find_byte(all, 0x23, 0) {
        Some(at) => {
            proof {
                lemma_boundary_at_ascii(all@, at as int);
            }
            at
        },
        None => all.len(),
    };
    let text: &str = str_range(english, 0, end);
    let bytes: &[u8] = text.as_bytes();
    proof {
        encode_utf8_valid_utf8(text@);
        is_char_boundary_start_end_of_seq(bytes@);
    }
    let mut definitions: StringVecSet = StringVecSet { inner: Vec::new() };
    let mut start: usize = 0;
    let mut at: usize = 0;
    assert(definitions@ =~= Seq::<Seq<u8>>::empty());
    while at < bytes.len()
        invariant
            bytes@ == text.spec_bytes(),
            valid_utf8(bytes@),
            start <= at <= bytes@.len(),
            start as int == spec_piece_start(bytes@, at as int),
            is_char_boundary(bytes@, start as int),
            definitions@ == spec_definitions_upto(bytes@, at as int),
        decreases bytes@.len() - at,
    {
        if bytes[at] == 0x2f {
            proof {
                lemma_boundary_at_ascii(bytes@, at as int);
                lemma_boundary_behind_ascii(bytes@, at as int);
            }
            let piece: &str = str_range(text, start, at);
            proof {
                encode_utf8_decode_utf8(piece@);
            }
            let definition: &str = trimmed(piece);
            if definition.as_bytes().len() > 0 {
                definitions.add_clone(definition);
            }
            start = at + 1;
        }
        at += 1;
    }
    let piece: &str = str_range(text, start, bytes.len());
    proof {
        encode_utf8_decode_utf8(piece@);
    }
    let definition: &str = trimmed(piece);
    if definition.as_bytes().len() > 0 {
        definitions.add_clone(definition);
    }
    definitions
}

/// What characters cost that are in a table, in ascending order of the
/// characters; a character that is not in the table costs 64 000.
#[derive(Debug)]
pub struct CharacterCosts {
    pub characters: Vec<char>,
    pub costs: Vec<u32>,
}

/// What a character costs that is in no table.
pub const UNKNOWN_CHARACTER_COST: u32 = 64_000;

impl CharacterCosts {
    /// The characters are strictly ascending, and each has its cost.
    pub open spec fn wf(&self) -> bool {
        &&& chars_strictly_ascending(self.characters@)
        &&& self.characters@.len() == self.costs@.len()
    }

    /// What the character costs.
    pub open spec fn spec_cost_of(&self, c: char) -> u32 {
        if self.characters@.contains(c) {
            self.costs@[self.characters@.index_of(c)]
        } else {
            64_000
        }
    }

    /// What the characters cost together.
    pub open spec fn spec_cost_of_all(&self, chars: Seq<char>) -> int
        decreases chars.len(),
    {
        if chars.len() == 0 {
            0
        } else {
            self.spec_cost_of_all(chars.drop_last()) + self.spec_cost_of(chars.last())
        }
    }

    /// Whether the table is valid.
    pub fn is_valid(&self) -> (r: bool)
        ensures
            r == self.wf(),
    {
        self.characters.len() == self.costs.len() && chars_ascend(&self.characters)
    }

    /// What the character costs; found by binary search.
    pub fn cost_of(&self, c: char) -> (cost: u32)
        requires
            self.wf(),
        ensures
            cost == self.spec_cost_of(c),
    {
        let mut low: usize = 0;
        let mut high: usize = self.characters.len();
        while low < high
            invariant
                self.wf(),
                low <= high <= self.characters@.len(),
                forall|k: int| 0 <= k < low ==> self.characters@[k] < c,
                forall|k: int| high <= k < self.characters@.len() ==> c < self.characters@[k],
            decreases high - low,
        {
            let mid: usize = low + (high - low) / 2;
            let here: char = self.characters[mid];
            if here == c {
                proof {
                    let other = self.characters@.index_of(c);
                    assert(self.characters@.contains(c));
                    assert(self.characters@[other] == c);
                    if other < mid {
                        assert(self.characters@[other] < self.characters@[mid as int]);
                    } else if mid < other {
                        assert(self.characters@[mid as int] < self.characters@[other]);
                    }
                }
                return self.costs[mid];
            } else if here < c {
                low = mid + 1;
            } else {
                high = mid;
            }
        }
        UNKNOWN_CHARACTER_COST
    }

    /// What the characters of the text cost together, where that fits 32 bits.
    pub fn cost_of_all(&self, text: &str) -> (cost: Option<u32>)
        requires
            self.wf(),
        ensures
            match cost {
                Some(cost) => cost as int == self.spec_cost_of_all(text@),
                None => self.spec_cost_of_all(text@) > u32::MAX,
            },
    {
        let mut sum: u64 = 0;
        assert(text@.take(0) =~= Seq::<char>::empty());
        for c in it: text.chars()
            invariant
                self.wf(),
                it.seq() == text@,
                sum as int == if self.spec_cost_of_all(text@.take(it.index() as int))
                    > u32::MAX {
                    u32::MAX + 1
                } else {
                    self.spec_cost_of_all(text@.take(it.index() as int))
                },
        {
            proof {
                assert(text@.take(it.index() + 1).drop_last() =~= text@.take(it.index() as int));
                self.lemma_cost_of_all_nonnegative(text@.take(it.index() as int));
            }
            let more: u64 = sum + self.cost_of(c) as u64;
            sum = if more > 0xffff_ffff {
                0x1_0000_0000
            } else {
                more
            };
        }
        assert(text@.take(text@.len() as int) =~= text@);
        if sum > 0xffff_ffff {
            None
        } else {
            Some(sum as u32)
        }
    }

    /// Characters cost no less than nothing.
    pub proof fn lemma_cost_of_all_nonnegative(&self, chars: Seq<char>)
        ensures
            0 <= self.spec_cost_of_all(chars),
        decreases chars.len(),
    {
        if chars.len() > 0 {
            self.lemma_cost_of_all_nonnegative(chars.drop_last());
        }
    }
}

/// What a line of CEDICT says: the word in traditional characters, and its
/// definitions. Nothing where the line is not of the form
/// `traditional simplified [pinyin] /definition/../`.
pub open spec fn spec_cedict_line(line: Seq<u8>) -> Option<(Seq<u8>, Seq<Seq<u8>>)> {
    match spec_line_head(line) {
        Some((end, after)) => Some(
            (line.subrange(0, end), spec_definitions(line.subrange(after, line.len() as int))),
        ),
        None => None,
    }
}

/// What an entry of CEDICT costs: what its characters cost by the table, and
/// what the wording of its definitions adds.
pub open spec fn spec_cedict_cost(
    costs: &CharacterCosts,
    traditional: Seq<u8>,
    definitions: Seq<Seq<u8>>,
) -> int {
    costs.spec_cost_of_all(decode_utf8(traditional)) + spec_cost_heuristic(definitions)
}

/// The entry that a line of CEDICT gives: the word, no romanisation, the
/// definitions, and the cost. Nothing where the line is not of its form, or
/// the cost leaves 32 bits.
pub open spec fn spec_cedict_entry(costs: &CharacterCosts, line: Seq<u8>) -> Option<EntryContent> {
    match spec_cedict_line(line) {
        Some((traditional, definitions)) => if spec_cedict_cost(costs, traditional, definitions)
            <= u32::MAX {
            Some(
                EntryContent {
                    cost: spec_cedict_cost(costs, traditional, definitions) as u32,
                    traditional,
                    jyutping: Seq::empty(),
                    definitions,
                    source: EntrySource::CEDict,
                },
            )
        } else {
            None
        },
        None => None,
    }
}

/// The entry that a line of CEDICT gives. Nothing where the line is not of
/// its form, or the cost leaves 32 bits.
pub fn cedict_entry(line: &str, costs: &CharacterCosts) -> (r: Option<DictionaryEntry>)
    requires
        costs.wf(),
    ensures
        match r {
            Some(entry) => spec_cedict_entry(costs, line.spec_bytes()) == Some(entry@),
            None => spec_cedict_entry(costs, line.spec_bytes()) is None,
        },
{
    let (traditional, rest) = match line_head(line) {
        Some(parts) => parts,
        None => {
            return None;
        },
    };
    let definitions: StringVecSet = definitions_of(rest);
    assert(definitions@ =~= bases_of(definitions.inner@));
    let heuristic: u32 = cost_heuristic(definitions.inner.as_slice());
    proof {
        costs.lemma_cost_of_all_nonnegative(traditional@);
        encode_utf8_decode_utf8(traditional@);
    }
    let cost: Option<u32> = match costs.cost_of_all(traditional) {
        Some(sum) => sum.checked_add(heuristic),
        None => None,
    };
    match cost {
        Some(cost) => Some(
            DictionaryEntry {
                traditional: traditional.to_owned(),
                jyutping: String::new(),
                english_sets: definitions,
                source: EntrySource::CEDict,
                cost,
            },
        ),
        None => None,
    }
}

/// What a line of CC-Canto says: the word in traditional characters, its
/// romanisation, and its definitions. Nothing where the line is not of the
/// form `traditional simplified [pinyin] {jyutping} /definition/../`.
pub open spec fn spec_ccanto_line(line: Seq<u8>) -> Option<(Seq<u8>, Seq<u8>, Seq<Seq<u8>>)> {
    match spec_line_head(line) {
        Some((end, after)) => match spec_braced(line.subrange(after, line.len() as int)) {
            Some((close, english)) => Some(
                (
                    line.subrange(0, end),
                    line.subrange(after, line.len() as int).subrange(1, close),
                    spec_definitions(
                        line.subrange(after, line.len() as int).subrange(
                            english,
                            line.len() - after,
                        ),
                    ),
                ),
            ),
            None => None,
        },
        None => None,
    }
}

/// What an entry of CC-Canto costs: 15 000, and 1 000 for each syllable of
/// its romanisation, and what the wording of its definitions adds.
pub open spec fn spec_ccanto_cost(jyutping: Seq<u8>, definitions: Seq<Seq<u8>>) -> int {
    15_000 + 1_000 * spec_words(jyutping).len() + spec_cost_heuristic(definitions)
}

/// The entry that a line of CC-Canto gives: the word, its romanisation, the
/// definitions, and the cost. Nothing where the line is not of its form, or
/// the cost leaves 32 bits.
pub open spec fn spec_ccanto_entry(line: Seq<u8>) -> Option<EntryContent> {
    match spec_ccanto_line(line) {
        Some((traditional, jyutping, definitions)) => if spec_ccanto_cost(jyutping, definitions)
            <= u32::MAX {
            Some(
                EntryContent {
                    cost: spec_ccanto_cost(jyutping, definitions) as u32,
                    traditional,
                    jyutping,
                    definitions,
                    source: EntrySource::CCanto,
                },
            )
        } else {
            None
        },
        None => None,
    }
}

/// The entry that a line of CC-Canto gives. Nothing where the line is not of
/// its form, or the cost leaves 32 bits.
pub fn ccanto_entry(line: &str) -> (r: Option<DictionaryEntry>)
    ensures
        match r {
            Some(entry) => spec_ccanto_entry(line.spec_bytes()) == Some(entry@),
            None => spec_ccanto_entry(line.spec_bytes()) is None,
        },
{
    let (traditional, rest) = match line_head(line) {
        Some(parts) => parts,
        None => {
            return None;
        },
    };
    let (jyutping, english) = match braced(rest) {
        Some(parts) => parts,
        None => {
            return None;
        },
    };
    let definitions: StringVecSet = definitions_of(english);
    assert(definitions@ =~= bases_of(definitions.inner@));
    let heuristic: u32 = cost_heuristic(definitions.inner.as_slice());
    let count: usize = split_words(jyutping).len();
    if count > 4_294_952 {
        return None;
    }
    let cost: u32 = match (15_000 + 1_000 * count as u32).checked_add(heuristic) {
        Some(cost) => cost,
        None => {
            return None;
        },
    };
    Some(
        DictionaryEntry {
            traditional: traditional.to_owned(),
            jyutping: jyutping.to_owned(),
            english_sets: definitions,
            source: EntrySource::CCanto,
            cost,
        },
    )
}

/// What a line of the table of readings says: a word in traditional
/// characters, and how it is read. Nothing where the line is not of the form
/// `traditional simplified [pinyin] {jyutping}`.
pub open spec fn spec_reading_line(line: Seq<u8>) -> Option<(Seq<u8>, Seq<u8>)> {
    match spec_line_head(line) {
        Some((end, after)) => match spec_reading(line.subrange(after, line.len() as int)) {
            Some(jyutping) => Some((line.subrange(0, end), jyutping)),
            None => None,
        },
        None => None,
    }
}

/// The word and its reading that a line of the table of readings gives.
/// Nothing where the line is not of its form.
pub fn reading_of<'a>(line: &'a str) -> (r: Option<(&'a str, &'a str)>)
    ensures
        match r {
            Some((traditional, jyutping)) => spec_reading_line(line.spec_bytes()) == Some(
                (traditional.spec_bytes(), jyutping.spec_bytes()),
            ),
            None => spec_reading_line(line.spec_bytes()) is None,
        },
{
    let (traditional, rest) = match line_head(line) {
        Some(parts) => parts,
        None => {
            return None;
        },
    };
    match reading(rest) {
        Some(jyutping) => Some((traditional, jyutping)),
        None => None,
    }
}

} // verus!
