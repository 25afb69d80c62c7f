//! Reading whole source texts, line by line.

use crate::alphabet::bases_of;
use crate::builder::{Builder, DictionaryEntry, EntryContent, TraditionalToJyutping};
use crate::source_text::{
    ccanto_entry, cedict_entry, find_byte, lemma_find_byte, line_is_blank, reading_of,
    spec_ccanto_entry, spec_cedict_entry, spec_find_byte, spec_reading_line, CharacterCosts,
};
use crate::text::{lemma_boundary_at_ascii, lemma_boundary_behind_ascii, str_range};
use crate::spec_added;
use vstd::prelude::*;
use vstd::string::*;
use vstd::utf8::*;

verus! {

/// Where the line that starts at `from` ends, and where the next line
/// starts. A line ends before a line feed, or before a carriage return and a
/// line feed, or at the end of the text.
pub open spec fn spec_line_end(text: Seq<u8>, from: int) -> (int, int) {
    match spec_find_byte(text, 0x0a, from) {
        Some(at) => (
            if at > from && text[at - 1] == 0x0d {
                at - 1
            } else {
                at
            },
            at + 1,
        ),
        None => (text.len() as int, text.len() as int),
    }
}

/// A line ends at or behind its start, and the next line starts behind it.
pub proof fn lemma_line_end(text: Seq<u8>, from: int)
    requires
        0 <= from < text.len(),
    ensures
        from <= spec_line_end(text, from).0 <= spec_line_end(text, from).1 <= text.len(),
        from < spec_line_end(text, from).1,
{
    lemma_find_byte(text, 0x0a, from);
}

/// The line of `text` that starts at `from`, and where the next line starts.
pub fn next_line<'a>(text: &'a str, from: usize) -> (r: (&'a str, usize))
    requires
        from < text.spec_bytes().len(),
        is_char_boundary(text.spec_bytes(), from as int),
    ensures
        r.0.spec_bytes() == text.spec_bytes().subrange(
            from as int,
            spec_line_end(text.spec_bytes(), from as int).0,
        ),
        r.1 as int == spec_line_end(text.spec_bytes(), from as int).1,
        from < r.1 <= text.spec_bytes().len(),
        is_char_boundary(text.spec_bytes(), r.1 as int),
{
    let bytes: &[u8] = text.as_bytes();
    let len: usize = bytes.len();
    proof {
        encode_utf8_valid_utf8(text@);
        lemma_find_byte(bytes@, 0x0a, from as int);
        is_char_boundary_start_end_of_seq(bytes@);
    }
    match find_byte(bytes, 0x0a, from) {
        Some(at) => {
            proof {
                lemma_boundary_at_ascii(bytes@, at as int);
                lemma_boundary_behind_ascii(bytes@, at as int);
            }
            let end: usize = if at > from && bytes[at - 1] == 0x0d {
                proof {
                    lemma_boundary_at_ascii(bytes@, at - 1);
                }
                at - 1
            } else {
                at
            };
            (str_range(text, from, end), at + 1)
        },
        None => (str_range(text, from, len), len),
    }
}

/// The line is empty or a comment.
pub open spec fn spec_line_is_blank(line: Seq<u8>) -> bool {
    line.len() == 0 || line[0] == 0x23
}

/// The entry that a line gives: read as a line of CEDICT where costs of
/// characters are given, and as a line of CC-Canto where none are.
pub open spec fn spec_line_entry(costs: Option<&CharacterCosts>, line: Seq<u8>) -> Option<
    EntryContent,
> {
    match costs {
        Some(costs) => spec_cedict_entry(costs, line),
        None => spec_ccanto_entry(line),
    }
}

/// The entries of `found` and behind them those that the lines of `text`
/// from `from` on give, in order, lines that are empty or comments left out.
/// Nothing where one of the lines gives no entry.
pub open spec fn spec_entries_from(
    costs: Option<&CharacterCosts>,
    text: Seq<u8>,
    from: int,
    found: Seq<EntryContent>,
) -> Option<Seq<EntryContent>>
    decreases text.len() - from,
    via spec_entries_from_decreases
{
    if from < 0 || from >= text.len() {
        Some(found)
    } else {
        let (end, next) = spec_line_end(text, from);
        let line = text.subrange(from, end);
        if spec_line_is_blank(line) {
            spec_entries_from(costs, text, next, found)
        } else {
            match spec_line_entry(costs, line) {
                Some(entry) => spec_entries_from(costs, text, next, found.push(entry)),
                None => None,
            }
        }
    }
}

/// The next line starts behind the start of a line, so the reading ends.
#[via_fn]
proof fn spec_entries_from_decreases(
    costs: Option<&CharacterCosts>,
    text: Seq<u8>,
    from: int,
    found: Seq<EntryContent>,
) {
    if 0 <= from < text.len() {
        lemma_line_end(text, from);
    }
}

/// What the entries hold, one by one.
pub open spec fn contents(entries: Seq<DictionaryEntry>) -> Seq<EntryContent> {
    Seq::new(entries.len(), |i: int| entries[i]@)
}

/// The entry that a line gives.
fn line_entry(costs: Option<&CharacterCosts>, line: &str) -> (r: Option<DictionaryEntry>)
    requires
        costs is Some ==> costs.unwrap().wf(),
    ensures
        match r {
            Some(entry) => spec_line_entry(costs, line.spec_bytes()) == Some(entry@),
            None => spec_line_entry(costs, line.spec_bytes()) is None,
        },
{
    match costs {
        Some(costs) => cedict_entry(line, costs),
        None => ccanto_entry(line),
    }
}

/// Reads the lines of `text` and puts the entry of each behind `entries`.
/// Where a line gives no entry, nothing is put there.
fn read_entries(costs: Option<&CharacterCosts>, text: &str, entries: &mut Vec<DictionaryEntry>) -> (ok:
    bool)
    requires
        costs is Some ==> costs.unwrap().wf(),
    ensures
        match spec_entries_from(costs, text.spec_bytes(), 0, contents(old(entries)@)) {
            Some(all) => {
                &&& ok
                &&& contents(final(entries)@) == all
                &&& old(entries)@.len() <= final(entries)@.len()
                &&& final(entries)@.subrange(0, old(entries)@.len() as int) == old(entries)@
            },
            None => !ok && final(entries)@ == old(entries)@,
        },
{
    let ghost bytes = text.spec_bytes();
    let before: usize = entries.len();
    let len: usize = text.as_bytes().len();
    let mut from: usize = 0;
    proof {
        encode_utf8_valid_utf8(text@);
        is_char_boundary_start_end_of_seq(bytes);
        assert(entries@.subrange(0, before as int) =~= entries@);
    }
    while from < len
        invariant
            costs is Some ==> costs.unwrap().wf(),
            bytes == text.spec_bytes(),
            len == bytes.len(),
            from <= len,
            valid_utf8(bytes),
            is_char_boundary(bytes, from as int),
            before == old(entries)@.len(),
            before <= entries@.len(),
            entries@.subrange(0, before as int) == old(entries)@,
            spec_entries_from(costs, bytes, 0, contents(old(entries)@))
                == spec_entries_from(costs, bytes, from as int, contents(entries@)),
        decreases len - from,
    {
        let (line, next) = next_line(text, from);
        if !line_is_blank(line) {
            match line_entry(costs, line) {
                Some(entry) => {
                    let ghost held = entries@;
                    entries.push(entry);
                    proof {
                        assert(contents(entries@) =~= contents(held).push(entry@));
                        assert(entries@.subrange(0, before as int) =~= held.subrange(
                            0,
                            before as int,
                        ));
                    }
                },
                None => {
                    entries.truncate(before);
                    return false;
                },
            }
        }
        from = next;
    }
    true
}

impl Builder {
    /// Reads the text of CEDICT and puts the entry of each of its lines
    /// behind the entries, lines that are empty or comments left out. Where
    /// a line is not of the form of CEDICT, or its cost leaves 32 bits,
    /// nothing is put there, and the answer is no.
    pub fn parse_cedict(&mut self, text: &str, costs: &CharacterCosts) -> (ok: bool)
        requires
            costs.wf(),
        ensures
            match spec_entries_from(
                Some(costs),
                text.spec_bytes(),
                0,
                contents(old(self).entries@),
            ) {
                Some(all) => {
                    &&& ok
                    &&& contents(final(self).entries@) == all
                    &&& old(self).entries@.len() <= final(self).entries@.len()
                    &&& final(self).entries@.subrange(0, old(self).entries@.len() as int) == old(
                        self,
                    ).entries@
                },
                None => !ok && final(self).entries@ == old(self).entries@,
            },
    {
        read_entries(Some(costs), text, &mut self.entries)
    }

    /// Reads the text of CC-Canto and puts the entry of each of its lines
    /// behind the entries, lines that are empty or comments left out. Where
    /// a line is not of the form of CC-Canto, or its cost leaves 32 bits,
    /// nothing is put there, and the answer is no.
    pub fn parse_ccanto(&mut self, text: &str) -> (ok: bool)
        ensures
            match spec_entries_from(
                None,
                text.spec_bytes(),
                0,
                contents(old(self).entries@),
            ) {
                Some(all) => {
                    &&& ok
                    &&& contents(final(self).entries@) == all
                    &&& old(self).entries@.len() <= final(self).entries@.len()
                    &&& final(self).entries@.subrange(0, old(self).entries@.len() as int) == old(
                        self,
                    ).entries@
                },
                None => !ok && final(self).entries@ == old(self).entries@,
            },
    {
        read_entries(None, text, &mut self.entries)
    }
}

/// The pairs of `found` and behind them those that the lines of `text` from
/// `from` on give, each a word and how it is read, in order, lines that are
/// empty or comments left out. Nothing where one of the lines gives no pair.
pub open spec fn spec_readings_from(
    text: Seq<u8>,
    from: int,
    found: Seq<(Seq<u8>, Seq<u8>)>,
) -> Option<Seq<(Seq<u8>, Seq<u8>)>>
    decreases text.len() - from,
    via spec_readings_from_decreases
{
    if from < 0 || from >= text.len() {
        Some(found)
    } else {
        let (end, next) = spec_line_end(text, from);
        let line = text.subrange(from, end);
        if spec_line_is_blank(line) {
            spec_readings_from(text, next, found)
        } else {
            match spec_reading_line(line) {
                Some(pair) => spec_readings_from(text, next, found.push(pair)),
                None => None,
            }
        }
    }
}

/// The next line starts behind the start of a line, so the reading ends.
#[via_fn]
proof fn spec_readings_from_decreases(text: Seq<u8>, from: int, found: Seq<(Seq<u8>, Seq<u8>)>) {
    if 0 <= from < text.len() {
        lemma_line_end(text, from);
    }
}

/// What is noted for `key` once the first `n` pairs were noted one by one,
/// each as a key and a text for the set of that key.
pub open spec fn spec_noted(pairs: Seq<(Seq<u8>, Seq<u8>)>, key: Seq<u8>, n: int) -> Option<
    Seq<Seq<u8>>,
>
    decreases n,
{
    if n <= 0 {
        None
    } else {
        let before = spec_noted(pairs, key, n - 1);
        if pairs[n - 1].0 == key {
            Some(
                match before {
                    Some(set) => spec_added(set, pairs[n - 1].1),
                    None => seq![pairs[n - 1].1],
                },
            )
        } else {
            before
        }
    }
}

/// The pairs with the two parts of each changed over.
pub open spec fn spec_turned(pairs: Seq<(Seq<u8>, Seq<u8>)>) -> Seq<(Seq<u8>, Seq<u8>)> {
    Seq::new(pairs.len(), |i: int| (pairs[i].1, pairs[i].0))
}

impl TraditionalToJyutping {
    /// The table holds what the pairs note, words by reading and readings by
    /// word.
    pub open spec fn holds(&self, pairs: Seq<(Seq<u8>, Seq<u8>)>) -> bool {
        &&& forall|key: Seq<u8>|
            self.inner.spec_get(key) == spec_noted(pairs, key, pairs.len() as int)
        &&& forall|key: Seq<u8>|
            self.reverse.spec_get(key) == spec_noted(spec_turned(pairs), key, pairs.len() as int)
    }

    /// Reads the table of readings: notes the word and the reading of each
    /// line, lines that are empty or comments left out. Nothing where a line
    /// is not of the form of the table.
    pub fn parse(text: &str) -> (r: Option<Self>)
        ensures
            match r {
                Some(table) => {
                    &&& table.inner.wf()
                    &&& table.reverse.wf()
                    &&& table.inner.sets_nonempty()
                    &&& table.reverse.sets_nonempty()
                    &&& match spec_readings_from(text.spec_bytes(), 0, Seq::empty()) {
                        Some(pairs) => table.holds(pairs),
                        None => false,
                    }
                },
                None => spec_readings_from(text.spec_bytes(), 0, Seq::empty()) is None,
            },
    {
        let ghost bytes = text.spec_bytes();
        let ghost mut found: Seq<(Seq<u8>, Seq<u8>)> = Seq::empty();
        let mut table: TraditionalToJyutping = TraditionalToJyutping::new();
        let len: usize = text.as_bytes().len();
        let mut from: usize = 0;
        proof {
            encode_utf8_valid_utf8(text@);
            is_char_boundary_start_end_of_seq(bytes);
            assert(bases_of(table.inner.keys@).len() == 0);
            assert(bases_of(table.reverse.keys@).len() == 0);
        }
        while from < len
            invariant
                bytes == text.spec_bytes(),
                len == bytes.len(),
                from <= len,
                valid_utf8(bytes),
                is_char_boundary(bytes, from as int),
                table.inner.wf(),
                table.reverse.wf(),
                table.inner.sets_nonempty(),
                table.reverse.sets_nonempty(),
                table.holds(found),
                spec_readings_from(bytes, 0, Seq::empty()) == spec_readings_from(
                    bytes,
                    from as int,
                    found,
                ),
            decreases len - from,
        {
            let (line, next) = next_line(text, from);
            if !line_is_blank(line) {
                match reading_of(line) {
                    Some((traditional, jyutping)) => {
                        let ghost before = found;
                        table.add(traditional, jyutping);
                        proof {
                            found = before.push((traditional.spec_bytes(), jyutping.spec_bytes()));
                            assert forall|key: Seq<u8>|
                                spec_noted(found, key, found.len() - 1) == spec_noted(
                                    before,
                                    key,
                                    before.len() as int,
                                ) by {
                                lemma_noted_prefix(found, before, key, before.len() as int);
                            }
                            assert(spec_turned(found) =~= spec_turned(before).push(
                                (jyutping.spec_bytes(), traditional.spec_bytes()),
                            ));
                            assert forall|key: Seq<u8>|
                                spec_noted(spec_turned(found), key, found.len() - 1) == spec_noted(
                                    spec_turned(before),
                                    key,
                                    before.len() as int,
                                ) by {
                                lemma_noted_prefix(
                                    spec_turned(found),
                                    spec_turned(before),
                                    key,
                                    before.len() as int,
                                );
                            }
                        }
                    },
                    None => {
                        return None;
                    },
                }
            }
            from = next;
        }
        Some(table)
    }
}

/// What is noted by the first pairs does not depend on the pairs behind them.
pub proof fn lemma_noted_prefix(
    pairs: Seq<(Seq<u8>, Seq<u8>)>,
    fewer: Seq<(Seq<u8>, Seq<u8>)>,
    key: Seq<u8>,
    n: int,
)
    requires
        n <= fewer.len() <= pairs.len(),
        forall|i: int| 0 <= i < fewer.len() ==> pairs[i] == fewer[i],
    ensures
        spec_noted(pairs, key, n) == spec_noted(fewer, key, n),
    decreases n,
{
    if n > 0 {
        lemma_noted_prefix(pairs, fewer, key, n - 1);
    }
}

} // verus!
