//! Cutting a romanised text into syllables, and a syllable into base and tone.

use crate::string_search::spec_is_ascii_letter;
use crate::text::{is_digit, lemma_boundary_at_ascii, lemma_boundary_behind_ascii, spec_is_digit, str_range};
use vstd::prelude::*;
use vstd::string::*;
use vstd::utf8::*;

verus! {

/// The tone that a word ends in: the value of its last byte, where that is an
/// ASCII digit.
pub open spec fn spec_tone(word: Seq<u8>) -> Option<u8> {
    if word.len() > 0 && spec_is_digit(word.last()) {
        Some((word.last() - 0x30) as u8)
    } else {
        None
    }
}

/// The word without the digit that it ends in, if it ends in one.
pub open spec fn spec_base(word: Seq<u8>) -> Seq<u8> {
    if word.len() > 0 && spec_is_digit(word.last()) {
        word.drop_last()
    } else {
        word
    }
}

/// Takes a word apart into what stands before a last digit, and that digit's value.
pub fn parse_jyutping_tone(s: &str) -> (r: (&str, Option<u8>))
    requires
        s.spec_bytes().len() >= 1,
    ensures
        r.0.spec_bytes() == spec_base(s.spec_bytes()),
        r.1 == spec_tone(s.spec_bytes()),
{
    let bytes: &[u8] = s.as_bytes();
    let last: u8 = bytes[bytes.len() - 1];
    if is_digit(last) {
        proof {
            encode_utf8_valid_utf8(s@);
            lemma_boundary_at_ascii(s.spec_bytes(), bytes@.len() - 1);
            assert(s.spec_bytes().subrange(0, bytes@.len() - 1) =~= s.spec_bytes().drop_last());
        }
        let base: &str = str_range(s, 0, bytes.len() - 1);
        (base, Some(last - 0x30))
    } else {
        (s, None)
    }
}

/// The first syllable found from byte `i` on, where the letters from
/// `run_start` to `i` have been passed already: a run of ASCII letters, as
/// long as it can be, and the ASCII digit that follows it. A digit without
/// letters before it, and any other byte, starts the search afresh behind it.
pub open spec fn scan_syllable(bytes: Seq<u8>, run_start: int, i: int) -> Option<(int, int)>
    decreases bytes.len() - i,
{
    if i >= bytes.len() {
        None
    } else if spec_is_ascii_letter(bytes[i]) {
        scan_syllable(bytes, run_start, i + 1)
    } else if spec_is_digit(bytes[i]) && run_start < i {
        Some((run_start, i + 1))
    } else {
        scan_syllable(bytes, i + 1, i + 1)
    }
}

/// The first syllable of `bytes` at or behind position `from`.
pub open spec fn spec_next_syllable(bytes: Seq<u8>, from: int) -> Option<(int, int)> {
    scan_syllable(bytes, from, from)
}

/// What is found is one letter or more and then a digit, and lies where the
/// search went.
pub proof fn lemma_scan_syllable(bytes: Seq<u8>, run_start: int, i: int)
    requires
        0 <= run_start <= i <= bytes.len(),
        forall|k: int| run_start <= k < i ==> spec_is_ascii_letter(#[trigger] bytes[k]),
    ensures
        match scan_syllable(bytes, run_start, i) {
            Some((start, end)) => {
                &&& run_start <= start
                &&& start + 2 <= end <= bytes.len()
                &&& i < end
                &&& spec_is_digit(bytes[end - 1])
                &&& forall|k: int| start <= k < end - 1 ==> spec_is_ascii_letter(#[trigger] bytes[k])
            },
            None => true,
        },
    decreases bytes.len() - i,
{
    if i >= bytes.len() {
    } else if spec_is_ascii_letter(bytes[i]) {
        lemma_scan_syllable(bytes, run_start, i + 1);
    } else if spec_is_digit(bytes[i]) && run_start < i {
    } else {
        lemma_scan_syllable(bytes, i + 1, i + 1);
    }
}

/// All syllables of `bytes` at or behind position `from`, in order.
pub open spec fn spec_syllables_from(bytes: Seq<u8>, from: int) -> Seq<(int, int)>
    decreases bytes.len() - from,
{
    match spec_next_syllable(bytes, from) {
        Some((start, end)) => {
            if from < end <= bytes.len() {
                seq![(start, end)] + spec_syllables_from(bytes, end)
            } else {
                Seq::empty()
            }
        },
        None => Seq::empty(),
    }
}

/// Walks over a text and hands out its syllables one by one.
pub struct JyutpingSplitter<'a> {
    inner: &'a str,
    current: usize,
}

impl<'a> JyutpingSplitter<'a> {
    /// The bytes of the text that is walked over.
    pub closed spec fn text(&self) -> Seq<u8> {
        self.inner.spec_bytes()
    }

    /// How far the walk has come.
    pub closed spec fn position(&self) -> int {
        self.current as int
    }

    /// The walk stands inside the text, where a character ends.
    pub closed spec fn wf(&self) -> bool {
        &&& self.current <= self.inner.spec_bytes().len()
        &&& is_char_boundary(self.inner.spec_bytes(), self.current as int)
    }

    /// Starts a walk at the beginning of `s`.
    pub fn new(s: &'a str) -> (splitter: Self)
        ensures
            splitter.wf(),
            splitter.text() == s.spec_bytes(),
            splitter.position() == 0,
    {
        proof {
            encode_utf8_valid_utf8(s@);
        }
        Self { inner: s, current: 0 }
    }

    /// The next syllable of the text, if one is left; the walk moves behind
    /// it, or to the end of the text.
    pub fn next(&mut self) -> (r: Option<&'a str>)
        requires
            old(self).wf(),
        ensures
            final(self).wf(),
            final(self).text() == old(self).text(),
            match r {
                Some(word) => {
                    &&& spec_next_syllable(old(self).text(), old(self).position()) == Some(
                        (final(self).position() - word.spec_bytes().len(), final(self).position()),
                    )
                    &&& old(self).position() <= final(self).position() - word.spec_bytes().len()
                    &&& final(self).position() <= old(self).text().len()
                    &&& word.spec_bytes() == old(self).text().subrange(
                        final(self).position() - word.spec_bytes().len(),
                        final(self).position(),
                    )
                },
                None => {
                    &&& spec_next_syllable(old(self).text(), old(self).position()) is None
                    &&& final(self).position() == old(self).text().len()
                },
            },
    {
        let text: &'a str = self.inner;
        let bytes: &[u8] = text.as_bytes();
        let len: usize = bytes.len();
        let from: usize = self.current;
        let mut start: usize = from;
        let mut i: usize = from;
        proof {
            encode_utf8_valid_utf8(text@);
        }
        while i < len
            invariant
                *self == *old(self),
                text == self.inner,
                from == self.current,
                bytes@ == text.spec_bytes(),
                len == bytes@.len(),
                valid_utf8(bytes@),
                from <= start <= i <= len,
                forall|k: int| start <= k < i ==> spec_is_ascii_letter(#[trigger] bytes@[k]),
                scan_syllable(bytes@, from as int, from as int) == scan_syllable(
                    bytes@,
                    start as int,
                    i as int,
                ),
            decreases len - i,
        {
            let b: u8 = bytes[i];
            let is_letter: bool = (b >= 0x61 && b <= 0x7a) || (b >= 0x41 && b <= 0x5a);
            if is_letter {
                i += 1;
            } else if is_digit(b) && start < i {
                proof {
                    assert(spec_is_ascii_letter(bytes@[start as int]));
                    lemma_boundary_at_ascii(bytes@, start as int);
                    lemma_boundary_behind_ascii(bytes@, i as int);
                }
                let word: &'a str = str_range(text, start, i + 1);
                proof {
                    assert(scan_syllable(bytes@, start as int, i as int) == Some(
                        (start as int, i + 1),
                    ));
                    assert(word.spec_bytes().len() == i + 1 - start);
                }
                self.current = i + 1;
                return Some(word);
            } else {
                i += 1;
                start = i;
            }
        }
        self.current = len;
        proof {
            is_char_boundary_start_end_of_seq(bytes@);
        }
        None
    }
}

} // verus!
