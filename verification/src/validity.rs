//! Testing whether a dictionary is valid.

use crate::alphabet::bases_of;
use crate::builder::TextMap;
use crate::compiled_dictionary::{
    bases_strictly_ascending, bytes_lt, chars_strictly_ascending, CharacterStore,
    CompiledDictionary, CompiledDictionaryEntry, JyutpingStore, MAX_BASES, MAX_BASE_BYTES,
    MAX_TONE,
};
use crate::text::str_from_utf8;
use vstd::prelude::*;
use vstd::string::*;
use vstd::utf8::*;

verus! {

/// What comes before something that comes before a third comes before the third.
pub proof fn lemma_bytes_lt_transitive(a: Seq<u8>, b: Seq<u8>, c: Seq<u8>)
    requires
        bytes_lt(a, b),
        bytes_lt(b, c),
    ensures
        bytes_lt(a, c),
    decreases a.len(),
{
    if a.len() > 0 && b.len() > 0 && c.len() > 0 {
        if a[0] == b[0] && b[0] == c[0] {
            lemma_bytes_lt_transitive(a.drop_first(), b.drop_first(), c.drop_first());
        }
    }
}

/// Nothing comes before itself.
pub proof fn lemma_bytes_lt_irreflexive(a: Seq<u8>)
    ensures
        !bytes_lt(a, a),
    decreases a.len(),
{
    if a.len() > 0 {
        lemma_bytes_lt_irreflexive(a.drop_first());
    }
}

/// Whether `a` comes before `b` in the order of their bytes.
pub fn bytes_less(a: &[u8], b: &[u8]) -> (r: bool)
    ensures
        r == bytes_lt(a@, b@),
{
    let mut k: usize = 0;
    assert(a@.skip(0) =~= a@ && b@.skip(0) =~= b@);
    while k < a.len() && k < b.len()
        invariant
            k <= a@.len(),
            k <= b@.len(),
            bytes_lt(a@, b@) == bytes_lt(a@.skip(k as int), b@.skip(k as int)),
        decreases a@.len() - k,
    {
        let ghost x = a@.skip(k as int);
        let ghost y = b@.skip(k as int);
        assert(x[0] == a@[k as int] && y[0] == b@[k as int]);
        assert(x.drop_first() =~= a@.skip(k + 1) && y.drop_first() =~= b@.skip(k + 1));
        if a[k] != b[k] {
            return a[k] < b[k];
        }
        k += 1;
    }
    k < b.len()
}

/// Whether each character stands behind a smaller one.
pub fn chars_ascend(chars: &Vec<char>) -> (r: bool)
    ensures
        r == chars_strictly_ascending(chars@),
{
    let mut k: usize = 1;
    while k < chars.len()
        invariant
            1 <= k,
            forall|i: int, j: int| 0 <= i < j < k && j < chars@.len() ==> chars@[i] < chars@[j],
        decreases chars@.len() - k,
    {
        if !(chars[k - 1] < chars[k]) {
            return false;
        }
        assert forall|i: int, j: int| 0 <= i < j < k + 1 && j < chars@.len() implies chars@[i]
            < chars@[j] by {
            if j == k && i < k - 1 {
                assert(chars@[i] < chars@[k - 1]);
            }
        }
        k += 1;
    }
    true
}

impl CharacterStore {
    /// Whether the alphabet is valid.
    pub fn is_valid(&self) -> (r: bool)
        ensures
            r == self.wf(),
    {
        self.characters.len() <= 0x1_0000 && chars_ascend(&self.characters)
    }
}

/// Whether each text stands behind a smaller one, byte for byte.
pub fn texts_ascend(texts: &Vec<String>) -> (r: bool)
    ensures
        r == bases_strictly_ascending(bases_of(texts@)),
{
    let ghost bases = bases_of(texts@);
    let count: usize = texts.len();
    let mut k: usize = 1;
    while k < count
        invariant
            bases == bases_of(texts@),
            count == texts@.len(),
            1 <= k,
            forall|i: int, j: int| 0 <= i < j < k && j < count ==> bytes_lt(bases[i], bases[j]),
        decreases count - k,
    {
        let before: &[u8] = texts[k - 1].as_str().as_bytes();
        let here: &[u8] = texts[k].as_str().as_bytes();
        assert(before@ == bases[k - 1] && here@ == bases[k as int]);
        if !bytes_less(before, here) {
            return false;
        }
        assert forall|i: int, j: int| 0 <= i < j < k + 1 && j < count implies bytes_lt(
            bases[i],
            bases[j],
        ) by {
            if j == k && i < k - 1 {
                lemma_bytes_lt_transitive(bases[i], bases[k - 1], bases[k as int]);
            }
        }
        k += 1;
    }
    true
}

impl JyutpingStore {
    /// Whether the alphabet is valid.
    pub fn is_valid(&self) -> (r: bool)
        ensures
            r == self.wf(),
    {
        let count: usize = self.base_strings.len();
        if count > MAX_BASES || !texts_ascend(&self.base_strings) {
            return false;
        }
        assert(self@ =~= bases_of(self.base_strings@));
        let mut k: usize = 0;
        while k < count
            invariant
                count == self.base_strings@.len(),
                k <= count,
                forall|i: int| 0 <= i < k ==> (#[trigger] self@[i]).len() <= 0xff_ffff,
            decreases count - k,
        {
            let here: &[u8] = self.base_strings[k].as_str().as_bytes();
            assert(here@ == self@[k as int]);
            if here.len() > MAX_BASE_BYTES {
                return false;
            }
            k += 1;
        }
        true
    }
}

impl TextMap {
    /// Whether the map is valid and none of its sets is empty.
    pub fn is_valid(&self) -> (r: bool)
        ensures
            r == (self.wf() && self.sets_nonempty()),
    {
        let count: usize = self.values.len();
        if self.keys.len() != count || !texts_ascend(&self.keys) {
            return false;
        }
        let mut k: usize = 0;
        while k < count
            invariant
                count == self.values@.len(),
                k <= count,
                forall|i: int| 0 <= i < k ==> (#[trigger] self.values@[i])@.len() > 0,
            decreases count - k,
        {
            if self.values[k].inner.len() == 0 {
                return false;
            }
            k += 1;
        }
        true
    }
}

impl CompiledDictionary {
    /// Whether the entry fits this dictionary.
    pub fn entry_is_valid(&self, entry: &CompiledDictionaryEntry) -> (r: bool)
        ensures
            r == self.entry_wf(entry),
    {
        if entry.characters.len() >= 128 || entry.jyutping.len() >= 256 {
            return false;
        }
        let mut k: usize = 0;
        while k < entry.characters.len()
            invariant
                k <= entry.characters@.len(),
                forall|i: int|
                    0 <= i < k ==> (#[trigger] entry.characters@[i])
                        < self.character_store.characters@.len(),
            decreases entry.characters@.len() - k,
        {
            if entry.characters[k] as usize >= self.character_store.characters.len() {
                return false;
            }
            k += 1;
        }
        let bases: usize = self.jyutping_store.base_strings.len();
        let mut n: usize = 0;
        while n < entry.jyutping.len()
            invariant
                bases == self.jyutping_store@.len(),
                n <= entry.jyutping@.len(),
                forall|i: int|
                    0 <= i < n ==> (#[trigger] entry.jyutping@[i]).tone <= 6
                        && entry.jyutping@[i].base < self.jyutping_store@.len(),
            decreases entry.jyutping@.len() - n,
        {
            if entry.jyutping[n].tone > MAX_TONE || entry.jyutping[n].base as usize >= bases {
                return false;
            }
            n += 1;
        }
        let flags: u8 = entry.flags;
        assert((flags & 0x3 != 0) == (flags % 4 != 0)) by (bit_vector);
        entry.english_start <= entry.english_end && entry.english_end - entry.english_start < 256
            && (entry.english_end as usize) < self.english_data_starts.len() && entry.flags & 0x3
            != 0
    }

    /// Whether the offsets never fall and stay inside the blob, and counts
    /// fit 32 bits.
    pub fn starts_are_valid(&self) -> (r: bool)
        ensures
            r == self.starts_wf(),
    {
        if self.english_data.len() > 0xffff_ffff || self.english_data_starts.len() > 0xffff_ffff {
            return false;
        }
        let mut k: usize = 0;
        while k < self.english_data_starts.len()
            invariant
                self.english_data@.len() <= u32::MAX,
                self.english_data_starts@.len() <= u32::MAX,
                k <= self.english_data_starts@.len(),
                forall|i: int, j: int|
                    0 <= i <= j < k ==> self.english_data_starts@[i]
                        <= self.english_data_starts@[j],
                forall|i: int|
                    0 <= i < k ==> #[trigger] self.english_data_starts@[i]
                        <= self.english_data@.len(),
            decreases self.english_data_starts@.len() - k,
        {
            if self.english_data_starts[k] as usize > self.english_data.len() {
                return false;
            }
            if k > 0 && self.english_data_starts[k - 1] > self.english_data_starts[k] {
                return false;
            }
            assert forall|i: int, j: int| 0 <= i <= j < k + 1 implies self.english_data_starts@[i]
                <= self.english_data_starts@[j] by {
                if j == k && i < k - 1 {
                    assert(self.english_data_starts@[i] <= self.english_data_starts@[k - 1]);
                }
            }
            k += 1;
        }
        true
    }

    /// Whether every definition is a text; the offsets must be valid.
    pub fn definitions_are_valid(&self) -> (r: bool)
        requires
            self.starts_wf(),
        ensures
            r == self@.definitions_are_text(),
    {
        let count: usize = self.english_data_starts.len();
        if count == 0 {
            return true;
        }
        let mut k: usize = 0;
        while k + 1 < count
            invariant
                self.starts_wf(),
                count == self.english_data_starts@.len(),
                k < count,
                forall|i: int| 0 <= i < k ==> valid_utf8(#[trigger] self@.definition(i)),
            decreases count - k,
        {
            let start: usize = self.english_data_starts[k] as usize;
            let end: usize = self.english_data_starts[k + 1] as usize;
            assert(self.english_data_starts@[k as int] <= self.english_data_starts@[k + 1]);
            let definition: &[u8] = &self.english_data.as_slice()[start..end];
            assert(definition@ == self@.definition(k as int));
            if str_from_utf8(definition).is_none() {
                return false;
            }
            k += 1;
        }
        true
    }

    /// Whether the entries stand in ascending order of cost and each takes up
    /// the definitions where the one before it left off.
    pub fn entries_are_chained(&self) -> (r: bool)
        ensures
            r == self@.entries_chained(),
    {
        let count: usize = self.entries.len();
        if count > 0 && self.entries[0].english_start != 0 {
            assert(self@.entries[0] == self.entries@[0]@);
            return false;
        }
        if count == 0 {
            return true;
        }
        let mut k: usize = 0;
        while k + 1 < count
            invariant
                count == self.entries@.len(),
                k < count,
                count > 0 ==> self.entries@[0].english_start == 0,
                forall|i: int|
                    0 <= i < k && i < count - 1 ==> (#[trigger] self@.entries[i]).english_end
                        == self@.entries[i + 1].english_start && self@.entries[i].cost
                        <= self@.entries[i + 1].cost,
            decreases count - k,
        {
            assert(self@.entries[k as int] == self.entries@[k as int]@);
            assert(self@.entries[k + 1] == self.entries@[k + 1]@);
            if self.entries[k].english_end != self.entries[k + 1].english_start
                || self.entries[k].cost > self.entries[k + 1].cost {
                return false;
            }
            k += 1;
        }
        if count > 0 {
            assert(self@.entries[0] == self.entries@[0]@);
        }
        true
    }

    /// Whether the dictionary is valid.
    pub fn is_valid(&self) -> (r: bool)
        ensures
            r == self.wf(),
    {
        proof {
            assert forall|i: int| 0 <= i < self@.syllables.len() implies valid_utf8(
                #[trigger] self@.syllables[i],
            ) by {
                encode_utf8_valid_utf8(self.jyutping_store.base_strings@[i]@);
            }
        }
        if !self.character_store.is_valid() || !self.jyutping_store.is_valid() {
            return false;
        }
        if self.entries.len() > 0xffff_ffff {
            return false;
        }
        if !self.starts_are_valid() {
            return false;
        }
        let mut k: usize = 0;
        while k < self.entries.len()
            invariant
                k <= self.entries@.len(),
                forall|i: int| 0 <= i < k ==> self@.entry_wf(#[trigger] self@.entries[i]),
            decreases self.entries@.len() - k,
        {
            assert(self@.entries[k as int] == self.entries@[k as int]@);
            if !self.entry_is_valid(&self.entries[k]) {
                return false;
            }
            k += 1;
        }
        if !self.entries_are_chained() {
            return false;
        }
        self.definitions_are_valid()
    }
}

} // verus!
