//! The dictionary as it is held in memory: two alphabets, the entries packed
//! over them, and the English definitions in one blob.

use crate::reconstruct_match::spec_jyutping_display;
use crate::text::{
    digit_char, lemma_encode_utf8_concat, lemma_encode_utf8_push_ascii, push_char, str_from_utf8,
};
use crate::EntrySource;
use vstd::prelude::*;
use vstd::string::*;
use vstd::utf8::*;

verus! {

/// Magic bytes that open a serialized dictionary.
pub const FILE_HEADER: [u8; 8] = [0x6a, 0x79, 0x70, 0x5f, 0x64, 0x69, 0x63, 0x74];

/// Magic bytes that open the English blob of a serialized dictionary.
pub const ENGLISH_BLOB_HEADER: [u8; 8] = [0x65, 0x6e, 0x5f, 0x64, 0x61, 0x74, 0x61, 0x5f];

/// The only format version that is read and written.
pub const CURRENT_VERSION: u32 = 8;

/// Flag bit of an entry taken from CEDICT.
pub const FLAG_SOURCE_CEDICT: u8 = 0x1;

/// Flag bit of an entry taken from CC-Canto.
pub const FLAG_SOURCE_CCCANTO: u8 = 0x2;

/// Number of syllable bases that a packed syllable can tell apart.
pub const MAX_BASES: usize = 0x2000;

/// Highest tone of a syllable.
pub const MAX_TONE: u8 = 6;

/// Most bytes that a syllable base may have, so that the romanisation of an
/// entry, of 255 syllables at most, can be measured in 32 bits.
pub const MAX_BASE_BYTES: usize = 0xff_ffff;

/// A syllable: the position of its base in the syllable alphabet, and its tone.
#[derive(Debug, Clone, Copy, PartialEq, Eq, Structural, PartialOrd, Ord)]
pub struct Jyutping {
    pub base: u16,
    pub tone: u8,
}

impl Jyutping {
    /// The syllable can be packed: its base takes 13 bits and its tone is one of 0 to 6.
    pub open spec fn wf(self) -> bool {
        self.base < 0x2000 && self.tone <= 6
    }

    /// The base in the low 13 bits, the tone in the 3 bits above.
    pub open spec fn spec_pack(self) -> u16 {
        (self.base + self.tone * 0x2000) as u16
    }

    /// The syllable that a 16-bit cell holds.
    pub open spec fn spec_unpack(packed: u16) -> Jyutping {
        Jyutping { base: (packed % 0x2000) as u16, tone: (packed / 0x2000) as u8 }
    }

    /// Packs base and tone into 16 bits.
    pub fn pack(self) -> (packed: u16)
        requires
            self.wf(),
        ensures
            packed == self.spec_pack(),
            packed < 0xe000,
    {
        let base: u16 = self.base;
        let tone: u16 = self.tone as u16;
        assert(base | (tone << 13) == base + tone * 0x2000) by (bit_vector)
            requires
                base < 0x2000,
                tone <= 6,
        ;
        base | (tone << 13)
    }

    /// Takes a 16-bit cell apart into base and tone; a cell whose tone bits
    /// say 7 holds no syllable.
    pub fn unpack(packed: u16) -> (j: Jyutping)
        requires
            packed < 0xe000,
        ensures
            j == Self::spec_unpack(packed),
            j.wf(),
    {
        let base: u16 = packed & 0x1FFF;
        let tone: u16 = (packed & 0xE000) >> 13;
        assert(base == packed % 0x2000 && tone == packed / 0x2000) by (bit_vector)
            requires
                base == packed & 0x1FFF,
                tone == (packed & 0xE000) >> 13,
        ;
        Jyutping { base, tone: tone as u8 }
    }
}

/// Unpacking a packed syllable gives the syllable back.
pub proof fn lemma_pack_unpack(j: Jyutping)
    requires
        j.wf(),
    ensures
        Jyutping::spec_unpack(j.spec_pack()) == j,
        j.spec_pack() < 0xe000,
{
}

/// Packing an unpacked cell gives the cell back.
pub proof fn lemma_unpack_pack(packed: u16)
    requires
        packed < 0xe000,
    ensures
        Jyutping::spec_unpack(packed).wf(),
        Jyutping::spec_unpack(packed).spec_pack() == packed,
{
}

/// The characters of the dictionary in ascending order; a character's position is its id.
#[derive(Debug, Clone)]
pub struct CharacterStore {
    pub characters: Vec<char>,
}

/// No character stands before a smaller one or beside an equal one.
pub open spec fn chars_strictly_ascending(chars: Seq<char>) -> bool {
    forall|i: int, j: int| 0 <= i < j < chars.len() ==> chars[i] < chars[j]
}

impl CharacterStore {
    /// The characters are strictly ascending and few enough for 16-bit ids.
    pub open spec fn wf(&self) -> bool {
        &&& chars_strictly_ascending(self.characters@)
        &&& self.characters@.len() <= 0x1_0000
    }

    /// The id of `c`, if the alphabet holds it; found by binary search.
    pub fn char_to_index(&self, c: char) -> (r: Option<u16>)
        requires
            self.wf(),
        ensures
            match r {
                Some(id) => id < self.characters@.len() && self.characters@[id as int] == c,
                None => !self.characters@.contains(c),
            },
    {
        let mut low: usize = 0;
        let mut high: usize = self.characters.len();
        while low < high
            invariant
                self.wf(),
                low <= high <= self.characters@.len(),
                forall|k: int| 0 <= k < low ==> self.characters@[k] < c,
                forall|k: int|
                    high <= k < self.characters@.len() ==> c < self.characters@[k],
            decreases high - low,
        {
            let mid: usize = low + (high - low) / 2;
            let here: char = self.characters[mid];
            if here == c {
                return Some(mid as u16);
            } else if here < c {
                low = mid + 1;
            } else {
                high = mid;
            }
        }
        None
    }
}

/// `a` comes before `b` in the order of their bytes, a proper prefix before
/// what it is a prefix of.
pub open spec fn bytes_lt(a: Seq<u8>, b: Seq<u8>) -> bool
    decreases a.len(),
{
    if b.len() == 0 {
        false
    } else if a.len() == 0 {
        true
    } else if a[0] != b[0] {
        a[0] < b[0]
    } else {
        bytes_lt(a.drop_first(), b.drop_first())
    }
}

/// The bytes of a text.
pub open spec fn text_bytes(text: Seq<char>) -> Seq<u8> {
    encode_utf8(text)
}

/// The syllable bases of the dictionary in ascending order; a base's position is its id.
#[derive(Debug, Clone)]
pub struct JyutpingStore {
    pub base_strings: Vec<String>,
}

/// No byte string stands before a smaller one or beside an equal one.
pub open spec fn bases_strictly_ascending(bases: Seq<Seq<u8>>) -> bool {
    forall|i: int, j: int| 0 <= i < j < bases.len() ==> bytes_lt(bases[i], bases[j])
}

impl JyutpingStore {
    /// The bases as byte strings.
    pub open spec fn view(&self) -> Seq<Seq<u8>> {
        Seq::new(self.base_strings@.len(), |i: int| text_bytes(self.base_strings@[i]@))
    }

    /// The bases are strictly ascending, few enough for 13-bit ids, and none
    /// is longer than `MAX_BASE_BYTES`.
    pub open spec fn wf(&self) -> bool {
        &&& bases_strictly_ascending(self@)
        &&& self@.len() <= 0x2000
        &&& forall|i: int| 0 <= i < self@.len() ==> (#[trigger] self@[i]).len() <= 0xff_ffff
    }
}

/// One record of the dictionary.
#[derive(Debug, Clone)]
pub struct CompiledDictionaryEntry {
    pub characters: Vec<u16>,
    pub jyutping: Vec<Jyutping>,
    pub english_start: u32,
    pub english_end: u32,
    pub cost: u32,
    pub flags: u8,
}

impl CompiledDictionaryEntry {
    /// The entry says where it was taken from.
    pub open spec fn has_source(&self) -> bool {
        self.flags % 4 != 0
    }

    /// The source that the flags name; CEDICT where both bits are set.
    pub open spec fn spec_source(&self) -> EntrySource {
        if self.flags % 2 == 1 {
            EntrySource::CEDict
        } else {
            EntrySource::CCanto
        }
    }

    /// The source of the entry.
    pub fn get_source(&self) -> (source: EntrySource)
        requires
            self.has_source(),
        ensures
            source == self.spec_source(),
    {
        let flags: u8 = self.flags;
        assert((flags & 0x1 != 0) == (flags % 2 == 1) && (flags % 4 != 0 && flags % 2 != 1 ==> flags
            & 0x2 != 0)) by (bit_vector);
        if self.flags & FLAG_SOURCE_CEDICT != 0 {
            EntrySource::CEDict
        } else {
            EntrySource::CCanto
        }
    }
}

/// A dictionary ready to be searched.
#[derive(Debug)]
pub struct CompiledDictionary {
    pub character_store: CharacterStore,
    pub jyutping_store: JyutpingStore,
    pub entries: Vec<CompiledDictionaryEntry>,
    pub english_data: Vec<u8>,
    pub english_data_starts: Vec<u32>,
}

/// What an entry holds.
pub struct EntryModel {
    pub characters: Seq<u16>,
    pub jyutping: Seq<Jyutping>,
    pub english_start: u32,
    pub english_end: u32,
    pub cost: u32,
    pub flags: u8,
}

/// What a dictionary holds.
pub struct DictionaryModel {
    pub characters: Seq<char>,
    pub syllables: Seq<Seq<u8>>,
    pub entries: Seq<EntryModel>,
    pub english_data: Seq<u8>,
    pub english_data_starts: Seq<u32>,
}

impl DictionaryModel {
    /// Entry `e` fits this dictionary: its ids lie in the alphabets, its
    /// syllables can be packed, its lengths fit the record, its definitions
    /// lie in the offset table, and it names its source.
    pub open spec fn entry_wf(self, e: EntryModel) -> bool {
        &&& e.characters.len() < 128
        &&& forall|k: int|
            0 <= k < e.characters.len() ==> (#[trigger] e.characters[k]) < self.characters.len()
        &&& e.jyutping.len() < 256
        &&& forall|k: int|
            0 <= k < e.jyutping.len() ==> (#[trigger] e.jyutping[k]).tone <= 6
                && e.jyutping[k].base < self.syllables.len()
        &&& e.english_start <= e.english_end
        &&& e.english_end - e.english_start < 256
        &&& e.english_end < self.english_data_starts.len()
        &&& e.flags % 4 != 0
    }

    /// Definition `i` of the blob: the bytes from its offset to the next one.
    pub open spec fn definition(self, i: int) -> Seq<u8> {
        self.english_data.subrange(
            self.english_data_starts[i] as int,
            self.english_data_starts[i + 1] as int,
        )
    }

    /// Every definition is a text.
    pub open spec fn definitions_are_text(self) -> bool {
        forall|i: int|
            0 <= i < self.english_data_starts.len() - 1 ==> valid_utf8(#[trigger] self.definition(i))
    }

    /// The offsets never fall and stay inside the blob.
    pub open spec fn starts_wf(self) -> bool {
        &&& self.english_data.len() <= u32::MAX
        &&& self.english_data_starts.len() <= u32::MAX
        &&& forall|i: int, j: int|
            0 <= i <= j < self.english_data_starts.len() ==> self.english_data_starts[i]
                <= self.english_data_starts[j]
        &&& forall|i: int|
            0 <= i < self.english_data_starts.len() ==> #[trigger] self.english_data_starts[i]
                <= self.english_data.len()
    }

    /// The entries stand in ascending order of cost, and each takes up the
    /// definitions where the one before it left off, the first at 0.
    pub open spec fn entries_chained(self) -> bool {
        &&& self.entries.len() > 0 ==> self.entries[0].english_start == 0
        &&& forall|i: int|
            0 <= i < self.entries.len() - 1 ==> (#[trigger] self.entries[i]).english_end
                == self.entries[i + 1].english_start && self.entries[i].cost <= self.entries[i
                + 1].cost
    }

    /// Both alphabets are strictly ascending and within their sizes.
    pub open spec fn alphabets_wf(self) -> bool {
        &&& chars_strictly_ascending(self.characters)
        &&& self.characters.len() <= 0x1_0000
        &&& bases_strictly_ascending(self.syllables)
        &&& self.syllables.len() <= 0x2000
        &&& forall|i: int|
            0 <= i < self.syllables.len() ==> (#[trigger] self.syllables[i]).len() <= 0xff_ffff
                && valid_utf8(self.syllables[i])
    }

    /// The dictionary is valid: both alphabets are in order, every entry fits,
    /// the entries are ordered and chained, the offsets are sound, and every
    /// definition is a text.
    pub open spec fn wf(self) -> bool {
        &&& self.alphabets_wf()
        &&& self.entries.len() <= u32::MAX
        &&& forall|i: int| 0 <= i < self.entries.len() ==> self.entry_wf(#[trigger] self.entries[i])
        &&& self.entries_chained()
        &&& self.starts_wf()
        &&& self.definitions_are_text()
    }
}

impl CompiledDictionaryEntry {
    /// What the entry holds.
    pub open spec fn view(&self) -> EntryModel {
        EntryModel {
            characters: self.characters@,
            jyutping: self.jyutping@,
            english_start: self.english_start,
            english_end: self.english_end,
            cost: self.cost,
            flags: self.flags,
        }
    }
}

impl CompiledDictionary {
    /// What the dictionary holds.
    pub open spec fn view(&self) -> DictionaryModel {
        DictionaryModel {
            characters: self.character_store.characters@,
            syllables: self.jyutping_store@,
            entries: Seq::new(self.entries@.len(), |i: int| self.entries@[i]@),
            english_data: self.english_data@,
            english_data_starts: self.english_data_starts@,
        }
    }

    /// Entry `e` fits this dictionary.
    pub open spec fn entry_wf(&self, e: &CompiledDictionaryEntry) -> bool {
        self@.entry_wf(e@)
    }

    /// Definition `i` of the blob: the bytes from its offset to the next one.
    pub open spec fn spec_definition(&self, i: int) -> Seq<u8> {
        self@.definition(i)
    }

    /// The offsets never fall and stay inside the blob.
    pub open spec fn starts_wf(&self) -> bool {
        self@.starts_wf()
    }

    /// The dictionary is valid: both alphabets are in order, every entry fits,
    /// the entries are ordered and chained, the offsets are sound, and every
    /// definition is a text.
    pub open spec fn wf(&self) -> bool {
        self@.wf()
    }

    /// In a valid dictionary the two alphabets are valid, and every entry fits.
    pub proof fn lemma_wf_parts(&self)
        requires
            self.wf(),
        ensures
            self.character_store.wf(),
            self.jyutping_store.wf(),
            self.starts_wf(),
            forall|i: int| 0 <= i < self.entries@.len() ==> self.entry_wf(#[trigger] &self.entries@[i]),
    {
        assert forall|i: int| 0 <= i < self.entries@.len() implies self.entry_wf(
            #[trigger] &self.entries@[i],
        ) by {
            assert(self@.entry_wf(self@.entries[i]));
        }
    }
}

/// An entry as it is shown: its characters, its romanisation, and its
/// definitions as texts.
#[derive(Debug)]
pub struct DisplayDictionaryEntry {
    pub characters: String,
    pub jyutping: String,
    pub english_definitions: Vec<String>,
    pub cost: u32,
    pub entry_source: EntrySource,
}

/// The characters that the ids stand for.
pub open spec fn spec_display_characters(alphabet: Seq<char>, ids: Seq<u16>) -> Seq<char> {
    Seq::new(ids.len(), |k: int| alphabet[ids[k] as int])
}

impl DisplayDictionaryEntry {
    /// The entry shows what `entry` holds in `dict`.
    pub open spec fn shows(&self, entry: &CompiledDictionaryEntry, dict: &CompiledDictionary) -> bool {
        &&& self.characters@ == spec_display_characters(
            dict.character_store.characters@,
            entry.characters@,
        )
        &&& text_bytes(self.jyutping@) == spec_jyutping_display(
            dict.jyutping_store@,
            entry.jyutping@,
            entry.jyutping@.len() as int,
        )
        &&& self.english_definitions@.len() == entry.english_end - entry.english_start
        &&& forall|k: int|
            0 <= k < self.english_definitions@.len() ==> text_bytes(
                (#[trigger] self.english_definitions@[k])@,
            ) == dict.spec_definition(entry.english_start + k)
        &&& self.cost == entry.cost
        &&& self.entry_source == entry.spec_source()
    }

    /// Writes out what an entry holds.
    pub fn from_entry(entry: &CompiledDictionaryEntry, dict: &CompiledDictionary) -> (shown: Self)
        requires
            dict.wf(),
            dict.entry_wf(entry),
        ensures
            shown.shows(entry, dict),
    {
        let ghost alphabet = dict.jyutping_store@;
        let mut characters: String = String::new();
        let mut k: usize = 0;
        while k < entry.characters.len()
            invariant
                dict.entry_wf(entry),
                k <= entry.characters@.len(),
                characters@ == spec_display_characters(
                    dict.character_store.characters@,
                    entry.characters@.take(k as int),
                ),
            decreases entry.characters@.len() - k,
        {
            let id: u16 = entry.characters[k];
            push_char(&mut characters, dict.character_store.characters[id as usize]);
            assert(characters@ =~= spec_display_characters(
                dict.character_store.characters@,
                entry.characters@.take(k + 1),
            ));
            k += 1;
        }
        assert(entry.characters@.take(entry.characters@.len() as int) =~= entry.characters@);

        let mut jyutping: String = String::new();
        let mut n: usize = 0;
        assert(text_bytes(jyutping@) =~= spec_jyutping_display(alphabet, entry.jyutping@, 0));
        while n < entry.jyutping.len()
            invariant
                dict.entry_wf(entry),
                alphabet == dict.jyutping_store@,
                n <= entry.jyutping@.len(),
                text_bytes(jyutping@) == spec_jyutping_display(alphabet, entry.jyutping@, n as int),
            decreases entry.jyutping@.len() - n,
        {
            let syllable: Jyutping = entry.jyutping[n];
            if n > 0 {
                proof {
                    lemma_encode_utf8_push_ascii(jyutping@, ' ');
                }
                push_char(&mut jyutping, ' ');
            }
            let base: &str = dict.jyutping_store.base_strings[syllable.base as usize].as_str();
            proof {
                lemma_encode_utf8_concat(jyutping@, base@);
                assert(text_bytes(base@) == alphabet[syllable.base as int]);
            }
            jyutping.append(base);
            let digit: char = digit_char(syllable.tone);
            proof {
                lemma_encode_utf8_push_ascii(jyutping@, digit);
            }
            push_char(&mut jyutping, digit);
            n += 1;
        }

        let mut english_definitions: Vec<String> = Vec::new();
        let mut i: u32 = entry.english_start;
        while i < entry.english_end
            invariant
                dict.wf(),
                dict.entry_wf(entry),
                entry.english_start <= i <= entry.english_end,
                english_definitions@.len() == i - entry.english_start,
                forall|k: int|
                    0 <= k < english_definitions@.len() ==> text_bytes(
                        (#[trigger] english_definitions@[k])@,
                    ) == dict.spec_definition(entry.english_start + k),
            decreases entry.english_end - i,
        {
            let start: usize = dict.english_data_starts[i as usize] as usize;
            let end: usize = dict.english_data_starts[i as usize + 1] as usize;
            let blob: &[u8] = &dict.english_data.as_slice()[start..end];
            assert(blob@ == dict.spec_definition(i as int));
            assert(valid_utf8(dict@.definition(i as int)));
            let definition: String = match str_from_utf8(blob) {
                Some(text) => text.to_owned(),
                None => String::new(),
            };
            english_definitions.push(definition);
            i += 1;
        }
        let entry_source: EntrySource = entry.get_source();
        Self { characters, jyutping, english_definitions, cost: entry.cost, entry_source }
    }
}

impl CompiledDictionary {
    /// Entry `i` as it is shown.
    pub fn get_display_entry(&self, i: usize) -> (shown: DisplayDictionaryEntry)
        requires
            self.wf(),
            i < self.entries@.len(),
        ensures
            shown.shows(&self.entries@[i as int], self),
    {
        proof {
            self.lemma_wf_parts();
        }
        DisplayDictionaryEntry::from_entry(&self.entries[i], self)
    }

    /// Entry `i` as it is shown; the older name of `get_display_entry`.
    pub fn get_diplay_entry(&self, i: usize) -> (shown: DisplayDictionaryEntry)
        requires
            self.wf(),
            i < self.entries@.len(),
        ensures
            shown.shows(&self.entries@[i as int], self),
    {
        self.get_display_entry(i)
    }
}

impl Default for CharacterStore {
    /// An alphabet without characters.
    fn default() -> (store: Self)
        ensures
            store.characters@ == Seq::<char>::empty(),
            store.wf(),
    {
        CharacterStore { characters: Vec::new() }
    }
}

impl Default for JyutpingStore {
    /// An alphabet without bases.
    fn default() -> (store: Self)
        ensures
            store.base_strings@ == Seq::<String>::empty(),
            store.wf(),
    {
        JyutpingStore { base_strings: Vec::new() }
    }
}

impl Default for CompiledDictionaryEntry {
    /// An entry that holds nothing and costs nothing.
    fn default() -> (entry: Self)
        ensures
            entry.characters@ == Seq::<u16>::empty(),
            entry.jyutping@ == Seq::<Jyutping>::empty(),
            entry.english_start == 0,
            entry.english_end == 0,
            entry.cost == 0,
            entry.flags == 0,
    {
        CompiledDictionaryEntry {
            characters: Vec::new(),
            jyutping: Vec::new(),
            english_start: 0,
            english_end: 0,
            cost: 0,
            flags: 0,
        }
    }
}

} // verus!
