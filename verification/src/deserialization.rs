//! Reading a dictionary out of bytes.

use crate::compiled_dictionary::{
    text_bytes, CharacterStore, CompiledDictionary, CompiledDictionaryEntry, DictionaryModel,
    EntryModel, Jyutping, JyutpingStore,
};
use crate::data_reader::DataReader;
use crate::format::{
    absolute_entries, absolute_starts, assemble, char_reader, p_blob, p_counted, p_dictionary,
    p_from_blob, p_from_characters, p_from_entries, p_from_starts, p_from_syllables, p_list,
    p_raw_entry, p_short_list, p_stored, p_u32, p_u8, raw_entry_reader, spec_blob_header,
    spec_file_header, text_reader, u16_reader, vbyte_reader, RawEntry, StoredDictionary,
};
use vstd::prelude::*;
use vstd::string::*;
use vstd::utf8::*;

verus! {

/// Once an item cannot be read, a longer list cannot be read either.
pub proof fn lemma_list_fails<T>(
    p: spec_fn(Seq<u8>) -> Option<(T, int)>,
    rest: Seq<u8>,
    count: int,
    more: int,
)
    requires
        count <= more,
        p_list(p, rest, count) is None,
    ensures
        p_list(p, rest, more) is None,
    decreases more - count,
{
    if count < more {
        lemma_list_fails(p, rest, count, more - 1);
    }
}

/// The reader has moved on over the same buffer and stands inside it.
pub open spec fn went_on(after: &DataReader, before: &DataReader) -> bool {
    &&& after.data == before.data
    &&& before.position <= after.position <= after.data@.len()
}

/// Reading on from where `used` bytes of `rest` have been read is reading
/// on in the buffer.
proof fn lemma_rest_skip(data: Seq<u8>, at: int, used: int)
    requires
        0 <= at,
        0 <= used,
        at + used <= data.len(),
    ensures
        data.skip(at).skip(used) == data.skip(at + used),
{
    assert(data.skip(at).skip(used) =~= data.skip(at + used));
}

/// Reads a 32-bit count and as many characters.
fn read_characters(reader: &mut DataReader) -> (r: Option<Vec<char>>)
    requires
        old(reader).has(0),
    ensures
        final(reader).data == old(reader).data,
        match r {
            Some(items) => went_on(final(reader), old(reader)) && p_counted(
                char_reader(),
                old(reader).rest(),
            ) == Some((items@, final(reader).position - old(reader).position)),
            None => p_counted(char_reader(), old(reader).rest()) is None,
        },
{
    let ghost rest0 = reader.rest();
    let ghost start = reader.position;
    if reader.remaining() < 4 {
        return None;
    }
    let count: u32 = reader.read_u32();
    let ghost body = rest0.skip(4);
    let mut items: Vec<char> = Vec::new();
    let mut i: u32 = 0;
    while i < count
        invariant
            reader.data == old(reader).data,
            rest0 == old(reader).rest(),
            start == old(reader).position,
            start + 4 <= reader.position <= reader.data@.len(),
            body == rest0.skip(4),
            i <= count,
            p_u32(rest0) == Some((count, 4int)),
            p_list(char_reader(), body, i as int) == Some(
                (items@, reader.position - start - 4),
            ),
        decreases count - i,
    {
        proof {
            lemma_rest_skip(reader.data@, start as int, 4);
            lemma_rest_skip(reader.data@, start + 4, reader.position - start - 4);
            assert(body.skip(reader.position - start - 4) == reader.rest());
        }
        if reader.remaining() < 4 {
            proof {
                assert(p_list(char_reader(), body, i + 1) is None);
                lemma_list_fails(char_reader(), body, i + 1, count as int);
            }
            return None;
        }
        match reader.try_read_utf8_char() {
            Some(c) => {
                items.push(c);
            },
            None => {
                proof {
                    assert(p_list(char_reader(), body, i + 1) is None);
                    lemma_list_fails(char_reader(), body, i + 1, count as int);
                }
                return None;
            },
        }
        i += 1;
    }
    Some(items)
}

/// Reads a 32-bit count and as many texts.
fn read_texts(reader: &mut DataReader) -> (r: Option<Vec<String>>)
    requires
        old(reader).has(0),
    ensures
        final(reader).data == old(reader).data,
        match r {
            Some(items) => went_on(final(reader), old(reader)) && p_counted(
                text_reader(),
                old(reader).rest(),
            ) == Some(
                (
                    Seq::new(items@.len(), |k: int| text_bytes(items@[k]@)),
                    final(reader).position - old(reader).position,
                ),
            ),
            None => p_counted(text_reader(), old(reader).rest()) is None,
        },
{
    let ghost rest0 = reader.rest();
    let ghost start = reader.position;
    if reader.remaining() < 4 {
        return None;
    }
    let count: u32 = reader.read_u32();
    let ghost body = rest0.skip(4);
    let mut items: Vec<String> = Vec::new();
    let mut i: u32 = 0;
    assert(Seq::new(items@.len(), |k: int| text_bytes(items@[k]@)) =~= Seq::<Seq<u8>>::empty());
    while i < count
        invariant
            reader.data == old(reader).data,
            rest0 == old(reader).rest(),
            start == old(reader).position,
            start + 4 <= reader.position <= reader.data@.len(),
            body == rest0.skip(4),
            i <= count,
            p_u32(rest0) == Some((count, 4int)),
            p_list(text_reader(), body, i as int) == Some(
                (
                    Seq::new(items@.len(), |k: int| text_bytes(items@[k]@)),
                    reader.position - start - 4,
                ),
            ),
        decreases count - i,
    {
        proof {
            lemma_rest_skip(reader.data@, start as int, 4);
            lemma_rest_skip(reader.data@, start + 4, reader.position - start - 4);
            assert(body.skip(reader.position - start - 4) == reader.rest());
        }
        let ghost before = Seq::new(items@.len(), |k: int| text_bytes(items@[k]@));
        let ghost at = *reader;
        match reader.try_read_string() {
            Some(text) => {
                proof {
                    crate::endian::lemma_le_value_bound(at.rest(), 4);
                }
                items.push(text.to_owned());
                assert(Seq::new(items@.len(), |k: int| text_bytes(items@[k]@)) =~= before.push(
                    text.spec_bytes(),
                ));
            },
            None => {
                proof {
                    assert(p_list(text_reader(), body, i + 1) is None);
                    lemma_list_fails(text_reader(), body, i + 1, count as int);
                }
                return None;
            },
        }
        i += 1;
    }
    Some(items)
}

/// Reads an 8-bit count and as many 16-bit numbers.
fn read_short_list(reader: &mut DataReader) -> (r: Option<Vec<u16>>)
    requires
        old(reader).has(0),
    ensures
        final(reader).data == old(reader).data,
        match r {
            Some(items) => went_on(final(reader), old(reader)) && p_short_list(old(reader).rest())
                == Some((items@, final(reader).position - old(reader).position)),
            None => p_short_list(old(reader).rest()) is None,
        },
{
    let ghost rest0 = reader.rest();
    let ghost start = reader.position;
    if reader.remaining() < 1 {
        return None;
    }
    let count: u8 = reader.read_u8();
    let ghost body = rest0.skip(1);
    let mut items: Vec<u16> = Vec::new();
    let mut i: u8 = 0;
    while i < count
        invariant
            reader.data == old(reader).data,
            rest0 == old(reader).rest(),
            start == old(reader).position,
            start + 1 <= reader.position <= reader.data@.len(),
            body == rest0.skip(1),
            i <= count,
            p_u8(rest0) == Some((count, 1int)),
            p_list(u16_reader(), body, i as int) == Some((items@, reader.position - start - 1)),
        decreases count - i,
    {
        proof {
            lemma_rest_skip(reader.data@, start as int, 1);
            lemma_rest_skip(reader.data@, start + 1, reader.position - start - 1);
            assert(body.skip(reader.position - start - 1) == reader.rest());
        }
        if reader.remaining() < 2 {
            proof {
                assert(p_list(u16_reader(), body, i + 1) is None);
                lemma_list_fails(u16_reader(), body, i + 1, count as int);
            }
            return None;
        }
        let item: u16 = reader.read_u16();
        items.push(item);
        i += 1;
    }
    Some(items)
}

/// An entry as it was read, before its place among the others is known.
pub struct RawRecord {
    pub flags: u8,
    pub characters: Vec<u16>,
    pub syllables: Vec<u16>,
    pub english_count: u8,
    pub cost_delta: u64,
}

impl RawRecord {
    /// What the record holds.
    pub open spec fn view(&self) -> RawEntry {
        RawEntry {
            flags: self.flags,
            characters: self.characters@,
            syllables: self.syllables@,
            english_count: self.english_count,
            cost_delta: self.cost_delta as int,
        }
    }
}

/// What the records hold, in order.
pub open spec fn records_view(records: Seq<RawRecord>) -> Seq<RawEntry> {
    Seq::new(records.len(), |k: int| records[k]@)
}

/// Reads one entry as it is stored.
fn read_raw_entry(reader: &mut DataReader) -> (r: Option<RawRecord>)
    requires
        old(reader).has(0),
    ensures
        final(reader).data == old(reader).data,
        match r {
            Some(record) => went_on(final(reader), old(reader)) && p_raw_entry(old(reader).rest())
                == Some((record@, final(reader).position - old(reader).position)),
            None => p_raw_entry(old(reader).rest()) is None,
        },
{
    let ghost rest0 = reader.rest();
    let ghost start = reader.position;
    if reader.remaining() < 1 {
        return None;
    }
    let flags: u8 = reader.read_u8();
    proof {
        lemma_rest_skip(reader.data@, start as int, 1);
    }
    let characters: Vec<u16> = match read_short_list(reader) {
        Some(items) => items,
        None => {
            return None;
        },
    };
    let ghost n1 = reader.position - start - 1;
    proof {
        lemma_rest_skip(reader.data@, start as int, 1 + n1);
    }
    let syllables: Vec<u16> = match read_short_list(reader) {
        Some(items) => items,
        None => {
            return None;
        },
    };
    let ghost n2 = reader.position - start - 1 - n1;
    proof {
        lemma_rest_skip(reader.data@, start as int, 1 + n1 + n2);
    }
    if reader.remaining() < 1 {
        return None;
    }
    let english_count: u8 = reader.read_u8();
    proof {
        lemma_rest_skip(reader.data@, start as int, 2 + n1 + n2);
    }
    if reader.remaining() < 8 {
        return None;
    }
    let cost_delta: u64 = reader.read_vbyte();
    Some(RawRecord { flags, characters, syllables, english_count, cost_delta })
}

/// Reads a 32-bit count and as many entries as they are stored.
fn read_raw_entries(reader: &mut DataReader) -> (r: Option<Vec<RawRecord>>)
    requires
        old(reader).has(0),
    ensures
        final(reader).data == old(reader).data,
        match r {
            Some(items) => went_on(final(reader), old(reader)) && p_counted(
                raw_entry_reader(),
                old(reader).rest(),
            ) == Some((records_view(items@), final(reader).position - old(reader).position)),
            None => p_counted(raw_entry_reader(), old(reader).rest()) is None,
        },
{
    let ghost rest0 = reader.rest();
    let ghost start = reader.position;
    if reader.remaining() < 4 {
        return None;
    }
    let count: u32 = reader.read_u32();
    let ghost body = rest0.skip(4);
    let mut items: Vec<RawRecord> = Vec::new();
    let mut i: u32 = 0;
    assert(records_view(items@) =~= Seq::<RawEntry>::empty());
    while i < count
        invariant
            reader.data == old(reader).data,
            rest0 == old(reader).rest(),
            start == old(reader).position,
            start + 4 <= reader.position <= reader.data@.len(),
            body == rest0.skip(4),
            i <= count,
            p_u32(rest0) == Some((count, 4int)),
            p_list(raw_entry_reader(), body, i as int) == Some(
                (records_view(items@), reader.position - start - 4),
            ),
        decreases count - i,
    {
        proof {
            lemma_rest_skip(reader.data@, start as int, 4);
            lemma_rest_skip(reader.data@, start + 4, reader.position - start - 4);
            assert(body.skip(reader.position - start - 4) == reader.rest());
        }
        let ghost before = records_view(items@);
        match read_raw_entry(reader) {
            Some(record) => {
                let ghost model = record@;
                items.push(record);
                assert(records_view(items@) =~= before.push(model));
            },
            None => {
                proof {
                    assert(p_list(raw_entry_reader(), body, i + 1) is None);
                    lemma_list_fails(raw_entry_reader(), body, i + 1, count as int);
                }
                return None;
            },
        }
        i += 1;
    }
    Some(items)
}

/// The numbers as mathematical integers.
pub open spec fn as_ints(values: Seq<u64>) -> Seq<int> {
    Seq::new(values.len(), |k: int| values[k] as int)
}

/// Reads a 32-bit count and as many vbytes.
fn read_deltas(reader: &mut DataReader) -> (r: Option<Vec<u64>>)
    requires
        old(reader).has(0),
    ensures
        final(reader).data == old(reader).data,
        match r {
            Some(items) => went_on(final(reader), old(reader)) && p_from_starts(old(reader).rest())
                == Some((as_ints(items@), final(reader).position - old(reader).position)),
            None => p_from_starts(old(reader).rest()) is None,
        },
{
    let ghost rest0 = reader.rest();
    let ghost start = reader.position;
    if reader.remaining() < 4 {
        return None;
    }
    let count: u32 = reader.read_u32();
    let ghost body = rest0.skip(4);
    let mut items: Vec<u64> = Vec::new();
    let mut i: u32 = 0;
    assert(as_ints(items@) =~= Seq::<int>::empty());
    while i < count
        invariant
            reader.data == old(reader).data,
            rest0 == old(reader).rest(),
            start == old(reader).position,
            start + 4 <= reader.position <= reader.data@.len(),
            body == rest0.skip(4),
            i <= count,
            p_u32(rest0) == Some((count, 4int)),
            p_list(vbyte_reader(), body, i as int) == Some(
                (as_ints(items@), reader.position - start - 4),
            ),
        decreases count - i,
    {
        proof {
            lemma_rest_skip(reader.data@, start as int, 4);
            lemma_rest_skip(reader.data@, start + 4, reader.position - start - 4);
            assert(body.skip(reader.position - start - 4) == reader.rest());
        }
        if reader.remaining() < 8 {
            proof {
                assert(p_list(vbyte_reader(), body, i + 1) is None);
                lemma_list_fails(vbyte_reader(), body, i + 1, count as int);
            }
            return None;
        }
        let ghost before = as_ints(items@);
        let value: u64 = reader.read_vbyte();
        items.push(value);
        assert(as_ints(items@) =~= before.push(value as int));
        i += 1;
    }
    Some(items)
}

/// Reads the blob behind its magic bytes and its length.
fn read_blob<'a>(reader: &mut DataReader<'a>) -> (r: Option<&'a [u8]>)
    requires
        old(reader).has(0),
    ensures
        final(reader).data == old(reader).data,
        match r {
            Some(blob) => went_on(final(reader), old(reader)) && p_blob(old(reader).rest())
                == Some((blob@, final(reader).position - old(reader).position)),
            None => p_blob(old(reader).rest()) is None,
        },
{
    let ghost rest0 = reader.rest();
    let ghost start = reader.position;
    if reader.remaining() < 12 {
        return None;
    }
    let magic: &[u8] = reader.read_bytes_len(8);
    if !(magic[0] == 0x65 && magic[1] == 0x6e && magic[2] == 0x5f && magic[3] == 0x64 && magic[4]
        == 0x61 && magic[5] == 0x74 && magic[6] == 0x61 && magic[7] == 0x5f) {
        assert(magic@ != spec_blob_header());
        return None;
    }
    assert(magic@ =~= spec_blob_header());
    proof {
        lemma_rest_skip(reader.data@, start as int, 8);
    }
    let len: usize = reader.read_u32() as usize;
    if reader.remaining() < len {
        return None;
    }
    proof {
        lemma_rest_skip(reader.data@, start as int, 12);
    }
    let blob: &[u8] = reader.read_bytes_len(len);
    assert(blob@ =~= rest0.subrange(12, 12 + len));
    Some(blob)
}

/// A dictionary as it was read, before it is put together.
pub struct StoredParts<'a> {
    pub characters: Vec<char>,
    pub syllables: Vec<String>,
    pub entries: Vec<RawRecord>,
    pub english_data: &'a [u8],
    pub start_deltas: Vec<u64>,
}

impl<'a> StoredParts<'a> {
    /// What the parts hold.
    pub open spec fn view(&self) -> StoredDictionary {
        StoredDictionary {
            characters: self.characters@,
            syllables: Seq::new(self.syllables@.len(), |k: int| text_bytes(self.syllables@[k]@)),
            entries: records_view(self.entries@),
            english_data: self.english_data@,
            start_deltas: as_ints(self.start_deltas@),
        }
    }
}

/// Reads the blob and what follows it.
fn read_from_blob<'a>(reader: &mut DataReader<'a>) -> (r: Option<(&'a [u8], Vec<u64>)>)
    requires
        old(reader).has(0),
    ensures
        final(reader).data == old(reader).data,
        match r {
            Some((blob, deltas)) => went_on(final(reader), old(reader)) && p_from_blob(
                old(reader).rest(),
            ) == Some(((blob@, as_ints(deltas@)), final(reader).position - old(reader).position)),
            None => p_from_blob(old(reader).rest()) is None,
        },
{
    let ghost start = reader.position;
    let blob: &'a [u8] = match read_blob(reader) {
        Some(blob) => blob,
        None => {
            return None;
        },
    };
    proof {
        lemma_rest_skip(reader.data@, start as int, reader.position - start);
    }
    match read_deltas(reader) {
        Some(deltas) => Some((blob, deltas)),
        None => None,
    }
}

/// Reads the entries and what follows them.
fn read_from_entries<'a>(reader: &mut DataReader<'a>) -> (r: Option<
    (Vec<RawRecord>, &'a [u8], Vec<u64>),
>)
    requires
        old(reader).has(0),
    ensures
        final(reader).data == old(reader).data,
        match r {
            Some((entries, blob, deltas)) => went_on(final(reader), old(reader))
                && p_from_entries(old(reader).rest()) == Some(
                (
                    (records_view(entries@), blob@, as_ints(deltas@)),
                    final(reader).position - old(reader).position,
                ),
            ),
            None => p_from_entries(old(reader).rest()) is None,
        },
{
    let ghost start = reader.position;
    let entries: Vec<RawRecord> = match read_raw_entries(reader) {
        Some(entries) => entries,
        None => {
            return None;
        },
    };
    proof {
        lemma_rest_skip(reader.data@, start as int, reader.position - start);
    }
    match read_from_blob(reader) {
        Some((blob, deltas)) => Some((entries, blob, deltas)),
        None => None,
    }
}

/// Reads the syllable bases and what follows them.
fn read_from_syllables<'a>(reader: &mut DataReader<'a>) -> (r: Option<
    (Vec<String>, Vec<RawRecord>, &'a [u8], Vec<u64>),
>)
    requires
        old(reader).has(0),
    ensures
        final(reader).data == old(reader).data,
        match r {
            Some((syllables, entries, blob, deltas)) => went_on(final(reader), old(reader))
                && p_from_syllables(old(reader).rest()) == Some(
                (
                    (
                        Seq::new(syllables@.len(), |k: int| text_bytes(syllables@[k]@)),
                        records_view(entries@),
                        blob@,
                        as_ints(deltas@),
                    ),
                    final(reader).position - old(reader).position,
                ),
            ),
            None => p_from_syllables(old(reader).rest()) is None,
        },
{
    let ghost start = reader.position;
    let syllables: Vec<String> = match read_texts(reader) {
        Some(syllables) => syllables,
        None => {
            return None;
        },
    };
    proof {
        lemma_rest_skip(reader.data@, start as int, reader.position - start);
    }
    match read_from_entries(reader) {
        Some((entries, blob, deltas)) => Some((syllables, entries, blob, deltas)),
        None => None,
    }
}

/// Reads the characters and what follows them.
fn read_from_characters<'a>(reader: &mut DataReader<'a>) -> (r: Option<StoredParts<'a>>)
    requires
        old(reader).has(0),
    ensures
        final(reader).data == old(reader).data,
        match r {
            Some(parts) => went_on(final(reader), old(reader)) && p_from_characters(
                old(reader).rest(),
            ) == Some((parts@, final(reader).position - old(reader).position)),
            None => p_from_characters(old(reader).rest()) is None,
        },
{
    let ghost start = reader.position;
    let characters: Vec<char> = match read_characters(reader) {
        Some(characters) => characters,
        None => {
            return None;
        },
    };
    proof {
        lemma_rest_skip(reader.data@, start as int, reader.position - start);
    }
    match read_from_syllables(reader) {
        Some((syllables, entries, english_data, start_deltas)) => Some(
            StoredParts { characters, syllables, entries, english_data, start_deltas },
        ),
        None => None,
    }
}

/// Reads a dictionary as it is stored.
fn read_stored<'a>(reader: &mut DataReader<'a>) -> (r: Option<StoredParts<'a>>)
    requires
        old(reader).has(0),
    ensures
        final(reader).data == old(reader).data,
        match r {
            Some(parts) => went_on(final(reader), old(reader)) && p_stored(old(reader).rest())
                == Some((parts@, final(reader).position - old(reader).position)),
            None => p_stored(old(reader).rest()) is None,
        },
{
    let ghost rest0 = reader.rest();
    let ghost start = reader.position;
    if reader.remaining() < 12 {
        return None;
    }
    let magic: &[u8] = reader.read_bytes_len(8);
    if !(magic[0] == 0x6a && magic[1] == 0x79 && magic[2] == 0x70 && magic[3] == 0x5f && magic[4]
        == 0x64 && magic[5] == 0x69 && magic[6] == 0x63 && magic[7] == 0x74) {
        assert(magic@ != spec_file_header());
        return None;
    }
    assert(magic@ =~= spec_file_header());
    proof {
        lemma_rest_skip(reader.data@, start as int, 8);
    }
    let version: u32 = reader.read_u32();
    if version != crate::compiled_dictionary::CURRENT_VERSION {
        return None;
    }
    proof {
        lemma_rest_skip(reader.data@, start as int, 12);
    }
    read_from_characters(reader)
}

/// Once stored entries stand for nothing, more of them stand for nothing.
pub proof fn lemma_absolute_entries_fails(raws: Seq<RawEntry>, count: int)
    requires
        0 <= count <= raws.len(),
        absolute_entries(raws.take(count)) is None,
    ensures
        absolute_entries(raws) is None,
    decreases raws.len() - count,
{
    if count < raws.len() {
        assert(raws.take(count + 1).drop_last() =~= raws.take(count));
        lemma_absolute_entries_fails(raws, count + 1);
    } else {
        assert(raws.take(count) =~= raws);
    }
}

/// Once stored steps stand for nothing, more of them stand for nothing.
pub proof fn lemma_absolute_starts_fails(deltas: Seq<int>, count: int)
    requires
        0 <= count <= deltas.len(),
        absolute_starts(deltas.take(count)) is None,
    ensures
        absolute_starts(deltas) is None,
    decreases deltas.len() - count,
{
    if count < deltas.len() {
        assert(deltas.take(count + 1).drop_last() =~= deltas.take(count));
        lemma_absolute_starts_fails(deltas, count + 1);
    } else {
        assert(deltas.take(count) =~= deltas);
    }
}

/// What the entries hold, in order.
pub open spec fn entries_view(entries: Seq<CompiledDictionaryEntry>) -> Seq<EntryModel> {
    Seq::new(entries.len(), |k: int| entries[k]@)
}

/// The syllables that the 16-bit cells hold, where each holds one.
fn unpack_syllables(cells: &Vec<u16>) -> (r: Option<Vec<Jyutping>>)
    ensures
        match r {
            Some(syllables) => {
                &&& forall|k: int| 0 <= k < cells@.len() ==> #[trigger] cells@[k] < 0xe000
                &&& syllables@ == Seq::new(cells@.len(), |k: int| Jyutping::spec_unpack(cells@[k]))
            },
            None => exists|k: int| 0 <= k < cells@.len() && #[trigger] cells@[k] >= 0xe000,
        },
{
    let mut syllables: Vec<Jyutping> = Vec::new();
    let mut k: usize = 0;
    while k < cells.len()
        invariant
            k <= cells@.len(),
            forall|i: int| 0 <= i < k ==> #[trigger] cells@[i] < 0xe000,
            syllables@ == Seq::new(k as nat, |i: int| Jyutping::spec_unpack(cells@[i])),
        decreases cells@.len() - k,
    {
        if cells[k] >= 0xe000 {
            return None;
        }
        syllables.push(Jyutping::unpack(cells[k]));
        assert(syllables@ =~= Seq::new((k + 1) as nat, |i: int| Jyutping::spec_unpack(cells@[i])));
        k += 1;
    }
    Some(syllables)
}

/// The entries that the stored entries stand for.
fn absolutize_entries(records: &Vec<RawRecord>) -> (r: Option<Vec<CompiledDictionaryEntry>>)
    ensures
        match r {
            Some(entries) => absolute_entries(records_view(records@)) == Some(
                entries_view(entries@),
            ),
            None => absolute_entries(records_view(records@)) is None,
        },
{
    let ghost raws = records_view(records@);
    let mut entries: Vec<CompiledDictionaryEntry> = Vec::new();
    let mut english_start: u32 = 0;
    let mut prev_cost: u32 = 0;
    let mut i: usize = 0;
    assert(raws.take(0) =~= Seq::<RawEntry>::empty());
    assert(entries_view(entries@) =~= Seq::<EntryModel>::empty());
    while i < records.len()
        invariant
            raws == records_view(records@),
            i <= records@.len(),
            absolute_entries(raws.take(i as int)) == Some(entries_view(entries@)),
            entries@.len() == i,
            english_start == if i == 0 {
                0
            } else {
                entries@[i - 1].english_end
            },
            prev_cost == if i == 0 {
                0
            } else {
                entries@[i - 1].cost
            },
        decreases records@.len() - i,
    {
        let record: &RawRecord = &records[i];
        let ghost before = entries_view(entries@);
        proof {
            assert(raws.take(i + 1).drop_last() =~= raws.take(i as int));
            assert(raws.take(i + 1).last() == record@);
            if i > 0 {
                assert(before.last() == entries@[i - 1]@);
            }
        }
        let english_end: u64 = english_start as u64 + record.english_count as u64;
        let cost: u64 = match (prev_cost as u64).checked_add(record.cost_delta) {
            Some(cost) => cost,
            None => 0xffff_ffff_ffff_ffff,
        };
        let jyutping: Option<Vec<Jyutping>> = unpack_syllables(&record.syllables);
        if english_end > 0xffff_ffff || cost > 0xffff_ffff || jyutping.is_none() {
            proof {
                assert(absolute_entries(raws.take(i + 1)) is None);
                lemma_absolute_entries_fails(raws, i + 1);
            }
            return None;
        }
        let entry = CompiledDictionaryEntry {
            characters: record.characters.clone(),
            jyutping: jyutping.unwrap(),
            english_start,
            english_end: english_end as u32,
            cost: cost as u32,
            flags: record.flags,
        };
        assert(entry.characters@ =~= record.characters@);
        let ghost model = entry@;
        entries.push(entry);
        assert(entries_view(entries@) =~= before.push(model));
        english_start = english_end as u32;
        prev_cost = cost as u32;
        i += 1;
    }
    assert(raws.take(raws.len() as int) =~= raws);
    Some(entries)
}

/// The offsets that the stored steps stand for.
fn absolutize_starts(deltas: &Vec<u64>) -> (r: Option<Vec<u32>>)
    requires
        forall|k: int| 0 <= k < deltas@.len() ==> #[trigger] deltas@[k] < crate::vbyte::VBYTE_LIMIT,
    ensures
        match r {
            Some(starts) => absolute_starts(as_ints(deltas@)) == Some(starts@),
            None => absolute_starts(as_ints(deltas@)) is None,
        },
{
    let ghost steps = as_ints(deltas@);
    let mut starts: Vec<u32> = Vec::new();
    let mut prev: u32 = 0;
    let mut i: usize = 0;
    assert(steps.take(0) =~= Seq::<int>::empty());
    while i < deltas.len()
        invariant
            steps == as_ints(deltas@),
            forall|k: int|
                0 <= k < deltas@.len() ==> #[trigger] deltas@[k] < crate::vbyte::VBYTE_LIMIT,
            i <= deltas@.len(),
            absolute_starts(steps.take(i as int)) == Some(starts@),
            starts@.len() == i,
            prev == if i == 0 {
                0
            } else {
                starts@[i - 1]
            },
        decreases deltas@.len() - i,
    {
        proof {
            assert(steps.take(i + 1).drop_last() =~= steps.take(i as int));
            assert(steps.take(i + 1).last() == deltas@[i as int] as int);
        }
        let here: u64 = prev as u64 + deltas[i];
        if here > 0xffff_ffff {
            proof {
                assert(absolute_starts(steps.take(i + 1)) is None);
                lemma_absolute_starts_fails(steps, i + 1);
            }
            return None;
        }
        starts.push(here as u32);
        prev = here as u32;
        i += 1;
    }
    assert(steps.take(steps.len() as int) =~= steps);
    Some(starts)
}

impl CompiledDictionary {
    /// Puts a dictionary together from what was read, where that stands for
    /// a valid one.
    fn assemble(parts: StoredParts) -> (r: Option<CompiledDictionary>)
        requires
            forall|k: int|
                0 <= k < parts.start_deltas@.len() ==> #[trigger] parts.start_deltas@[k]
                    < crate::vbyte::VBYTE_LIMIT,
        ensures
            match r {
                Some(d) => assemble(parts@) == Some(d@),
                None => assemble(parts@) is None,
            },
    {
        let entries: Vec<CompiledDictionaryEntry> = match absolutize_entries(&parts.entries) {
            Some(entries) => entries,
            None => {
                return None;
            },
        };
        let english_data_starts: Vec<u32> = match absolutize_starts(&parts.start_deltas) {
            Some(starts) => starts,
            None => {
                return None;
            },
        };
        let english_data: Vec<u8> = vstd::slice::slice_to_vec(parts.english_data);
        let dictionary = CompiledDictionary {
            character_store: CharacterStore { characters: parts.characters },
            jyutping_store: JyutpingStore { base_strings: parts.syllables },
            entries,
            english_data,
            english_data_starts,
        };
        proof {
            let model = DictionaryModel {
                characters: parts@.characters,
                syllables: parts@.syllables,
                entries: entries_view(dictionary.entries@),
                english_data: parts@.english_data,
                english_data_starts: dictionary.english_data_starts@,
            };
            assert(dictionary@.syllables =~= model.syllables);
            assert(dictionary@.entries =~= model.entries);
            assert(dictionary@ == model);
        }
        if dictionary.is_valid() {
            Some(dictionary)
        } else {
            None
        }
    }

    /// Reads a dictionary from where the reader stands, where the bytes there
    /// are the serialized form of a valid dictionary; the reader moves on to
    /// the padding. Otherwise nothing is read and the reader stays.
    pub fn try_deserialize(reader: &mut DataReader) -> (r: Option<CompiledDictionary>)
        ensures
            match r {
                Some(d) => {
                    &&& d.wf()
                    &&& old(reader).has(0)
                    &&& went_on(final(reader), old(reader))
                    &&& p_dictionary(old(reader).rest()) == Some(
                        (d@, final(reader).position - old(reader).position),
                    )
                },
                None => {
                    &&& *final(reader) == *old(reader)
                    &&& old(reader).has(0) ==> p_dictionary(old(reader).rest()) is None
                },
            },
    {
        let start: usize = reader.position;
        if reader.position > reader.data.len() {
            return None;
        }
        let parts: StoredParts = match read_stored(reader) {
            Some(parts) => parts,
            None => {
                reader.position = start;
                return None;
            },
        };
        proof {
            lemma_deltas_are_vbytes(parts.start_deltas@, old(reader).rest());
        }
        match Self::assemble(parts) {
            Some(d) => Some(d),
            None => {
                reader.position = start;
                None
            },
        }
    }

    /// Reads a dictionary from where the reader stands; the reader moves on
    /// to the padding. The bytes there must be the serialized form of a valid
    /// dictionary.
    pub fn deserialize(reader: &mut DataReader) -> (d: CompiledDictionary)
        requires
            old(reader).has(0),
            p_dictionary(old(reader).rest()) is Some,
        ensures
            d.wf(),
            went_on(final(reader), old(reader)),
            p_dictionary(old(reader).rest()) == Some(
                (d@, final(reader).position - old(reader).position),
            ),
    {
        match Self::try_deserialize(reader) {
            Some(d) => d,
            None => CompiledDictionary {
                character_store: CharacterStore { characters: Vec::new() },
                jyutping_store: JyutpingStore { base_strings: Vec::new() },
                entries: Vec::new(),
                english_data: Vec::new(),
                english_data_starts: Vec::new(),
            },
        }
    }
}

/// Steps that were read as vbytes are below the limit of vbytes.
proof fn lemma_deltas_are_vbytes(deltas: Seq<u64>, rest: Seq<u8>)
    requires
        exists|st: StoredDictionary, used: int|
            p_stored(rest) == Some((st, used)) && st.start_deltas == as_ints(deltas),
    ensures
        forall|k: int| 0 <= k < deltas.len() ==> #[trigger] deltas[k] < crate::vbyte::VBYTE_LIMIT,
{
    let (st, used) = choose|st: StoredDictionary, used: int|
        p_stored(rest) == Some((st, used)) && st.start_deltas == as_ints(deltas);
    let r1 = rest.skip(12);
    let (_, n1) = p_counted(char_reader(), r1).unwrap();
    let r2 = r1.skip(n1);
    let (_, n2) = p_counted(text_reader(), r2).unwrap();
    let r3 = r2.skip(n2);
    let (_, n3) = p_counted(raw_entry_reader(), r3).unwrap();
    let r4 = r3.skip(n3);
    let (_, n4) = p_blob(r4).unwrap();
    let r5 = r4.skip(n4);
    let (count, _) = p_u32(r5).unwrap();
    lemma_vbyte_list_bounded(r5.skip(4), count as int);
    assert forall|k: int| 0 <= k < deltas.len() implies #[trigger] deltas[k]
        < crate::vbyte::VBYTE_LIMIT by {
        assert(as_ints(deltas)[k] == deltas[k] as int);
    }
}

/// Every vbyte of a list that was read is below the limit of vbytes.
proof fn lemma_vbyte_list_bounded(rest: Seq<u8>, count: int)
    ensures
        match p_list(vbyte_reader(), rest, count) {
            Some((items, used)) => forall|k: int|
                0 <= k < items.len() ==> 0 <= #[trigger] items[k] < crate::vbyte::VBYTE_LIMIT,
            None => true,
        },
    decreases count,
{
    if count > 0 {
        lemma_vbyte_list_bounded(rest, count - 1);
        match p_list(vbyte_reader(), rest, count - 1) {
            Some((items, used)) => {
                let next = rest.skip(used);
                if next.len() >= 8 {
                    crate::vbyte::lemma_vbyte_value_bounded(next);
                }
            },
            None => {},
        }
    }
}

} // verus!
