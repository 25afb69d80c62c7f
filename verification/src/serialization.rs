//! Writing a dictionary into bytes.

use crate::compiled_dictionary::{CompiledDictionary, CompiledDictionaryEntry, Jyutping};
use crate::data_writer::DataWriter;
use crate::endian::{le_bytes, lemma_le_bytes_len};
use crate::format::{
    char_writer, raw_entries, raw_entry_of, raw_entry_writer, s_blob, s_counted, s_dictionary,
    s_header, s_list, s_raw_entry, s_short_list, spec_blob_header, spec_file_header, start_deltas,
    stored_of, text_writer, u16_writer, vbyte_writer,
};
use vstd::prelude::*;
use vstd::string::*;
use vstd::utf8::*;

verus! {

/// Writes the ids of the characters of an entry behind their number.
fn write_character_ids(writer: &mut DataWriter, ids: &Vec<u16>)
    requires
        old(writer).wf(),
        ids@.len() <= 255,
    ensures
        final(writer).wrote(old(writer), s_short_list(ids@)),
{
    writer.write_u8(ids.len() as u8);
    let ghost start = writer.inner@;
    let mut k: usize = 0;
    assert(ids@.take(0) =~= Seq::<u16>::empty());
    assert(writer.inner@ =~= start + s_list(u16_writer(), ids@.take(0)));
    while k < ids.len()
        invariant
            k <= ids@.len(),
            writer.wf(),
            writer.inner@ == start + s_list(u16_writer(), ids@.take(k as int)),
            writer.write_len == old(writer).write_len + 1 + 2 * k,
        decreases ids@.len() - k,
    {
        proof {
            assert(ids@.take(k + 1).drop_last() =~= ids@.take(k as int));
            lemma_le_bytes_len(ids@[k as int] as int, 2);
        }
        writer.write_u16(ids[k]);
        assert(writer.inner@ =~= start + s_list(u16_writer(), ids@.take(k + 1)));
        k += 1;
    }
    assert(ids@.take(ids@.len() as int) =~= ids@);
    assert(writer.inner@ =~= old(writer).inner@ + s_short_list(ids@));
    proof {
        crate::format::lemma_short_list_reads_back(ids@, Seq::empty());
    }
}

/// The syllables as they are stored.
pub open spec fn spec_packed(syllables: Seq<Jyutping>) -> Seq<u16> {
    Seq::new(syllables.len(), |k: int| syllables[k].spec_pack())
}

/// Writes the syllables of an entry, packed, behind their number.
fn write_syllables(writer: &mut DataWriter, syllables: &Vec<Jyutping>)
    requires
        old(writer).wf(),
        syllables@.len() <= 255,
        forall|k: int| 0 <= k < syllables@.len() ==> (#[trigger] syllables@[k]).wf(),
    ensures
        final(writer).wrote(old(writer), s_short_list(spec_packed(syllables@))),
{
    let ghost packed = spec_packed(syllables@);
    writer.write_u8(syllables.len() as u8);
    let ghost start = writer.inner@;
    let mut k: usize = 0;
    assert(packed.take(0) =~= Seq::<u16>::empty());
    assert(writer.inner@ =~= start + s_list(u16_writer(), packed.take(0)));
    while k < syllables.len()
        invariant
            k <= syllables@.len(),
            packed == spec_packed(syllables@),
            forall|i: int| 0 <= i < syllables@.len() ==> (#[trigger] syllables@[i]).wf(),
            writer.wf(),
            writer.inner@ == start + s_list(u16_writer(), packed.take(k as int)),
            writer.write_len == old(writer).write_len + 1 + 2 * k,
        decreases syllables@.len() - k,
    {
        proof {
            assert(packed.take(k + 1).drop_last() =~= packed.take(k as int));
            lemma_le_bytes_len(packed[k as int] as int, 2);
        }
        writer.write_u16(syllables[k].pack());
        assert(writer.inner@ =~= start + s_list(u16_writer(), packed.take(k + 1)));
        k += 1;
    }
    assert(packed.take(packed.len() as int) =~= packed);
    assert(writer.inner@ =~= old(writer).inner@ + s_short_list(packed));
    proof {
        crate::format::lemma_short_list_reads_back(packed, Seq::empty());
    }
}

/// Writes one entry that stands behind an entry of cost `prev`.
fn write_entry(writer: &mut DataWriter, entry: &CompiledDictionaryEntry, prev: u32)
    requires
        old(writer).wf(),
        entry.characters@.len() <= 255,
        entry.jyutping@.len() <= 255,
        forall|k: int| 0 <= k < entry.jyutping@.len() ==> (#[trigger] entry.jyutping@[k]).wf(),
        entry.english_start <= entry.english_end,
        entry.english_end - entry.english_start < 256,
        prev <= entry.cost,
    ensures
        final(writer).wrote(old(writer), s_raw_entry(raw_entry_of(entry@, prev as int))),
{
    let ghost raw = raw_entry_of(entry@, prev as int);
    assert(raw.syllables =~= spec_packed(entry.jyutping@));
    writer.write_u8(entry.flags);
    write_character_ids(writer, &entry.characters);
    write_syllables(writer, &entry.jyutping);
    writer.write_u8((entry.english_end - entry.english_start) as u8);
    writer.write_vbyte((entry.cost - prev) as u64);
    assert(writer.inner@ =~= old(writer).inner@ + s_raw_entry(raw));
}

impl CompiledDictionary {
    /// Writes the characters behind their number.
    fn write_characters(&self, writer: &mut DataWriter)
        requires
            old(writer).wf(),
            self.character_store.characters@.len() <= u32::MAX,
        ensures
            final(writer).wrote(old(writer), s_counted(char_writer(), self@.characters)),
    {
        let ghost items = self.character_store.characters@;
        writer.write_u32(self.character_store.characters.len() as u32);
        let ghost start = writer.inner@;
        let ghost counted = writer.write_len;
        let mut k: usize = 0;
        assert(items.take(0) =~= Seq::<char>::empty());
        assert(writer.inner@ =~= start + s_list(char_writer(), items.take(0)));
        while k < self.character_store.characters.len()
            invariant
                items == self.character_store.characters@,
                k <= items.len(),
                writer.wf(),
                writer.inner@ == start + s_list(char_writer(), items.take(k as int)),
                writer.write_len == counted + s_list(char_writer(), items.take(k as int)).len(),
            decreases items.len() - k,
        {
            proof {
                assert(items.take(k + 1).drop_last() =~= items.take(k as int));
            }
            writer.write_utf8(self.character_store.characters[k]);
            assert(writer.inner@ =~= start + s_list(char_writer(), items.take(k + 1)));
            k += 1;
        }
        assert(items.take(items.len() as int) =~= items);
        assert(writer.inner@ =~= old(writer).inner@ + s_counted(char_writer(), items));
    }

    /// Writes the syllable bases behind their number.
    fn write_syllable_bases(&self, writer: &mut DataWriter)
        requires
            old(writer).wf(),
            self.jyutping_store.wf(),
        ensures
            final(writer).wrote(old(writer), s_counted(text_writer(), self@.syllables)),
    {
        let ghost items = self.jyutping_store@;
        writer.write_u32(self.jyutping_store.base_strings.len() as u32);
        let ghost start = writer.inner@;
        let ghost counted = writer.write_len;
        let mut k: usize = 0;
        assert(items.take(0) =~= Seq::<Seq<u8>>::empty());
        assert(writer.inner@ =~= start + s_list(text_writer(), items.take(0)));
        while k < self.jyutping_store.base_strings.len()
            invariant
                self.jyutping_store.wf(),
                items == self.jyutping_store@,
                items.len() == self.jyutping_store.base_strings@.len(),
                k <= items.len(),
                writer.wf(),
                writer.inner@ == start + s_list(text_writer(), items.take(k as int)),
                writer.write_len == counted + s_list(text_writer(), items.take(k as int)).len(),
            decreases items.len() - k,
        {
            proof {
                assert(items.take(k + 1).drop_last() =~= items.take(k as int));
                assert(items[k as int].len() <= 0xff_ffff);
            }
            writer.write_string(self.jyutping_store.base_strings[k].as_str());
            assert(writer.inner@ =~= start + s_list(text_writer(), items.take(k + 1)));
            k += 1;
        }
        assert(items.take(items.len() as int) =~= items);
        assert(writer.inner@ =~= old(writer).inner@ + s_counted(text_writer(), items));
    }

    /// Writes the entries behind their number.
    fn write_entries(&self, writer: &mut DataWriter)
        requires
            old(writer).wf(),
            self.wf(),
        ensures
            final(writer).wrote(old(writer), s_counted(raw_entry_writer(), raw_entries(self@.entries))),
    {
        let ghost items = raw_entries(self@.entries);
        writer.write_u32(self.entries.len() as u32);
        let ghost start = writer.inner@;
        let ghost counted = writer.write_len;
        let mut prev_cost: u32 = 0;
        let mut k: usize = 0;
        assert(items.take(0) =~= Seq::<crate::format::RawEntry>::empty());
        assert(writer.inner@ =~= start + s_list(raw_entry_writer(), items.take(0)));
        while k < self.entries.len()
            invariant
                self.wf(),
                items == raw_entries(self@.entries),
                items.len() == self.entries@.len(),
                k <= items.len(),
                prev_cost as int == if k == 0 {
                    0
                } else {
                    self.entries@[k - 1].cost as int
                },
                writer.wf(),
                writer.inner@ == start + s_list(raw_entry_writer(), items.take(k as int)),
                writer.write_len == counted + s_list(raw_entry_writer(), items.take(k as int)).len(),
            decreases items.len() - k,
        {
            let entry: &CompiledDictionaryEntry = &self.entries[k];
            proof {
                self.lemma_wf_parts();
                assert(items.take(k + 1).drop_last() =~= items.take(k as int));
                assert(self.entry_wf(&self.entries@[k as int]));
                assert(self@.entries[k as int] == entry@);
                if k > 0 {
                    assert(self@.entries[k - 1].cost <= self@.entries[k - 1 + 1].cost);
                    assert(self@.entries[k - 1] == self.entries@[k - 1]@);
                }
                assert(items[k as int] == raw_entry_of(entry@, prev_cost as int));
            }
            write_entry(writer, entry, prev_cost);
            assert(writer.inner@ =~= start + s_list(raw_entry_writer(), items.take(k + 1)));
            prev_cost = entry.cost;
            k += 1;
        }
        assert(items.take(items.len() as int) =~= items);
        assert(writer.inner@ =~= old(writer).inner@ + s_counted(raw_entry_writer(), items));
    }

    /// Writes the offsets behind their number, each as its step from the one
    /// before it.
    fn write_starts(&self, writer: &mut DataWriter)
        requires
            old(writer).wf(),
            self.starts_wf(),
        ensures
            final(writer).wrote(
                old(writer),
                s_counted(vbyte_writer(), start_deltas(self@.english_data_starts)),
            ),
    {
        let ghost items = start_deltas(self.english_data_starts@);
        writer.write_u32(self.english_data_starts.len() as u32);
        let ghost start = writer.inner@;
        let ghost counted = writer.write_len;
        let mut prev_start: u32 = 0;
        let mut k: usize = 0;
        assert(items.take(0) =~= Seq::<int>::empty());
        assert(writer.inner@ =~= start + s_list(vbyte_writer(), items.take(0)));
        while k < self.english_data_starts.len()
            invariant
                self.starts_wf(),
                items == start_deltas(self.english_data_starts@),
                items.len() == self.english_data_starts@.len(),
                k <= items.len(),
                prev_start as int == if k == 0 {
                    0
                } else {
                    self.english_data_starts@[k - 1] as int
                },
                writer.wf(),
                writer.inner@ == start + s_list(vbyte_writer(), items.take(k as int)),
                writer.write_len == counted + s_list(vbyte_writer(), items.take(k as int)).len(),
            decreases items.len() - k,
        {
            let here: u32 = self.english_data_starts[k];
            proof {
                assert(items.take(k + 1).drop_last() =~= items.take(k as int));
                if k > 0 {
                    assert(self.english_data_starts@[k - 1] <= self.english_data_starts@[k as int]);
                }
            }
            writer.write_vbyte((here - prev_start) as u64);
            assert(writer.inner@ =~= start + s_list(vbyte_writer(), items.take(k + 1)));
            prev_start = here;
            k += 1;
        }
        assert(items.take(items.len() as int) =~= items);
        assert(writer.inner@ =~= old(writer).inner@ + s_counted(vbyte_writer(), items));
    }

    /// Writes the blob behind its magic bytes and its length.
    fn write_blob(&self, writer: &mut DataWriter)
        requires
            old(writer).wf(),
            self.english_data@.len() <= u32::MAX,
        ensures
            final(writer).wrote(old(writer), s_blob(self@.english_data)),
    {
        writer.write_u8(0x65);
        writer.write_u8(0x6e);
        writer.write_u8(0x5f);
        writer.write_u8(0x64);
        writer.write_u8(0x61);
        writer.write_u8(0x74);
        writer.write_u8(0x61);
        writer.write_u8(0x5f);
        assert(writer.inner@ =~= old(writer).inner@ + spec_blob_header());
        writer.write_bytes_and_length(self.english_data.as_slice());
        assert(writer.inner@ =~= old(writer).inner@ + s_blob(self.english_data@));
    }

    /// Writes the dictionary in its serialized form, padding included.
    pub fn serialize(&self, writer: &mut DataWriter)
        requires
            old(writer).wf(),
            self.wf(),
        ensures
            final(writer).wrote(old(writer), s_dictionary(self@)),
    {
        let ghost st = stored_of(self@);
        let ghost w0 = writer.inner@;
        proof {
            self.lemma_wf_parts();
            lemma_le_bytes_len(0, 8);
        }
        write_header(writer);
        let ghost w1 = writer.inner@;
        self.write_characters(writer);
        let ghost w2 = writer.inner@;
        self.write_syllable_bases(writer);
        let ghost w3 = writer.inner@;
        self.write_entries(writer);
        let ghost w4 = writer.inner@;
        self.write_blob(writer);
        let ghost w5 = writer.inner@;
        self.write_starts(writer);
        let ghost w6 = writer.inner@;
        writer.write_u64(0);
        proof {
            lemma_chain(
                w0,
                s_header(),
                s_counted(char_writer(), st.characters),
                s_counted(text_writer(), st.syllables),
                s_counted(raw_entry_writer(), st.entries),
                s_blob(st.english_data),
                s_counted(vbyte_writer(), st.start_deltas),
                le_bytes(0, 8),
            );
        }
    }
}

/// Parts written one after the other make up what all of them are together.
proof fn lemma_chain(
    w0: Seq<u8>,
    h: Seq<u8>,
    b: Seq<u8>,
    c: Seq<u8>,
    e: Seq<u8>,
    f: Seq<u8>,
    g: Seq<u8>,
    pad: Seq<u8>,
)
    ensures
        w0 + h + b + c + e + f + g + pad == w0 + (h + (b + (c + (e + (f + (g + pad)))))),
        (h + (b + (c + (e + (f + (g + pad)))))).len() == h.len() + b.len() + c.len() + e.len()
            + f.len() + g.len() + pad.len(),
{
    assert(w0 + h + b + c + e + f + g + pad =~= w0 + (h + (b + (c + (e + (f + (g + pad)))))));
}

/// Writes the magic bytes and the version.
fn write_header(writer: &mut DataWriter)
    requires
        old(writer).wf(),
    ensures
        final(writer).wrote(old(writer), s_header()),
{
    writer.write_u8(0x6a);
    writer.write_u8(0x79);
    writer.write_u8(0x70);
    writer.write_u8(0x5f);
    writer.write_u8(0x64);
    writer.write_u8(0x69);
    writer.write_u8(0x63);
    writer.write_u8(0x74);
    assert(writer.inner@ =~= old(writer).inner@ + spec_file_header());
    writer.write_u32(crate::compiled_dictionary::CURRENT_VERSION);
    proof {
        lemma_le_bytes_len(8, 4);
    }
    assert(writer.inner@ =~= old(writer).inner@ + s_header());
}

} // verus!
