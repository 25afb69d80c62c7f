//! The serialized form of a dictionary, byte by byte, and the proof that
//! reading what was written gives back what was there.
//!
//! ```text
//! "jyp_dict"            8 bytes
//! version               u32, 8
//! characters            u32 count, then each in UTF-8
//! syllable bases        u32 count, then each as u32 length and bytes
//! entries               u32 count, then each as
//!                         flags u8, characters u8 count and u16 each,
//!                         syllables u8 count and u16 each,
//!                         definitions u8 count, cost over the one before as vbyte
//! "en_data_"            8 bytes
//! blob                  u32 length, then the bytes
//! offsets               u32 count, then each over the one before as vbyte
//! padding               8 zero bytes
//! ```
//!
//! All numbers stand little end first. A reader takes every vbyte out of
//! eight bytes, so eight bytes must follow where a vbyte starts.

use crate::compiled_dictionary::{DictionaryModel, EntryModel, Jyutping};
use crate::endian::{le_bytes, le_value, lemma_le_bytes_len, lemma_le_value_of_le_bytes, pow256};
use crate::vbyte::{
    lemma_vbyte_round_trip, spec_vbyte_bytes, spec_vbyte_stored_len, spec_vbyte_value,
};
use vstd::prelude::*;
use vstd::utf8::*;

verus! {

/// The bytes `jyp_dict`.
pub open spec fn spec_file_header() -> Seq<u8> {
    seq![0x6au8, 0x79u8, 0x70u8, 0x5fu8, 0x64u8, 0x69u8, 0x63u8, 0x74u8]
}

/// The bytes `en_data_`.
pub open spec fn spec_blob_header() -> Seq<u8> {
    seq![0x65u8, 0x6eu8, 0x5fu8, 0x64u8, 0x61u8, 0x74u8, 0x61u8, 0x5fu8]
}

/// Reads one byte.
pub open spec fn p_u8(rest: Seq<u8>) -> Option<(u8, int)> {
    if rest.len() >= 1 {
        Some((rest[0], 1))
    } else {
        None
    }
}

/// Reads a 16-bit number.
pub open spec fn p_u16(rest: Seq<u8>) -> Option<(u16, int)> {
    if rest.len() >= 2 {
        Some((le_value(rest, 2) as u16, 2))
    } else {
        None
    }
}

/// Reads a 32-bit number.
pub open spec fn p_u32(rest: Seq<u8>) -> Option<(u32, int)> {
    if rest.len() >= 4 {
        Some((le_value(rest, 4) as u32, 4))
    } else {
        None
    }
}

/// Reads a vbyte, for which eight bytes must be there.
pub open spec fn p_vbyte(rest: Seq<u8>) -> Option<(int, int)> {
    if rest.len() >= 8 {
        Some((spec_vbyte_value(rest), spec_vbyte_stored_len(rest)))
    } else {
        None
    }
}

/// Reads a character in UTF-8, for which four bytes must be there.
pub open spec fn p_char(rest: Seq<u8>) -> Option<(char, int)> {
    if rest.len() >= 4 && valid_first_scalar(rest) {
        Some((decode_first_scalar(rest) as char, length_of_first_scalar(rest)))
    } else {
        None
    }
}

/// Reads a text stored behind its 32-bit length, as its bytes.
pub open spec fn p_text(rest: Seq<u8>) -> Option<(Seq<u8>, int)> {
    if rest.len() >= 4 && rest.len() >= 4 + le_value(rest, 4) && valid_utf8(
        rest.subrange(4, 4 + le_value(rest, 4)),
    ) {
        Some((rest.subrange(4, 4 + le_value(rest, 4)), 4 + le_value(rest, 4)))
    } else {
        None
    }
}

/// Reads `count` items one behind the other.
pub open spec fn p_list<T>(
    p: spec_fn(Seq<u8>) -> Option<(T, int)>,
    rest: Seq<u8>,
    count: int,
) -> Option<(Seq<T>, int)>
    decreases count,
{
    if count <= 0 {
        Some((Seq::empty(), 0))
    } else {
        match p_list(p, rest, count - 1) {
            None => None,
            Some((items, used)) => match p(rest.skip(used)) {
                None => None,
                Some((item, more)) => Some((items.push(item), used + more)),
            },
        }
    }
}

/// Reads a 32-bit count and as many items.
pub open spec fn p_counted<T>(p: spec_fn(Seq<u8>) -> Option<(T, int)>, rest: Seq<u8>) -> Option<
    (Seq<T>, int),
> {
    match p_u32(rest) {
        None => None,
        Some((count, _)) => match p_list(p, rest.skip(4), count as int) {
            None => None,
            Some((items, used)) => Some((items, 4 + used)),
        },
    }
}

/// The items written one behind the other.
pub open spec fn s_list<T>(s: spec_fn(T) -> Seq<u8>, items: Seq<T>) -> Seq<u8>
    decreases items.len(),
{
    if items.len() == 0 {
        Seq::empty()
    } else {
        s_list(s, items.drop_last()) + s(items.last())
    }
}

/// The number of the items in 32 bits, and the items.
pub open spec fn s_counted<T>(s: spec_fn(T) -> Seq<u8>, items: Seq<T>) -> Seq<u8> {
    le_bytes(items.len() as int, 4) + s_list(s, items)
}

/// What is written for `x` is read back as `x`, whatever follows it, as long
/// as `slack` bytes do.
pub open spec fn reads_back<T>(
    p: spec_fn(Seq<u8>) -> Option<(T, int)>,
    s: spec_fn(T) -> Seq<u8>,
    x: T,
    slack: int,
) -> bool {
    forall|post: Seq<u8>|
        post.len() >= slack ==> #[trigger] p(s(x) + post) == Some((x, s(x).len() as int))
}

/// Items written one behind the other are read back in order.
pub proof fn lemma_list_reads_back<T>(
    p: spec_fn(Seq<u8>) -> Option<(T, int)>,
    s: spec_fn(T) -> Seq<u8>,
    items: Seq<T>,
    post: Seq<u8>,
    slack: int,
)
    requires
        post.len() >= slack,
        forall|i: int| 0 <= i < items.len() ==> reads_back(p, s, #[trigger] items[i], slack),
    ensures
        p_list(p, s_list(s, items) + post, items.len() as int) == Some(
            (items, s_list(s, items).len() as int),
        ),
    decreases items.len(),
{
    if items.len() > 0 {
        let head = items.drop_last();
        let last = items.last();
        let all = s_list(s, items) + post;
        assert(all =~= s_list(s, head) + (s(last) + post));
        assert(forall|i: int| 0 <= i < head.len() ==> head[i] == items[i]);
        lemma_list_reads_back(p, s, head, s(last) + post, slack);
        assert(all.skip(s_list(s, head).len() as int) =~= s(last) + post);
        assert(reads_back(p, s, items[items.len() - 1], slack));
        assert(p(s(last) + post) == Some((last, s(last).len() as int)));
        assert(head.push(last) =~= items);
    }
}

/// A count and its items are read back.
pub proof fn lemma_counted_reads_back<T>(
    p: spec_fn(Seq<u8>) -> Option<(T, int)>,
    s: spec_fn(T) -> Seq<u8>,
    items: Seq<T>,
    post: Seq<u8>,
    slack: int,
)
    requires
        post.len() >= slack,
        items.len() <= u32::MAX,
        forall|i: int| 0 <= i < items.len() ==> reads_back(p, s, #[trigger] items[i], slack),
    ensures
        p_counted(p, s_counted(s, items) + post) == Some(
            (items, s_counted(s, items).len() as int),
        ),
{
    let count = le_bytes(items.len() as int, 4);
    let all = s_counted(s, items) + post;
    lemma_le_bytes_len(items.len() as int, 4);
    assert(all =~= count + (s_list(s, items) + post));
    lemma_le_value_of_le_bytes(items.len() as int, 4, s_list(s, items) + post);
    assert(pow256(4) == 0x1_0000_0000) by {
        reveal_with_fuel(pow256, 5);
    }
    assert(all.skip(4) =~= s_list(s, items) + post);
    lemma_list_reads_back(p, s, items, post, slack);
}

/// A 16-bit number is read back.
pub proof fn lemma_u16_reads_back(x: u16, post: Seq<u8>)
    ensures
        p_u16(le_bytes(x as int, 2) + post) == Some((x, 2int)),
        le_bytes(x as int, 2).len() == 2,
{
    lemma_le_bytes_len(x as int, 2);
    lemma_le_value_of_le_bytes(x as int, 2, post);
    assert(pow256(2) == 0x1_0000) by {
        reveal_with_fuel(pow256, 3);
    }
}

/// A vbyte is read back where eight bytes are there.
pub proof fn lemma_vbyte_reads_back(x: int, post: Seq<u8>)
    requires
        0 <= x < crate::vbyte::VBYTE_LIMIT,
        post.len() >= 8,
    ensures
        p_vbyte(spec_vbyte_bytes(x) + post) == Some((x, spec_vbyte_bytes(x).len() as int)),
{
    lemma_vbyte_round_trip(x, post);
}

/// A character is read back where four bytes are there.
pub proof fn lemma_char_reads_back(c: char, post: Seq<u8>)
    requires
        post.len() >= 4,
    ensures
        p_char(encode_scalar(c as u32) + post) == Some((c, encode_scalar(c as u32).len() as int)),
{
    let chars = seq![c];
    assert(chars.drop_first() =~= Seq::<char>::empty());
    assert(encode_utf8(chars) =~= encode_scalar(c as u32)) by {
        reveal_with_fuel(encode_utf8, 2);
    }
    encode_utf8_first_scalar(chars);
    let bytes = encode_scalar(c as u32);
    let all = bytes + post;
    // The first scalar of a byte string depends on its first bytes only.
    assert(valid_first_scalar(bytes));
    assert(length_of_first_scalar(bytes) == bytes.len());
    assert(forall|k: int| 0 <= k < bytes.len() ==> all[k] == bytes[k]);
    assert(valid_first_scalar(all));
    assert(decode_first_scalar(all) == decode_first_scalar(bytes));
    assert(length_of_first_scalar(all) == length_of_first_scalar(bytes));
    char_u32_cast(c, c as u32);
}

/// A text is read back.
pub proof fn lemma_text_reads_back(text: Seq<u8>, post: Seq<u8>)
    requires
        text.len() <= u32::MAX,
        valid_utf8(text),
    ensures
        p_text(le_bytes(text.len() as int, 4) + text + post) == Some((text, 4 + text.len() as int)),
{
    let all = le_bytes(text.len() as int, 4) + text + post;
    lemma_le_bytes_len(text.len() as int, 4);
    assert(all =~= le_bytes(text.len() as int, 4) + (text + post));
    lemma_le_value_of_le_bytes(text.len() as int, 4, text + post);
    assert(pow256(4) == 0x1_0000_0000) by {
        reveal_with_fuel(pow256, 5);
    }
    assert(all.subrange(4, 4 + text.len() as int) =~= text);
}

/// The reader of a 16-bit number.
pub open spec fn u16_reader() -> spec_fn(Seq<u8>) -> Option<(u16, int)> {
    |rest: Seq<u8>| p_u16(rest)
}

/// The writer of a 16-bit number.
pub open spec fn u16_writer() -> spec_fn(u16) -> Seq<u8> {
    |x: u16| le_bytes(x as int, 2)
}

/// The reader of a character.
pub open spec fn char_reader() -> spec_fn(Seq<u8>) -> Option<(char, int)> {
    |rest: Seq<u8>| p_char(rest)
}

/// The writer of a character.
pub open spec fn char_writer() -> spec_fn(char) -> Seq<u8> {
    |c: char| encode_scalar(c as u32)
}

/// The reader of a text.
pub open spec fn text_reader() -> spec_fn(Seq<u8>) -> Option<(Seq<u8>, int)> {
    |rest: Seq<u8>| p_text(rest)
}

/// The writer of a text.
pub open spec fn text_writer() -> spec_fn(Seq<u8>) -> Seq<u8> {
    |text: Seq<u8>| le_bytes(text.len() as int, 4) + text
}

/// The reader of a vbyte.
pub open spec fn vbyte_reader() -> spec_fn(Seq<u8>) -> Option<(int, int)> {
    |rest: Seq<u8>| p_vbyte(rest)
}

/// The writer of a vbyte.
pub open spec fn vbyte_writer() -> spec_fn(int) -> Seq<u8> {
    |x: int| spec_vbyte_bytes(x)
}

/// Reads an 8-bit count and as many 16-bit numbers.
pub open spec fn p_short_list(rest: Seq<u8>) -> Option<(Seq<u16>, int)> {
    match p_u8(rest) {
        None => None,
        Some((count, _)) => match p_list(u16_reader(), rest.skip(1), count as int) {
            None => None,
            Some((items, used)) => Some((items, 1 + used)),
        },
    }
}

/// The number of the items in 8 bits, and the items in 16 bits each.
pub open spec fn s_short_list(items: Seq<u16>) -> Seq<u8> {
    seq![items.len() as u8] + s_list(u16_writer(), items)
}

/// The length of a list of items that take `width` bytes each.
pub proof fn lemma_s_list_fixed_len<T>(s: spec_fn(T) -> Seq<u8>, items: Seq<T>, width: int)
    requires
        forall|i: int| 0 <= i < items.len() ==> s(#[trigger] items[i]).len() == width,
    ensures
        s_list(s, items).len() == items.len() * width,
    decreases items.len(),
{
    if items.len() > 0 {
        let head = items.drop_last();
        assert(forall|i: int| 0 <= i < head.len() ==> head[i] == items[i]);
        lemma_s_list_fixed_len(s, head, width);
        assert(s(items[items.len() - 1]).len() == width);
        assert((items.len() - 1) * width + width == items.len() * width) by (nonlinear_arith);
    }
}

/// A short list is read back.
pub proof fn lemma_short_list_reads_back(items: Seq<u16>, post: Seq<u8>)
    requires
        items.len() <= 255,
    ensures
        p_short_list(s_short_list(items) + post) == Some((items, 1 + 2 * items.len() as int)),
        s_short_list(items).len() == 1 + 2 * items.len(),
{
    let all = s_short_list(items) + post;
    assert(all =~= seq![items.len() as u8] + (s_list(u16_writer(), items) + post));
    assert(all.skip(1) =~= s_list(u16_writer(), items) + post);
    assert forall|i: int| 0 <= i < items.len() implies reads_back(
        u16_reader(),
        u16_writer(),
        #[trigger] items[i],
        0,
    ) by {
        let x = items[i];
        assert forall|tail: Seq<u8>| tail.len() >= 0 implies #[trigger] u16_reader()(
            u16_writer()(x) + tail,
        ) == Some((x, u16_writer()(x).len() as int)) by {
            lemma_u16_reads_back(x, tail);
        }
    }
    lemma_list_reads_back(u16_reader(), u16_writer(), items, post, 0);
    assert forall|i: int| 0 <= i < items.len() implies u16_writer()(#[trigger] items[i]).len()
        == 2 by {
        lemma_le_bytes_len(items[i] as int, 2);
    }
    lemma_s_list_fixed_len(u16_writer(), items, 2);
}

/// An entry as it is stored: with its definitions counted and its cost taken
/// over that of the entry before it.
pub struct RawEntry {
    pub flags: u8,
    pub characters: Seq<u16>,
    pub syllables: Seq<u16>,
    pub english_count: u8,
    pub cost_delta: int,
}

/// Reads an entry as it is stored.
pub open spec fn p_raw_entry(rest: Seq<u8>) -> Option<(RawEntry, int)> {
    match p_u8(rest) {
        None => None,
        Some((flags, _)) => match p_short_list(rest.skip(1)) {
            None => None,
            Some((characters, n1)) => match p_short_list(rest.skip(1 + n1)) {
                None => None,
                Some((syllables, n2)) => match p_u8(rest.skip(1 + n1 + n2)) {
                    None => None,
                    Some((english_count, _)) => match p_vbyte(rest.skip(2 + n1 + n2)) {
                        None => None,
                        Some((cost_delta, n3)) => Some(
                            (
                                RawEntry {
                                    flags,
                                    characters,
                                    syllables,
                                    english_count,
                                    cost_delta,
                                },
                                2 + n1 + n2 + n3,
                            ),
                        ),
                    },
                },
            },
        },
    }
}

/// An entry as it is stored, in bytes.
pub open spec fn s_raw_entry(e: RawEntry) -> Seq<u8> {
    seq![e.flags] + s_short_list(e.characters) + s_short_list(e.syllables) + seq![
        e.english_count,
    ] + spec_vbyte_bytes(e.cost_delta)
}

/// The reader of a stored entry.
pub open spec fn raw_entry_reader() -> spec_fn(Seq<u8>) -> Option<(RawEntry, int)> {
    |rest: Seq<u8>| p_raw_entry(rest)
}

/// The writer of a stored entry.
pub open spec fn raw_entry_writer() -> spec_fn(RawEntry) -> Seq<u8> {
    |e: RawEntry| s_raw_entry(e)
}

/// The stored entry fits its record.
pub open spec fn raw_entry_wf(e: RawEntry) -> bool {
    &&& e.characters.len() <= 255
    &&& e.syllables.len() <= 255
    &&& 0 <= e.cost_delta < crate::vbyte::VBYTE_LIMIT
}

/// A stored entry is read back where eight bytes follow it.
pub proof fn lemma_raw_entry_reads_back(e: RawEntry, post: Seq<u8>)
    requires
        raw_entry_wf(e),
        post.len() >= 8,
    ensures
        p_raw_entry(s_raw_entry(e) + post) == Some((e, s_raw_entry(e).len() as int)),
{
    let c = s_short_list(e.characters);
    let j = s_short_list(e.syllables);
    let v = spec_vbyte_bytes(e.cost_delta);
    let all = s_raw_entry(e) + post;
    lemma_short_list_reads_back(e.characters, j + seq![e.english_count] + v + post);
    lemma_short_list_reads_back(e.syllables, seq![e.english_count] + v + post);
    lemma_vbyte_reads_back(e.cost_delta, post);
    assert(all.skip(1) =~= c + (j + seq![e.english_count] + v + post));
    assert(all.skip(1 + c.len() as int) =~= j + (seq![e.english_count] + v + post));
    assert(all.skip(1 + c.len() as int + j.len() as int) =~= seq![e.english_count] + (v + post));
    assert(all.skip(2 + c.len() as int + j.len() as int) =~= v + post);
    assert(all[0] == e.flags);
}

/// The entries that the stored entries stand for: each takes up the
/// definitions where the one before it left off, and adds its cost to that of
/// the one before it. Nothing where a count or a cost leaves 32 bits, or a
/// stored syllable has tone bits that say 7.
pub open spec fn absolute_entries(raws: Seq<RawEntry>) -> Option<Seq<EntryModel>>
    decreases raws.len(),
{
    if raws.len() == 0 {
        Some(Seq::empty())
    } else {
        match absolute_entries(raws.drop_last()) {
            None => None,
            Some(before) => {
                let raw = raws.last();
                let start = if before.len() == 0 {
                    0
                } else {
                    before.last().english_end as int
                };
                let prev = if before.len() == 0 {
                    0
                } else {
                    before.last().cost as int
                };
                if start + raw.english_count <= u32::MAX && prev + raw.cost_delta <= u32::MAX
                    && (forall|k: int|
                    0 <= k < raw.syllables.len() ==> #[trigger] raw.syllables[k] < 0xe000) {
                    Some(
                        before.push(
                            EntryModel {
                                characters: raw.characters,
                                jyutping: Seq::new(
                                    raw.syllables.len(),
                                    |k: int| Jyutping::spec_unpack(raw.syllables[k]),
                                ),
                                english_start: start as u32,
                                english_end: (start + raw.english_count) as u32,
                                cost: (prev + raw.cost_delta) as u32,
                                flags: raw.flags,
                            },
                        ),
                    )
                } else {
                    None
                }
            },
        }
    }
}

/// The entry as it is stored behind an entry of cost `prev`.
pub open spec fn raw_entry_of(e: EntryModel, prev: int) -> RawEntry {
    RawEntry {
        flags: e.flags,
        characters: e.characters,
        syllables: Seq::new(e.jyutping.len(), |k: int| e.jyutping[k].spec_pack()),
        english_count: (e.english_end - e.english_start) as u8,
        cost_delta: e.cost - prev,
    }
}

/// The entries as they are stored.
pub open spec fn raw_entries(entries: Seq<EntryModel>) -> Seq<RawEntry> {
    Seq::new(
        entries.len(),
        |i: int|
            raw_entry_of(
                entries[i],
                if i == 0 {
                    0
                } else {
                    entries[i - 1].cost as int
                },
            ),
    )
}

/// The offsets that the stored steps stand for; nothing where one leaves 32 bits.
pub open spec fn absolute_starts(deltas: Seq<int>) -> Option<Seq<u32>>
    decreases deltas.len(),
{
    if deltas.len() == 0 {
        Some(Seq::empty())
    } else {
        match absolute_starts(deltas.drop_last()) {
            None => None,
            Some(before) => {
                let prev = if before.len() == 0 {
                    0
                } else {
                    before.last() as int
                };
                if prev + deltas.last() <= u32::MAX {
                    Some(before.push((prev + deltas.last()) as u32))
                } else {
                    None
                }
            },
        }
    }
}

/// The offsets as they are stored: each as its step from the one before it.
pub open spec fn start_deltas(starts: Seq<u32>) -> Seq<int> {
    Seq::new(
        starts.len(),
        |i: int|
            starts[i] - if i == 0 {
                0
            } else {
                starts[i - 1] as int
            },
    )
}

/// An entry stored behind what came before it is read back behind the same:
/// one more entry of a chain is read back where the chain before it is.
pub proof fn lemma_entry_read_back(head: Seq<EntryModel>, e: EntryModel)
    requires
        absolute_entries(raw_entries(head)) == Some(head),
        head.len() == 0 ==> e.english_start == 0,
        head.len() > 0 ==> head.last().english_end == e.english_start && head.last().cost
            <= e.cost,
        e.english_start <= e.english_end,
        e.english_end - e.english_start < 256,
        forall|k: int| 0 <= k < e.jyutping.len() ==> (#[trigger] e.jyutping[k]).wf(),
    ensures
        absolute_entries(raw_entries(head.push(e))) == Some(head.push(e)),
{
    let entries = head.push(e);
    let raws = raw_entries(entries);
    let n = head.len() as int;
    assert(raws.drop_last() =~= raw_entries(head)) by {
        assert forall|i: int| 0 <= i < n implies raws.drop_last()[i] == raw_entries(head)[i] by {
            assert(entries[i] == head[i]);
            if i > 0 {
                assert(entries[i - 1] == head[i - 1]);
            }
        }
    }
    let prev: int = if n == 0 {
        0
    } else {
        head.last().cost as int
    };
    let start: int = if n == 0 {
        0
    } else {
        head.last().english_end as int
    };
    let raw = raws.last();
    assert(entries[n] == e);
    if n > 0 {
        assert(entries[n - 1] == head.last());
    }
    assert(raw == raw_entry_of(e, prev));
    assert(start == e.english_start);
    assert(raw.english_count as int == e.english_end - e.english_start);
    assert(start + raw.english_count == e.english_end);
    assert(prev + raw.cost_delta == e.cost);
    assert forall|k: int| 0 <= k < raw.syllables.len() implies #[trigger] raw.syllables[k]
        < 0xe000 by {
        assert(e.jyutping[k].wf());
        crate::compiled_dictionary::lemma_pack_unpack(e.jyutping[k]);
        assert(raw.syllables[k] == e.jyutping[k].spec_pack());
    }
    let jyutping = Seq::new(raw.syllables.len(), |k: int| Jyutping::spec_unpack(raw.syllables[k]));
    assert(jyutping =~= e.jyutping) by {
        assert forall|k: int| 0 <= k < jyutping.len() implies jyutping[k] == e.jyutping[k] by {
            assert(e.jyutping[k].wf());
            crate::compiled_dictionary::lemma_pack_unpack(e.jyutping[k]);
            assert(raw.syllables[k] == e.jyutping[k].spec_pack());
        }
    }
    let read = EntryModel {
        characters: raw.characters,
        jyutping,
        english_start: start as u32,
        english_end: (start + raw.english_count) as u32,
        cost: (prev + raw.cost_delta) as u32,
        flags: raw.flags,
    };
    assert(read == e);
    assert(absolute_entries(raws.drop_last()) == Some(head));
    assert(absolute_entries(raws) == Some(head.push(read)));
}

/// Entries that are chained and ordered are read back from their stored form.
pub proof fn lemma_entries_read_back(entries: Seq<EntryModel>)
    requires
        entries.len() > 0 ==> entries[0].english_start == 0,
        forall|i: int|
            0 <= i < entries.len() - 1 ==> (#[trigger] entries[i]).english_end == entries[i
                + 1].english_start && entries[i].cost <= entries[i + 1].cost,
        forall|i: int|
            0 <= i < entries.len() ==> (#[trigger] entries[i]).english_start
                <= entries[i].english_end && entries[i].english_end - entries[i].english_start
                < 256,
        forall|i: int, k: int|
            0 <= i < entries.len() && 0 <= k < entries[i].jyutping.len() ==> (
            #[trigger] entries[i].jyutping[k]).wf(),
    ensures
        absolute_entries(raw_entries(entries)) == Some(entries),
    decreases entries.len(),
{
    if entries.len() == 0 {
        assert(raw_entries(entries) =~= Seq::<RawEntry>::empty());
    } else {
        let head = entries.drop_last();
        let n = entries.len() - 1;
        let e = entries[n];
        assert forall|i: int, k: int|
            0 <= i < head.len() && 0 <= k < head[i].jyutping.len() implies (
        #[trigger] head[i].jyutping[k]).wf() by {
            assert(head[i] == entries[i]);
        }
        assert forall|i: int| 0 <= i < head.len() - 1 implies (#[trigger] head[i]).english_end
            == head[i + 1].english_start && head[i].cost <= head[i + 1].cost by {
            assert(head[i] == entries[i] && head[i + 1] == entries[i + 1]);
            assert(entries[i].english_end == entries[i + 1].english_start);
        }
        assert forall|i: int| 0 <= i < head.len() implies (#[trigger] head[i]).english_start
            <= head[i].english_end && head[i].english_end - head[i].english_start < 256 by {
            assert(head[i] == entries[i]);
        }
        if head.len() > 0 {
            assert(head[0] == entries[0]);
        }
        lemma_entries_read_back(head);
        if n > 0 {
            assert(head.last() == entries[n - 1]);
            assert(entries[n - 1].english_end == entries[n].english_start);
        }
        assert forall|k: int| 0 <= k < e.jyutping.len() implies (#[trigger] e.jyutping[k]).wf() by {
            assert(entries[n].jyutping[k].wf());
        }
        lemma_entry_read_back(head, e);
        assert(head.push(e) =~= entries);
    }
}

/// Offsets that never fall are read back from their stored form.
pub proof fn lemma_starts_read_back(starts: Seq<u32>)
    requires
        forall|i: int, j: int| 0 <= i <= j < starts.len() ==> starts[i] <= starts[j],
    ensures
        absolute_starts(start_deltas(starts)) == Some(starts),
    decreases starts.len(),
{
    if starts.len() > 0 {
        let head = starts.drop_last();
        assert(start_deltas(starts).drop_last() =~= start_deltas(head));
        lemma_starts_read_back(head);
        let n = starts.len() - 1;
        if n > 0 {
            assert(head.last() == starts[n - 1]);
        }
        assert(head.push(starts[n]) =~= starts);
    }
}

/// Reads the blob behind its magic bytes and its length.
pub open spec fn p_blob(rest: Seq<u8>) -> Option<(Seq<u8>, int)> {
    if rest.len() >= 12 && rest.subrange(0, 8) == spec_blob_header() && rest.len() >= 12
        + le_value(rest.skip(8), 4) {
        Some(
            (
                rest.subrange(12, 12 + le_value(rest.skip(8), 4)),
                12 + le_value(rest.skip(8), 4),
            ),
        )
    } else {
        None
    }
}

/// The blob behind its magic bytes and its length.
pub open spec fn s_blob(blob: Seq<u8>) -> Seq<u8> {
    spec_blob_header() + le_bytes(blob.len() as int, 4) + blob
}

/// The magic bytes and the version that open a dictionary.
pub open spec fn s_header() -> Seq<u8> {
    spec_file_header() + le_bytes(8, 4)
}

/// A dictionary as it is stored.
pub struct StoredDictionary {
    pub characters: Seq<char>,
    pub syllables: Seq<Seq<u8>>,
    pub entries: Seq<RawEntry>,
    pub english_data: Seq<u8>,
    pub start_deltas: Seq<int>,
}

/// The offsets and the padding, in bytes.
pub open spec fn s_from_starts(st: StoredDictionary) -> Seq<u8> {
    s_counted(vbyte_writer(), st.start_deltas) + le_bytes(0, 8)
}

/// The blob and what follows it, in bytes.
pub open spec fn s_from_blob(st: StoredDictionary) -> Seq<u8> {
    s_blob(st.english_data) + s_from_starts(st)
}

/// The entries and what follows them, in bytes.
pub open spec fn s_from_entries(st: StoredDictionary) -> Seq<u8> {
    s_counted(raw_entry_writer(), st.entries) + s_from_blob(st)
}

/// The syllable bases and what follows them, in bytes.
pub open spec fn s_from_syllables(st: StoredDictionary) -> Seq<u8> {
    s_counted(text_writer(), st.syllables) + s_from_entries(st)
}

/// The characters and what follows them, in bytes.
pub open spec fn s_from_characters(st: StoredDictionary) -> Seq<u8> {
    s_counted(char_writer(), st.characters) + s_from_syllables(st)
}

/// A stored dictionary, in bytes.
pub open spec fn s_stored(st: StoredDictionary) -> Seq<u8> {
    s_header() + s_from_characters(st)
}

/// Reads the offsets as they are stored.
pub open spec fn p_from_starts(rest: Seq<u8>) -> Option<(Seq<int>, int)> {
    p_counted(vbyte_reader(), rest)
}

/// Reads the blob and what follows it.
pub open spec fn p_from_blob(rest: Seq<u8>) -> Option<((Seq<u8>, Seq<int>), int)> {
    match p_blob(rest) {
        None => None,
        Some((english_data, used)) => match p_from_starts(rest.skip(used)) {
            None => None,
            Some((start_deltas, more)) => Some(((english_data, start_deltas), used + more)),
        },
    }
}

/// Reads the entries and what follows them.
pub open spec fn p_from_entries(rest: Seq<u8>) -> Option<
    ((Seq<RawEntry>, Seq<u8>, Seq<int>), int),
> {
    match p_counted(raw_entry_reader(), rest) {
        None => None,
        Some((entries, used)) => match p_from_blob(rest.skip(used)) {
            None => None,
            Some(((english_data, start_deltas), more)) => Some(
                ((entries, english_data, start_deltas), used + more),
            ),
        },
    }
}

/// Reads the syllable bases and what follows them.
pub open spec fn p_from_syllables(rest: Seq<u8>) -> Option<
    ((Seq<Seq<u8>>, Seq<RawEntry>, Seq<u8>, Seq<int>), int),
> {
    match p_counted(text_reader(), rest) {
        None => None,
        Some((syllables, used)) => match p_from_entries(rest.skip(used)) {
            None => None,
            Some(((entries, english_data, start_deltas), more)) => Some(
                ((syllables, entries, english_data, start_deltas), used + more),
            ),
        },
    }
}

/// Reads the characters and what follows them.
pub open spec fn p_from_characters(rest: Seq<u8>) -> Option<(StoredDictionary, int)> {
    match p_counted(char_reader(), rest) {
        None => None,
        Some((characters, used)) => match p_from_syllables(rest.skip(used)) {
            None => None,
            Some(((syllables, entries, english_data, start_deltas), more)) => Some(
                (
                    StoredDictionary { characters, syllables, entries, english_data, start_deltas },
                    used + more,
                ),
            ),
        },
    }
}

/// Reads a dictionary as it is stored, and says how many bytes that took,
/// the padding not counted.
pub open spec fn p_stored(rest: Seq<u8>) -> Option<(StoredDictionary, int)> {
    if rest.len() >= 12 && rest.subrange(0, 8) == spec_file_header() && le_value(rest.skip(8), 4)
        == 8 {
        match p_from_characters(rest.skip(12)) {
            None => None,
            Some((st, used)) => Some((st, 12 + used)),
        }
    } else {
        None
    }
}

/// The dictionary as it is stored.
pub open spec fn stored_of(d: DictionaryModel) -> StoredDictionary {
    StoredDictionary {
        characters: d.characters,
        syllables: d.syllables,
        entries: raw_entries(d.entries),
        english_data: d.english_data,
        start_deltas: start_deltas(d.english_data_starts),
    }
}

/// The dictionary that the stored one stands for, where it stands for a
/// valid one.
pub open spec fn assemble(st: StoredDictionary) -> Option<DictionaryModel> {
    match (absolute_entries(st.entries), absolute_starts(st.start_deltas)) {
        (Some(entries), Some(english_data_starts)) => {
            let d = DictionaryModel {
                characters: st.characters,
                syllables: st.syllables,
                entries,
                english_data: st.english_data,
                english_data_starts,
            };
            if d.wf() {
                Some(d)
            } else {
                None
            }
        },
        _ => None,
    }
}

/// The serialized form of a dictionary.
pub open spec fn s_dictionary(d: DictionaryModel) -> Seq<u8> {
    s_stored(stored_of(d))
}

/// Reads a dictionary: what it holds, and the number of bytes that it took,
/// the padding not counted. Nothing where the bytes are not the serialized
/// form of a valid dictionary.
pub open spec fn p_dictionary(rest: Seq<u8>) -> Option<(DictionaryModel, int)> {
    match p_stored(rest) {
        None => None,
        Some((st, used)) => match assemble(st) {
            None => None,
            Some(d) => Some((d, used)),
        },
    }
}

/// The magic bytes and the version are read back.
pub proof fn lemma_header_reads_back(post: Seq<u8>)
    ensures
        (s_header() + post).len() >= 12,
        (s_header() + post).subrange(0, 8) == spec_file_header(),
        le_value((s_header() + post).skip(8), 4) == 8,
        (s_header() + post).skip(12) == post,
        s_header().len() == 12,
{
    let all = s_header() + post;
    lemma_le_bytes_len(8, 4);
    assert(all.subrange(0, 8) =~= spec_file_header());
    assert(all.skip(8) =~= le_bytes(8, 4) + post);
    lemma_le_value_of_le_bytes(8, 4, post);
    assert(pow256(4) == 0x1_0000_0000) by {
        reveal_with_fuel(pow256, 5);
    }
    assert(all.skip(12) =~= post);
}

/// The characters are read back where four bytes follow them.
pub proof fn lemma_characters_read_back(characters: Seq<char>, post: Seq<u8>)
    requires
        characters.len() <= u32::MAX,
        post.len() >= 4,
    ensures
        p_counted(char_reader(), s_counted(char_writer(), characters) + post) == Some(
            (characters, s_counted(char_writer(), characters).len() as int),
        ),
{
    assert forall|i: int| 0 <= i < characters.len() implies reads_back(
        char_reader(),
        char_writer(),
        #[trigger] characters[i],
        4,
    ) by {
        let x = characters[i];
        assert forall|rest: Seq<u8>| rest.len() >= 4 implies #[trigger] char_reader()(
            char_writer()(x) + rest,
        ) == Some((x, char_writer()(x).len() as int)) by {
            lemma_char_reads_back(x, rest);
        }
    }
    lemma_counted_reads_back(char_reader(), char_writer(), characters, post, 4);
}

/// The texts are read back.
pub proof fn lemma_texts_read_back(texts: Seq<Seq<u8>>, post: Seq<u8>)
    requires
        texts.len() <= u32::MAX,
        forall|i: int|
            0 <= i < texts.len() ==> (#[trigger] texts[i]).len() <= u32::MAX && valid_utf8(texts[i]),
    ensures
        p_counted(text_reader(), s_counted(text_writer(), texts) + post) == Some(
            (texts, s_counted(text_writer(), texts).len() as int),
        ),
{
    assert forall|i: int| 0 <= i < texts.len() implies reads_back(
        text_reader(),
        text_writer(),
        #[trigger] texts[i],
        0,
    ) by {
        let x = texts[i];
        lemma_le_bytes_len(x.len() as int, 4);
        assert forall|rest: Seq<u8>| rest.len() >= 0 implies #[trigger] text_reader()(
            text_writer()(x) + rest,
        ) == Some((x, text_writer()(x).len() as int)) by {
            lemma_text_reads_back(x, rest);
        }
    }
    lemma_counted_reads_back(text_reader(), text_writer(), texts, post, 0);
}

/// The stored entries are read back where eight bytes follow them.
pub proof fn lemma_raw_entries_read_back(raws: Seq<RawEntry>, post: Seq<u8>)
    requires
        raws.len() <= u32::MAX,
        forall|i: int| 0 <= i < raws.len() ==> raw_entry_wf(#[trigger] raws[i]),
        post.len() >= 8,
    ensures
        p_counted(raw_entry_reader(), s_counted(raw_entry_writer(), raws) + post) == Some(
            (raws, s_counted(raw_entry_writer(), raws).len() as int),
        ),
{
    assert forall|i: int| 0 <= i < raws.len() implies reads_back(
        raw_entry_reader(),
        raw_entry_writer(),
        #[trigger] raws[i],
        8,
    ) by {
        let x = raws[i];
        assert forall|rest: Seq<u8>| rest.len() >= 8 implies #[trigger] raw_entry_reader()(
            raw_entry_writer()(x) + rest,
        ) == Some((x, raw_entry_writer()(x).len() as int)) by {
            lemma_raw_entry_reads_back(x, rest);
        }
    }
    lemma_counted_reads_back(raw_entry_reader(), raw_entry_writer(), raws, post, 8);
}

/// The stored steps are read back where eight bytes follow them.
pub proof fn lemma_deltas_read_back(deltas: Seq<int>, post: Seq<u8>)
    requires
        deltas.len() <= u32::MAX,
        forall|i: int| 0 <= i < deltas.len() ==> 0 <= #[trigger] deltas[i] < crate::vbyte::VBYTE_LIMIT,
        post.len() >= 8,
    ensures
        p_counted(vbyte_reader(), s_counted(vbyte_writer(), deltas) + post) == Some(
            (deltas, s_counted(vbyte_writer(), deltas).len() as int),
        ),
{
    assert forall|i: int| 0 <= i < deltas.len() implies reads_back(
        vbyte_reader(),
        vbyte_writer(),
        #[trigger] deltas[i],
        8,
    ) by {
        let x = deltas[i];
        assert forall|rest: Seq<u8>| rest.len() >= 8 implies #[trigger] vbyte_reader()(
            vbyte_writer()(x) + rest,
        ) == Some((x, vbyte_writer()(x).len() as int)) by {
            lemma_vbyte_reads_back(x, rest);
        }
    }
    lemma_counted_reads_back(vbyte_reader(), vbyte_writer(), deltas, post, 8);
}

/// The blob is read back.
pub proof fn lemma_blob_reads_back(blob: Seq<u8>, post: Seq<u8>)
    requires
        blob.len() <= u32::MAX,
    ensures
        p_blob(s_blob(blob) + post) == Some((blob, s_blob(blob).len() as int)),
        s_blob(blob).len() == 12 + blob.len(),
{
    let all = s_blob(blob) + post;
    lemma_le_bytes_len(blob.len() as int, 4);
    assert(all =~= spec_blob_header() + (le_bytes(blob.len() as int, 4) + (blob + post)));
    assert(all.subrange(0, 8) =~= spec_blob_header());
    assert(all.skip(8) =~= le_bytes(blob.len() as int, 4) + (blob + post));
    lemma_le_value_of_le_bytes(blob.len() as int, 4, blob + post);
    assert(pow256(4) == 0x1_0000_0000) by {
        reveal_with_fuel(pow256, 5);
    }
    assert(all.subrange(12, 12 + blob.len() as int) =~= blob);
}

/// In a valid dictionary every entry fits its record as it is stored, and
/// every offset steps on by a number that has a vbyte.
pub proof fn lemma_stored_parts_wf(d: DictionaryModel)
    requires
        d.wf(),
    ensures
        forall|i: int|
            0 <= i < raw_entries(d.entries).len() ==> raw_entry_wf(
                #[trigger] raw_entries(d.entries)[i],
            ),
        forall|i: int|
            0 <= i < start_deltas(d.english_data_starts).len() ==> 0 <= #[trigger] start_deltas(
                d.english_data_starts,
            )[i] < crate::vbyte::VBYTE_LIMIT,
        absolute_entries(raw_entries(d.entries)) == Some(d.entries),
        absolute_starts(start_deltas(d.english_data_starts)) == Some(d.english_data_starts),
{
    let raws = raw_entries(d.entries);
    assert forall|i: int| 0 <= i < raws.len() implies raw_entry_wf(#[trigger] raws[i]) by {
        assert(d.entry_wf(d.entries[i]));
        if i > 0 {
            assert(d.entries[i - 1].cost <= d.entries[i - 1 + 1].cost);
        }
    }
    let deltas = start_deltas(d.english_data_starts);
    assert forall|i: int| 0 <= i < deltas.len() implies 0 <= #[trigger] deltas[i]
        < crate::vbyte::VBYTE_LIMIT by {
        if i > 0 {
            assert(d.english_data_starts[i - 1] <= d.english_data_starts[i]);
        }
    }
    assert forall|i: int, k: int|
        0 <= i < d.entries.len() && 0 <= k < d.entries[i].jyutping.len() implies (
    #[trigger] d.entries[i].jyutping[k]).wf() by {
        assert(d.entry_wf(d.entries[i]));
    }
    assert forall|i: int| 0 <= i < d.entries.len() implies (#[trigger] d.entries[i]).english_start
        <= d.entries[i].english_end && d.entries[i].english_end - d.entries[i].english_start
        < 256 by {
        assert(d.entry_wf(d.entries[i]));
    }
    lemma_entries_read_back(d.entries);
    lemma_starts_read_back(d.english_data_starts);
}

/// What is stored is what it says: every entry fits its record, every step
/// has a vbyte, and counts and lengths fit 32 bits.
pub open spec fn stored_wf(st: StoredDictionary) -> bool {
    &&& st.characters.len() <= u32::MAX
    &&& st.syllables.len() <= u32::MAX
    &&& forall|i: int|
        0 <= i < st.syllables.len() ==> (#[trigger] st.syllables[i]).len() <= u32::MAX
            && valid_utf8(st.syllables[i])
    &&& st.entries.len() <= u32::MAX
    &&& forall|i: int| 0 <= i < st.entries.len() ==> raw_entry_wf(#[trigger] st.entries[i])
    &&& st.english_data.len() <= u32::MAX
    &&& st.start_deltas.len() <= u32::MAX
    &&& forall|i: int|
        0 <= i < st.start_deltas.len() ==> 0 <= #[trigger] st.start_deltas[i]
            < crate::vbyte::VBYTE_LIMIT
}

/// The offsets are read back before the padding.
proof fn lemma_from_starts_reads_back(st: StoredDictionary, post: Seq<u8>)
    requires
        stored_wf(st),
    ensures
        p_from_starts(s_from_starts(st) + post) == Some(
            (st.start_deltas, s_from_starts(st).len() - 8),
        ),
        s_from_starts(st).len() >= 8,
{
    let g = s_counted(vbyte_writer(), st.start_deltas);
    lemma_le_bytes_len(0, 8);
    assert(s_from_starts(st) + post =~= g + (le_bytes(0, 8) + post));
    lemma_deltas_read_back(st.start_deltas, le_bytes(0, 8) + post);
}

/// The blob and what follows it are read back.
proof fn lemma_from_blob_reads_back(st: StoredDictionary, post: Seq<u8>)
    requires
        stored_wf(st),
    ensures
        p_from_blob(s_from_blob(st) + post) == Some(
            ((st.english_data, st.start_deltas), s_from_blob(st).len() - 8),
        ),
        s_from_blob(st).len() >= 8,
{
    let f = s_blob(st.english_data);
    let next = s_from_starts(st) + post;
    let all = s_from_blob(st) + post;
    assert(all =~= f + next);
    lemma_blob_reads_back(st.english_data, next);
    assert(all.skip(f.len() as int) =~= next);
    lemma_from_starts_reads_back(st, post);
}

/// The entries and what follows them are read back.
proof fn lemma_from_entries_reads_back(st: StoredDictionary, post: Seq<u8>)
    requires
        stored_wf(st),
    ensures
        p_from_entries(s_from_entries(st) + post) == Some(
            ((st.entries, st.english_data, st.start_deltas), s_from_entries(st).len() - 8),
        ),
        s_from_entries(st).len() >= 8,
{
    let e = s_counted(raw_entry_writer(), st.entries);
    let next = s_from_blob(st) + post;
    let all = s_from_entries(st) + post;
    assert(all =~= e + next);
    lemma_from_blob_reads_back(st, post);
    lemma_raw_entries_read_back(st.entries, next);
    assert(all.skip(e.len() as int) =~= next);
}

/// The syllable bases and what follows them are read back.
proof fn lemma_from_syllables_reads_back(st: StoredDictionary, post: Seq<u8>)
    requires
        stored_wf(st),
    ensures
        p_from_syllables(s_from_syllables(st) + post) == Some(
            (
                (st.syllables, st.entries, st.english_data, st.start_deltas),
                s_from_syllables(st).len() - 8,
            ),
        ),
        s_from_syllables(st).len() >= 8,
{
    let c = s_counted(text_writer(), st.syllables);
    let next = s_from_entries(st) + post;
    let all = s_from_syllables(st) + post;
    assert(all =~= c + next);
    lemma_from_entries_reads_back(st, post);
    lemma_texts_read_back(st.syllables, next);
    assert(all.skip(c.len() as int) =~= next);
}

/// The characters and what follows them are read back.
proof fn lemma_from_characters_reads_back(st: StoredDictionary, post: Seq<u8>)
    requires
        stored_wf(st),
    ensures
        p_from_characters(s_from_characters(st) + post) == Some(
            (st, s_from_characters(st).len() - 8),
        ),
        s_from_characters(st).len() >= 8,
{
    let b = s_counted(char_writer(), st.characters);
    let next = s_from_syllables(st) + post;
    let all = s_from_characters(st) + post;
    assert(all =~= b + next);
    lemma_from_syllables_reads_back(st, post);
    lemma_characters_read_back(st.characters, next);
    assert(all.skip(b.len() as int) =~= next);
}

/// What is stored is read back, whatever bytes follow it; the padding is
/// left unread.
pub proof fn lemma_stored_reads_back(st: StoredDictionary, post: Seq<u8>)
    requires
        stored_wf(st),
    ensures
        p_stored(s_stored(st) + post) == Some((st, s_stored(st).len() - 8)),
{
    let next = s_from_characters(st) + post;
    let all = s_stored(st) + post;
    assert(all =~= s_header() + next);
    lemma_header_reads_back(next);
    lemma_from_characters_reads_back(st, post);
}

/// Reading the serialized form of a valid dictionary gives the dictionary
/// back, field by field, whatever bytes follow it; the padding is left unread.
pub proof fn lemma_serialize_deserialize(d: DictionaryModel, post: Seq<u8>)
    requires
        d.wf(),
    ensures
        p_dictionary(s_dictionary(d) + post) == Some((d, s_dictionary(d).len() - 8)),
{
    let st = stored_of(d);
    lemma_stored_parts_wf(d);
    assert(stored_wf(st));
    lemma_stored_reads_back(st, post);
    let read = DictionaryModel {
        characters: d.characters,
        syllables: d.syllables,
        entries: d.entries,
        english_data: d.english_data,
        english_data_starts: d.english_data_starts,
    };
    assert(read == d);
}

} // verus!
