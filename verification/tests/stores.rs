use dictlib::alphabet::find_text;
use dictlib::compiled_dictionary::{
    CharacterStore, CompiledDictionaryEntry, DisplayDictionaryEntry, Jyutping, JyutpingStore,
    CURRENT_VERSION, ENGLISH_BLOB_HEADER, FILE_HEADER, FLAG_SOURCE_CCCANTO, FLAG_SOURCE_CEDICT,
};
use dictlib::data_reader::DataReader;
use dictlib::data_writer::DataWriter;
use dictlib::validity::{bytes_less, chars_ascend, texts_ascend};
use dictlib::{EntrySource, OffsetString, StringVecSet};

#[test]
fn pack_and_unpack_over_all_thirteen_bits() {
    for base in [0u16, 1, 4095, 4096, 5000, 8191] {
        for tone in 0u8..=6 {
            let j = Jyutping { base, tone };
            let packed = j.pack();
            assert_eq!(base | ((tone as u16) << 13), packed);
            assert_eq!(j, Jyutping::unpack(packed));
        }
    }
    assert_eq!(0xdfff, Jyutping { base: 8191, tone: 6 }.pack());
}

#[test]
fn the_magic_bytes_spell_their_names() {
    assert_eq!(b"jyp_dict", &FILE_HEADER);
    assert_eq!(b"en_data_", &ENGLISH_BLOB_HEADER);
    assert_eq!(8, CURRENT_VERSION);
}

#[test]
fn characters_are_sorted_and_found_by_their_place() {
    let store = CharacterStore::from_chars(vec!['老', 'a', '學', '😭', '師', 'é']);
    assert_eq!(vec!['a', 'é', '學', '師', '老', '😭'], store.characters);
    assert!(store.is_valid());
    for (i, c) in store.characters.iter().enumerate() {
        assert_eq!(Some(i as u16), store.char_to_index(*c));
    }
    assert_eq!(None, store.char_to_index('b'));
    assert_eq!(None, store.char_to_index('\0'));
    assert_eq!(None, store.char_to_index('\u{10ffff}'));
    assert_eq!(None, CharacterStore { characters: vec![] }.char_to_index('a'));

    let twice = CharacterStore::from_chars(vec!['b', 'a', 'b']);
    assert_eq!(vec!['a', 'b', 'b'], twice.characters);
    assert!(!twice.is_valid());

    let mut store = CharacterStore { characters: vec![] };
    for c in "lou5 si1 lou5".chars() {
        store.insert(c);
    }
    assert_eq!(vec![' ', '1', '5', 'i', 'l', 'o', 's', 'u'], store.characters);
}

#[test]
fn bases_are_sorted_by_their_bytes_and_found_by_their_place() {
    let store = JyutpingStore::from_strings(
        ["si", "saang", "lou", "hok", "s", "Si", "lo", "é"].iter().map(|s| s.to_string()).collect(),
    );
    assert_eq!(vec!["Si", "hok", "lo", "lou", "s", "saang", "si", "é"], store.base_strings);
    assert!(store.is_valid());
    assert_eq!(Some(Jyutping { base: 3, tone: 5 }), store.get("lou5"));
    assert_eq!(Some(Jyutping { base: 2, tone: 9 }), store.get("lo9"));
    assert_eq!(None, store.get("lou55"));
    assert_eq!(None, store.get("l5"));
    assert_eq!(Some(Jyutping { base: 7, tone: 0 }), store.get_with_tone("é", 0));
    assert_eq!(None, store.get_with_tone("", 1));
    assert_eq!(None, store.get_with_tone("sI", 1));
    assert_eq!("saang1", store.get_string(Jyutping { base: 5, tone: 1 }));
    assert_eq!("é0", store.get_string(Jyutping { base: 7, tone: 0 }));

    assert_eq!((true, 4), find_text(&store.base_strings, b"s"));
    assert_eq!((false, 5), find_text(&store.base_strings, b"sa"));
    assert_eq!((false, 0), find_text(&store.base_strings, b""));
    assert_eq!((false, 8), find_text(&store.base_strings, "é\u{0}".as_bytes()));

    let mut store = JyutpingStore { base_strings: vec![] };
    for word in ["si", "lou", "si", "hok", "lou"] {
        store.insert(word);
    }
    assert_eq!(vec!["hok", "lou", "si"], store.base_strings);
}

#[test]
fn the_order_of_bytes_puts_a_prefix_first() {
    assert!(bytes_less(b"", b"a"));
    assert!(!bytes_less(b"", b""));
    assert!(!bytes_less(b"a", b""));
    assert!(bytes_less(b"a", b"aa"));
    assert!(bytes_less(b"ab", b"b"));
    assert!(!bytes_less(b"b", b"ab"));
    assert!(!bytes_less(b"ab", b"ab"));
    assert!(bytes_less(b"Z", b"a"));
    assert!(bytes_less(b"z", "é".as_bytes()));
}

#[test]
fn the_source_is_read_from_the_flags() {
    let entry = |flags: u8| CompiledDictionaryEntry {
        characters: vec![],
        jyutping: vec![],
        english_start: 0,
        english_end: 0,
        cost: 0,
        flags,
    };
    assert_eq!(EntrySource::CEDict, entry(FLAG_SOURCE_CEDICT).get_source());
    assert_eq!(EntrySource::CCanto, entry(FLAG_SOURCE_CCCANTO).get_source());
    assert_eq!(EntrySource::CEDict, entry(3).get_source());
    assert_eq!(EntrySource::CCanto, entry(0x82).get_source());
}

#[test]
fn string_set_does_not_regard_case() {
    let mut set = StringVecSet::single("Teacher".to_string());
    assert!(set.contains("teacher"));
    assert!(set.contains("TEACHER"));
    assert!(!set.contains("teach"));
    assert!(!set.contains(""));
    set.add_clone("teacher");
    set.add("to teach".to_string());
    set.add("TO TEACH".to_string());
    set.add_clone("é");
    set.add_clone("É");
    assert_eq!(vec!["Teacher", "to teach", "é", "É"], set.inner);
    let mut other = StringVecSet { inner: vec![] };
    other.add_clone("student");
    other.add_clone("TEACHER");
    other.add_clone("pupil");
    set.extend(other);
    assert_eq!(vec!["Teacher", "to teach", "é", "É", "student", "pupil"], set.inner);
}

#[test]
fn writer_and_reader_agree_on_every_primitive() {
    let mut w = DataWriter::new();
    w.write_u8(0xab);
    w.write_u16(0x1234);
    w.write_u32(0xdead_beef);
    w.write_u64(0x0102_0304_0506_0708);
    w.write_string("老師 teacher");
    w.write_bytes_and_length(&[1, 2, 3]);
    w.write_bytes(&[9, 8]);
    for c in ['a', 'é', '老', '😭', '\u{7f}', '\u{80}', '\u{7ff}', '\u{800}', '\u{ffff}', '\u{10000}'] {
        w.write_utf8(c);
    }
    w.write_u32(5);
    w.write_bytes(b"hello");
    w.write_vbyte(300);
    w.write_u64(0);
    assert_eq!(w.write_len, w.inner.len());
    assert_eq!(&[0xab, 0x34, 0x12, 0xef, 0xbe, 0xad, 0xde, 8, 7, 6, 5, 4, 3, 2, 1], &w.inner[..15]);

    let mut r = DataReader::new(&w.inner);
    assert_eq!(0xab, r.read_u8());
    assert_eq!(0x1234, r.read_u16());
    assert_eq!(0xdead_beef, r.read_u32());
    assert_eq!(0x0102_0304_0506_0708, r.read_u64());
    assert_eq!("老師 teacher", r.read_string());
    assert_eq!(3, r.read_u32());
    assert_eq!(&[1, 2, 3], r.read_bytes_len(3));
    r.skip(2);
    for c in ['a', 'é', '老', '😭', '\u{7f}', '\u{80}', '\u{7ff}', '\u{800}', '\u{ffff}', '\u{10000}'] {
        assert_eq!(c, r.read_utf8_char());
    }
    let offset: OffsetString = r.read_offset_string();
    assert_eq!(5, offset.len);
    assert_eq!(b"hello", &w.inner[offset.start as usize..(offset.start + offset.len) as usize]);
    assert_eq!(300, r.peek_vbyte());
    assert_eq!(300, r.read_vbyte());
    assert_eq!(8, r.remaining());

    let r = DataReader::new_at(&w.inner, 1);
    assert_eq!(1, r.position);
    assert_eq!(w.inner.len() - 1, r.remaining());
    assert_eq!(0, DataReader::new_at(&w.inner, w.inner.len() + 5).remaining());
}

#[test]
fn bytes_that_are_no_text_are_not_read_as_text() {
    // overlong, surrogate, too large, cut short, stray continuation byte
    for bad in [
        [0xc0u8, 0x80, 0, 0],
        [0xe0, 0x80, 0x80, 0],
        [0xed, 0xa0, 0x80, 0],
        [0xf4, 0x90, 0x80, 0x80],
        [0xf8, 0x80, 0x80, 0x80],
        [0xe8, 0x80, b'a', 0],
        [0x80, b'a', 0, 0],
        [0xff, 0, 0, 0],
    ] {
        let mut r = DataReader::new(&bad);
        assert_eq!(None, r.try_read_utf8_char(), "{:x?}", bad);
        assert_eq!(0, r.position);
    }
    let good = [0xf4u8, 0x8f, 0xbf, 0xbf];
    assert_eq!(Some('\u{10ffff}'), DataReader::new(&good).try_read_utf8_char());

    let mut w = DataWriter::new();
    w.write_bytes_and_length(&[b'a', 0xff]);
    let mut r = DataReader::new(&w.inner);
    assert_eq!(None, r.try_read_string());
    assert_eq!(0, r.position);
    // a length that reaches beyond the buffer
    let short = [9u8, 0, 0, 0, b'a'];
    assert_eq!(None, DataReader::new(&short).try_read_string());
    assert_eq!(None, DataReader::new(&short[..3]).try_read_string());
}

#[test]
fn display_entry_writes_out_all_fields() {
    let dict = dictlib::compiled_dictionary::CompiledDictionary {
        character_store: CharacterStore { characters: vec!['師', '老'] },
        jyutping_store: JyutpingStore { base_strings: vec!["lou".to_string(), "si".to_string()] },
        entries: vec![CompiledDictionaryEntry {
            characters: vec![1, 0],
            jyutping: vec![Jyutping { base: 0, tone: 5 }, Jyutping { base: 1, tone: 1 }],
            english_start: 0,
            english_end: 2,
            cost: 42,
            flags: FLAG_SOURCE_CCCANTO,
        }],
        english_data: "teacherto téach".as_bytes().to_vec(),
        english_data_starts: vec![0, 7, 16],
    };
    assert!(dict.is_valid());
    let shown: DisplayDictionaryEntry = dict.get_display_entry(0);
    assert_eq!("老師", shown.characters);
    assert_eq!("lou5 si1", shown.jyutping);
    assert_eq!(vec!["teacher", "to téach"], shown.english_definitions);
    assert_eq!(42, shown.cost);
    assert_eq!(EntrySource::CCanto, shown.entry_source);
    let again = DisplayDictionaryEntry::from_entry(&dict.entries[0], &dict);
    assert_eq!(shown.jyutping, again.jyutping);
    assert_eq!(shown.characters, dict.get_diplay_entry(0).characters);
}

#[test]
fn ascending_means_strictly_ascending() {
    assert!(chars_ascend(&vec![]));
    assert!(chars_ascend(&vec!['x']));
    assert!(chars_ascend(&vec!['a', 'b', '老']));
    assert!(!chars_ascend(&vec!['a', 'b', 'b']));
    assert!(!chars_ascend(&vec!['a', 'c', 'b']));
    let texts = |words: &[&str]| words.iter().map(|w| w.to_string()).collect::<Vec<String>>();
    assert!(texts_ascend(&texts(&[])));
    assert!(texts_ascend(&texts(&["", "a", "aa", "b"])));
    assert!(!texts_ascend(&texts(&["a", "a"])));
    assert!(!texts_ascend(&texts(&["a", "c", "b"])));
    assert!(!texts_ascend(&texts(&["a", ""])));
}
