use dictlib::compiled_dictionary::{
    CharacterStore, CompiledDictionary, CompiledDictionaryEntry, Jyutping, JyutpingStore,
    FLAG_SOURCE_CCCANTO, FLAG_SOURCE_CEDICT,
};
use dictlib::data_reader::DataReader;
use dictlib::data_writer::DataWriter;

fn sample() -> CompiledDictionary {
    CompiledDictionary {
        character_store: CharacterStore { characters: vec!['a', 'é', '學', '師', '生', '老', '😭'] },
        jyutping_store: JyutpingStore {
            base_strings: vec![
                "hok".to_string(),
                "lou".to_string(),
                "saang".to_string(),
                "si".to_string(),
            ],
        },
        entries: vec![
            CompiledDictionaryEntry {
                characters: vec![5, 3],
                jyutping: vec![Jyutping { base: 1, tone: 5 }, Jyutping { base: 3, tone: 1 }],
                english_start: 0,
                english_end: 2,
                cost: 100,
                flags: FLAG_SOURCE_CEDICT,
            },
            CompiledDictionaryEntry {
                characters: vec![2, 4, 6, 0, 1],
                jyutping: vec![Jyutping { base: 0, tone: 6 }, Jyutping { base: 2, tone: 1 }],
                english_start: 2,
                english_end: 3,
                cost: 70_000,
                flags: FLAG_SOURCE_CCCANTO,
            },
            CompiledDictionaryEntry {
                characters: vec![],
                jyutping: vec![],
                english_start: 3,
                english_end: 3,
                cost: 5_000_000,
                flags: FLAG_SOURCE_CCCANTO | FLAG_SOURCE_CEDICT,
            },
        ],
        english_data: "teacherto teachstudént".as_bytes().to_vec(),
        english_data_starts: vec![0, 7, 15, 23],
    }
}

fn assert_same(a: &CompiledDictionary, b: &CompiledDictionary) {
    assert_eq!(a.character_store.characters, b.character_store.characters);
    assert_eq!(a.jyutping_store.base_strings, b.jyutping_store.base_strings);
    assert_eq!(a.entries.len(), b.entries.len());
    for (x, y) in a.entries.iter().zip(b.entries.iter()) {
        assert_eq!(x.characters, y.characters);
        assert_eq!(x.jyutping, y.jyutping);
        assert_eq!(x.english_start, y.english_start);
        assert_eq!(x.english_end, y.english_end);
        assert_eq!(x.cost, y.cost);
        assert_eq!(x.flags, y.flags);
    }
    assert_eq!(a.english_data, b.english_data);
    assert_eq!(a.english_data_starts, b.english_data_starts);
}

#[test]
fn serialize_then_deserialize_gives_the_dictionary_back() {
    let dict = sample();
    assert!(dict.is_valid());
    let mut writer = DataWriter::new();
    dict.serialize(&mut writer);
    assert_eq!(writer.write_len, writer.inner.len());

    let mut reader = DataReader::new(&writer.inner);
    let read = CompiledDictionary::try_deserialize(&mut reader).expect("a valid dictionary");
    assert_same(&dict, &read);
    // The padding is left unread.
    assert_eq!(reader.position + 8, writer.inner.len());
    assert_eq!(&writer.inner[reader.position..], &[0u8; 8]);

    let mut reader = DataReader::new(&writer.inner);
    let read = CompiledDictionary::deserialize(&mut reader);
    assert_same(&dict, &read);
}

#[test]
fn serialized_form_is_laid_out_as_documented() {
    let dict = CompiledDictionary {
        character_store: CharacterStore { characters: vec!['老'] },
        jyutping_store: JyutpingStore { base_strings: vec!["lou".to_string()] },
        entries: vec![CompiledDictionaryEntry {
            characters: vec![0],
            jyutping: vec![Jyutping { base: 0, tone: 5 }],
            english_start: 0,
            english_end: 1,
            cost: 100,
            flags: FLAG_SOURCE_CEDICT,
        }],
        english_data: b"old".to_vec(),
        english_data_starts: vec![0, 3],
    };
    let mut writer = DataWriter::new();
    dict.serialize(&mut writer);
    let mut expected: Vec<u8> = Vec::new();
    expected.extend_from_slice(b"jyp_dict");
    expected.extend_from_slice(&[8, 0, 0, 0]);
    expected.extend_from_slice(&[1, 0, 0, 0]);
    expected.extend_from_slice("老".as_bytes());
    expected.extend_from_slice(&[1, 0, 0, 0]);
    expected.extend_from_slice(&[3, 0, 0, 0]);
    expected.extend_from_slice(b"lou");
    expected.extend_from_slice(&[1, 0, 0, 0]);
    // flags, one character id, one packed syllable (tone 5 above base 0),
    // one definition, cost 100 as a two-byte vbyte
    expected.extend_from_slice(&[1, 1, 0, 0, 1, 0x00, 0xa0, 1, 0x91, 0x01]);
    expected.extend_from_slice(b"en_data_");
    expected.extend_from_slice(&[3, 0, 0, 0]);
    expected.extend_from_slice(b"old");
    expected.extend_from_slice(&[2, 0, 0, 0]);
    expected.extend_from_slice(&[0, 3 << 2]);
    expected.extend_from_slice(&[0; 8]);
    assert_eq!(expected, writer.inner);
}

#[test]
fn malformed_bytes_are_not_read() {
    let dict = sample();
    let mut writer = DataWriter::new();
    dict.serialize(&mut writer);
    let good = writer.inner.clone();

    // wrong magic
    let mut bad = good.clone();
    bad[0] = b'x';
    let mut reader = DataReader::new(&bad);
    assert!(CompiledDictionary::try_deserialize(&mut reader).is_none());
    assert_eq!(0, reader.position);

    // wrong version
    let mut bad = good.clone();
    bad[8] = 7;
    assert!(CompiledDictionary::try_deserialize(&mut DataReader::new(&bad)).is_none());

    // cut off anywhere up to the padding: the last vbyte wants eight bytes
    for len in 0..=(good.len() - 8) {
        let mut reader = DataReader::new(&good[..len]);
        assert!(CompiledDictionary::try_deserialize(&mut reader).is_none(), "length {}", len);
        assert_eq!(0, reader.position);
    }
}

#[test]
fn dictionaries_that_break_the_rules_are_not_valid() {
    assert!(sample().is_valid());

    let mut d = sample();
    d.character_store.characters.swap(0, 1);
    assert!(!d.is_valid());

    let mut d = sample();
    d.jyutping_store.base_strings[1] = "hok".to_string();
    assert!(!d.is_valid());

    let mut d = sample();
    d.entries[0].jyutping[0].tone = 7;
    assert!(!d.is_valid());

    let mut d = sample();
    d.entries[0].flags = 0;
    assert!(!d.is_valid());

    let mut d = sample();
    d.entries[0].characters[0] = 7;
    assert!(!d.is_valid());

    let mut d = sample();
    d.entries[1].cost = 99;
    assert!(!d.is_valid());

    let mut d = sample();
    d.entries[1].english_start = 1;
    assert!(!d.is_valid());

    let mut d = sample();
    d.english_data_starts[1] = 16;
    assert!(!d.is_valid());

    let mut d = sample();
    d.english_data_starts[3] = 24;
    assert!(!d.is_valid());

    // an offset inside the two bytes of 'é' cuts a definition that is no text
    let mut d = sample();
    d.english_data_starts[2] = 20;
    assert!(!d.is_valid());
}

#[test]
fn a_packed_syllable_with_tone_seven_is_not_read() {
    let dict = sample();
    let mut writer = DataWriter::new();
    dict.serialize(&mut writer);
    let mut bytes = writer.inner.clone();
    // find the first packed syllable (base 1, tone 5) and turn its tone to 7
    let at = bytes.windows(2).position(|w| w == [0x01, 0xa0]).unwrap();
    bytes[at + 1] = 0xe0;
    assert!(CompiledDictionary::try_deserialize(&mut DataReader::new(&bytes)).is_none());
}
