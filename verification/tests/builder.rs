use dictlib::builder::{
    bytes_contain, cost_heuristic, matches_terms, Builder, DictionaryEntry, TextMap,
    TraditionalToJyutping,
};
use dictlib::compile::split_words;
use dictlib::compiled_dictionary::{
    CompiledDictionary, Jyutping, FLAG_SOURCE_CCCANTO, FLAG_SOURCE_CEDICT,
};
use dictlib::data_reader::DataReader;
use dictlib::data_writer::DataWriter;
use dictlib::{EntrySource, StringVecSet, Stopwatch};

struct NoStopwatch;

impl Stopwatch for NoStopwatch {
    fn elapsed_ms(&self) -> i32 {
        0
    }
}

fn entry(cost: u32, traditional: &str, jyutping: &str, english: &[&str], source: EntrySource) -> DictionaryEntry {
    let mut english_sets = StringVecSet { inner: vec![] };
    for e in english {
        english_sets.add_clone(e);
    }
    DictionaryEntry {
        cost,
        traditional: traditional.to_string(),
        jyutping: jyutping.to_string(),
        english_sets,
        source,
    }
}

fn sample() -> Builder {
    Builder {
        entries: vec![
            entry(300, "學生", "hok6 saang1", &["student"], EntrySource::CCanto),
            entry(100, "老師", "lou5 si1", &["teacher", "to teach"], EntrySource::CEDict),
            entry(300, "生", "saang1 ，sang1", &[], EntrySource::CEDict),
            entry(100, "老", "lou5", &["old"], EntrySource::CEDict),
        ],
    }
}

#[test]
fn building_sorts_by_cost_and_packs_over_the_alphabets() {
    let dict = CompiledDictionary::try_from_builder(sample()).expect("entries that fit");
    assert!(dict.is_valid());
    assert_eq!(vec!['學', '師', '生', '老'], dict.character_store.characters);
    assert_eq!(vec!["hok", "lou", "saang", "sang", "si"], dict.jyutping_store.base_strings);
    // ascending by cost, entries of equal cost in the order they were given
    let shown: Vec<String> = (0..4).map(|i| dict.get_display_entry(i).characters).collect();
    assert_eq!(vec!["老師", "老", "學生", "生"], shown);
    assert_eq!(vec![100, 100, 300, 300], dict.entries.iter().map(|e| e.cost).collect::<Vec<_>>());
    assert_eq!(vec![3, 1], dict.entries[0].characters);
    assert_eq!(
        vec![Jyutping { base: 1, tone: 5 }, Jyutping { base: 4, tone: 1 }],
        dict.entries[0].jyutping
    );
    assert_eq!(
        vec![Jyutping { base: 2, tone: 1 }, Jyutping { base: 3, tone: 1 }],
        dict.entries[3].jyutping
    );
    assert_eq!(
        vec![(0, 2), (2, 3), (3, 4), (4, 4)],
        dict.entries.iter().map(|e| (e.english_start, e.english_end)).collect::<Vec<_>>()
    );
    assert_eq!(
        vec![FLAG_SOURCE_CEDICT, FLAG_SOURCE_CEDICT, FLAG_SOURCE_CCCANTO, FLAG_SOURCE_CEDICT],
        dict.entries.iter().map(|e| e.flags).collect::<Vec<_>>()
    );
    assert_eq!(b"teacherto teacholdstudent".to_vec(), dict.english_data);
    assert_eq!(vec![0, 7, 15, 18, 25], dict.english_data_starts);
    let shown = dict.get_display_entry(0);
    assert_eq!("lou5 si1", shown.jyutping);
    assert_eq!(vec!["teacher", "to teach"], shown.english_definitions);
    assert_eq!(EntrySource::CEDict, shown.entry_source);
}

#[test]
fn built_dictionary_survives_writing_and_reading() {
    let dict = CompiledDictionary::from_builder(sample());
    let mut writer = DataWriter::new();
    dict.serialize(&mut writer);
    let mut reader = DataReader::new(&writer.inner);
    let read = CompiledDictionary::deserialize(&mut reader);
    assert_eq!(dict.character_store.characters, read.character_store.characters);
    assert_eq!(dict.jyutping_store.base_strings, read.jyutping_store.base_strings);
    assert_eq!(dict.english_data, read.english_data);
    assert_eq!(dict.english_data_starts, read.english_data_starts);
    assert_eq!(dict.entries.len(), read.entries.len());
    for (a, b) in dict.entries.iter().zip(read.entries.iter()) {
        assert_eq!(a.characters, b.characters);
        assert_eq!(a.jyutping, b.jyutping);
        assert_eq!((a.english_start, a.english_end), (b.english_start, b.english_end));
        assert_eq!((a.cost, a.flags), (b.cost, b.flags));
    }
    let result = read.search("lou5 si1", 8, Box::new(NoStopwatch));
    assert_eq!(0, result.matches[0].match_obj.entry_id);
    assert_eq!(100, result.matches[0].match_obj.cost_info.total());
}

#[test]
fn entries_that_cannot_be_stored_are_not_built() {
    let long: String = "老".repeat(128);
    let b = Builder { entries: vec![entry(1, &long, "lou5", &[], EntrySource::CEDict)] };
    assert!(CompiledDictionary::try_from_builder(b).is_none());
    let b = Builder { entries: vec![entry(1, &"老".repeat(127), "lou5", &[], EntrySource::CEDict)] };
    assert!(CompiledDictionary::try_from_builder(b).is_some());

    let b = Builder { entries: vec![entry(1, "老", "lou7", &[], EntrySource::CEDict)] };
    assert!(CompiledDictionary::try_from_builder(b).is_none());
    let b = Builder { entries: vec![entry(1, "老", "lou6 lou0", &[], EntrySource::CEDict)] };
    assert!(CompiledDictionary::try_from_builder(b).is_some());

    let many: String = "lou5 ".repeat(256);
    let b = Builder { entries: vec![entry(1, "老", &many, &[], EntrySource::CEDict)] };
    assert!(CompiledDictionary::try_from_builder(b).is_none());
    let b = Builder { entries: vec![entry(1, "老", &"lou5 ".repeat(255), &[], EntrySource::CEDict)] };
    assert!(CompiledDictionary::try_from_builder(b).is_some());

    let definitions: Vec<String> = (0..256).map(|i| format!("meaning {}", i)).collect();
    let refs: Vec<&str> = definitions.iter().map(|s| s.as_str()).collect();
    let b = Builder { entries: vec![entry(1, "老", "lou5", &refs, EntrySource::CEDict)] };
    assert!(CompiledDictionary::try_from_builder(b).is_none());
    let b = Builder { entries: vec![entry(1, "老", "lou5", &refs[..255], EntrySource::CEDict)] };
    assert!(CompiledDictionary::try_from_builder(b).is_some());

    let empty = CompiledDictionary::try_from_builder(Builder { entries: vec![] }).unwrap();
    assert!(empty.is_valid());
    assert_eq!(vec![0], empty.english_data_starts);
}

#[test]
fn romanisations_are_cut_into_syllables() {
    assert_eq!(vec!["hok6", "saang1"], split_words("hok6 saang1"));
    assert_eq!(vec!["a1", "b2"], split_words("a1b2 c 3"));
    assert!(split_words("").is_empty());
    assert!(split_words("老師 lou").is_empty());
}

#[test]
fn substrings_are_found_byte_for_byte() {
    assert!(bytes_contain(b"surname Wong", b"name"));
    assert!(bytes_contain(b"surname Wong", b""));
    assert!(bytes_contain(b"", b""));
    assert!(bytes_contain(b"surname Wong", b"surname Wong"));
    assert!(!bytes_contain(b"surname Wong", b"Surname"));
    assert!(!bytes_contain(b"surname", b"surname Wong"));
    assert!(!bytes_contain(b"aab", b"abb"));
    assert!(bytes_contain(b"aab", b"ab"));

    let defs = vec!["old".to_string(), "(Cantonese) teacher".to_string()];
    assert!(matches_terms(&["x", "teach"], &defs));
    assert!(!matches_terms(&["Teach", "young"], &defs));
    assert!(!matches_terms(&[], &defs));
    assert!(!matches_terms(&["old"], &[]));
}

#[test]
fn heuristic_cost_adds_up_what_the_wording_says() {
    let cost = |defs: &[&str]| {
        cost_heuristic(&defs.iter().map(|s| s.to_string()).collect::<Vec<_>>())
    };
    // no measure word, not marked as Cantonese
    assert_eq!(7000, cost(&[]));
    assert_eq!(7000, cost(&["teacher"]));
    assert_eq!(2000, cost(&["teacher", "CL:個"]));
    assert_eq!(5000, cost(&["(Cantonese) teacher"]));
    assert_eq!(0, cost(&["M: go3", "(Cantonese) teacher"]));
    assert_eq!(12000, cost(&["abbr. for teacher"]));
    assert_eq!(9000, cost(&["surname Wong"]));
    assert_eq!(9000, cost(&["Surname Wong"]));
    assert_eq!(17000, cost(&["Confucius (Buddhism)"]));
    assert_eq!(12000, cost(&["Tang Dynasty"]));
    assert_eq!(12000, cost(&["Northern Dynasties"]));
    assert_eq!(7000, cost(&["dynasty"]));
    assert_eq!(
        5000 + 2000 + 5000 + 5000 + 5000,
        cost(&["abbr. CL: Surname (Cantonese) Confucius Dynasty (Buddhism)"])
    );
}

#[test]
fn readings_are_noted_both_ways_and_annotate_entries() {
    let mut table = TraditionalToJyutping::new();
    table.add("老師", "lou5 si1");
    table.add("生", "sang1");
    table.add("生", "saang1");
    table.add("生", "SANG1");
    table.add("甥", "sang1");
    assert_eq!(vec!["生", "甥", "老師"], table.inner.keys);
    assert_eq!(vec!["sang1", "saang1"], table.inner.values[0].inner);
    // keys are told apart by case, the texts of a set are not
    assert_eq!(vec!["SANG1", "lou5 si1", "saang1", "sang1"], table.reverse.keys);
    assert_eq!(vec!["生", "甥"], table.reverse.values[3].inner);
    assert_eq!(Some(2), table.inner.find("老師"));
    assert_eq!(None, table.inner.find("老"));

    let mut builder = Builder {
        entries: vec![
            entry(1, "生", "", &["raw"], EntrySource::CEDict),
            entry(2, "老", "lou5", &["old"], EntrySource::CEDict),
            entry(3, "老師", "x", &["teacher"], EntrySource::CEDict),
        ],
    };
    builder.annotate(&table);
    assert_eq!(
        vec!["sang1", "lou5", "lou5 si1"],
        builder.entries.iter().map(|e| e.jyutping.as_str()).collect::<Vec<_>>()
    );
    assert_eq!(vec![1, 2, 3], builder.entries.iter().map(|e| e.cost).collect::<Vec<_>>());

    let mut map = TextMap::new();
    map.add("b", "1");
    map.add("a", "2");
    map.add("b", "3");
    assert_eq!(vec!["a", "b"], map.keys);
    assert_eq!(vec!["1", "3"], map.values[1].inner);
}

#[test]
fn a_map_is_valid_where_its_keys_ascend_and_no_set_is_empty() {
    let mut table = TraditionalToJyutping::new();
    assert!(table.inner.is_valid() && table.reverse.is_valid());
    table.add("老師", "lou5 si1");
    table.add("生", "saang1");
    table.add("生", "sang1");
    assert!(table.inner.is_valid() && table.reverse.is_valid());

    let set = |word: &str| StringVecSet { inner: vec![word.to_string()] };
    let map = TextMap { keys: vec!["b".to_string(), "a".to_string()], values: vec![set("x"), set("y")] };
    assert!(!map.is_valid());
    let map = TextMap { keys: vec!["a".to_string()], values: vec![] };
    assert!(!map.is_valid());
    let map = TextMap { keys: vec!["a".to_string()], values: vec![StringVecSet { inner: vec![] }] };
    assert!(!map.is_valid());
    let map = TextMap { keys: vec!["a".to_string(), "b".to_string()], values: vec![set("x"), set("y")] };
    assert!(map.is_valid());
}
