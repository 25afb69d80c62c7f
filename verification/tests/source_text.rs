use dictlib::source_text::{
    braced, ccanto_entry, cedict_entry, definitions_of, find_byte, line_head, line_is_blank,
    reading, reading_of, CharacterCosts, UNKNOWN_CHARACTER_COST,
};
use dictlib::EntrySource;

fn costs() -> CharacterCosts {
    CharacterCosts { characters: vec!['學', '師', '老'], costs: vec![700, 1200, 300] }
}

#[test]
fn blank_lines_and_comments_hold_nothing() {
    assert!(line_is_blank(""));
    assert!(line_is_blank("# CC-CEDICT"));
    assert!(line_is_blank("#"));
    assert!(!line_is_blank(" # indented"));
    assert!(!line_is_blank("老師 老师 [lao3 shi1] /teacher/"));
}

#[test]
fn bytes_are_found_from_a_place_on() {
    assert_eq!(Some(1), find_byte(b"a b c", b' ', 0));
    assert_eq!(Some(1), find_byte(b"a b c", b' ', 1));
    assert_eq!(Some(3), find_byte(b"a b c", b' ', 2));
    assert_eq!(None, find_byte(b"a b c", b' ', 4));
    assert_eq!(None, find_byte(b"a b c", b' ', 9));
    assert_eq!(None, find_byte(b"", b' ', 0));
}

#[test]
fn the_head_of_a_line_is_the_word_and_what_follows_the_pinyin() {
    assert_eq!(
        Some(("老師", "/teacher/CL:個|个[ge4]/")),
        line_head("老師 老师 [lao3 shi1] /teacher/CL:個|个[ge4]/")
    );
    assert_eq!(Some(("老", "")), line_head("老 老 [lao3] "));
    assert_eq!(Some(("", "x")), line_head("  [] x"));
    // no second space, no pinyin, pinyin not closed, nothing behind the pinyin
    assert_eq!(None, line_head("老師"));
    assert_eq!(None, line_head("老師 老师"));
    assert_eq!(None, line_head("老師 老师 lao3 /teacher/"));
    assert_eq!(None, line_head("老師 老师 [lao3 /teacher/"));
    assert_eq!(None, line_head("老師 老师 [lao3]"));
    // two bytes behind the pinyin stand in the middle of a character
    assert_eq!(None, line_head("老師 老师 [lao3]老"));
    assert_eq!(Some(("老師", "老")), line_head("老師 老师 [lao3] 老"));
}

#[test]
fn the_romanisation_stands_in_braces() {
    assert_eq!(Some(("lou5 si1", "/teacher/")), braced("{lou5 si1} /teacher/"));
    assert_eq!(Some(("", "")), braced("{} "));
    assert_eq!(None, braced("{lou5 si1}"));
    assert_eq!(None, braced("{lou5 si1"));
    assert_eq!(None, braced("lou5 si1} /teacher/"));
    assert_eq!(None, braced(""));
    assert_eq!(Some("lou5 si1"), reading("{lou5 si1}"));
    assert_eq!(Some("lou5 si1}"), reading("{lou5 si1} "));
    assert_eq!(Some(""), reading("{}"));
    assert_eq!(None, reading("{"));
    assert_eq!(None, reading("lou5}"));
    assert_eq!(None, reading("{lou5老"));
}

#[test]
fn definitions_are_cut_trimmed_and_told_apart_without_case() {
    let d = |text: &str| definitions_of(text).inner;
    assert_eq!(vec!["teacher", "CL:個|个[ge4]"], d("/teacher/CL:個|个[ge4]/"));
    assert_eq!(vec!["to teach", "a b"], d("/ to teach /\u{3000}a b\t/ /\u{a0}// "));
    assert_eq!(vec!["Teacher"], d("/Teacher/teacher/TEACHER/"));
    assert_eq!(vec!["old"], d("/old/ # not /young/"));
    assert_eq!(vec!["old", "x"], d("old/x"));
    assert!(d("").is_empty());
    assert!(d("///").is_empty());
    assert!(d("#/old/").is_empty());
}

#[test]
fn a_line_of_cedict_gives_an_entry_with_its_cost() {
    let entry = cedict_entry("老師 老师 [lao3 shi1] /teacher/CL:個|个[ge4]/", &costs()).unwrap();
    assert_eq!("老師", entry.traditional);
    assert_eq!("", entry.jyutping);
    assert_eq!(vec!["teacher", "CL:個|个[ge4]"], entry.english_sets.inner);
    assert_eq!(EntrySource::CEDict, entry.source);
    // the characters, and no mark that the word is Cantonese
    assert_eq!(300 + 1200 + 2000, entry.cost);

    let entry = cedict_entry("生 生 [sheng1] /(Cantonese) raw/", &costs()).unwrap();
    assert_eq!(UNKNOWN_CHARACTER_COST + 5000, entry.cost);
    assert_eq!(64_000, UNKNOWN_CHARACTER_COST);

    assert!(cedict_entry("老師 老师 /teacher/", &costs()).is_none());
    let empty = CharacterCosts { characters: vec![], costs: vec![] };
    assert_eq!(64_000, empty.cost_of('老'));
    assert_eq!(Some(0), empty.cost_of_all(""));
    assert_eq!(Some(300 + 700 + 300), costs().cost_of_all("老學老"));
    let dear = CharacterCosts { characters: vec!['a'], costs: vec![u32::MAX] };
    assert_eq!(Some(u32::MAX), dear.cost_of_all("a"));
    assert_eq!(None, dear.cost_of_all("aa"));
    assert!(cedict_entry("a a [a] /(Cantonese) M: a/", &dear).is_some());
    assert!(cedict_entry("a a [a] /a/", &dear).is_none());
}

#[test]
fn a_line_of_ccanto_gives_an_entry_with_its_cost() {
    let entry =
        ccanto_entry("老師 老师 [lao3 shi1] {lou5 si1} /teacher/M: go3/ # a note").unwrap();
    assert_eq!("老師", entry.traditional);
    assert_eq!("lou5 si1", entry.jyutping);
    assert_eq!(vec!["teacher", "M: go3"], entry.english_sets.inner);
    assert_eq!(EntrySource::CCanto, entry.source);
    // two syllables, and no mark that the word is Cantonese
    assert_eq!(15_000 + 2 * 1_000 + 2000, entry.cost);

    let entry = ccanto_entry("老 老 [lao3] {lou} /x/").unwrap();
    assert_eq!(15_000 + 7000, entry.cost);

    assert!(ccanto_entry("老師 老师 [lao3 shi1] /teacher/").is_none());
    assert!(ccanto_entry("老師 老师 [lao3 shi1] {lou5 si1}").is_none());
}

#[test]
fn a_line_of_readings_gives_a_word_and_its_reading() {
    assert_eq!(Some(("老師", "lou5 si1")), reading_of("老師 老师 [lao3 shi1] {lou5 si1}"));
    assert_eq!(None, reading_of("老師 老师 [lao3 shi1] lou5 si1"));
    assert_eq!(None, reading_of("老師 老师 [lao3 shi1]"));
}

#[test]
fn a_table_of_costs_is_valid_where_its_characters_ascend() {
    assert!(costs().is_valid());
    assert!(CharacterCosts { characters: vec![], costs: vec![] }.is_valid());
    assert!(!CharacterCosts { characters: vec!['a'], costs: vec![] }.is_valid());
    assert!(!CharacterCosts { characters: vec!['b', 'a'], costs: vec![1, 2] }.is_valid());
    assert!(!CharacterCosts { characters: vec!['a', 'a'], costs: vec![1, 2] }.is_valid());
}
