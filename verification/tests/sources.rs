use dictlib::builder::{Builder, TraditionalToJyutping};
use dictlib::source_text::CharacterCosts;
use dictlib::sources::next_line;
use dictlib::EntrySource;

fn costs() -> CharacterCosts {
    CharacterCosts { characters: vec!['學', '師', '老'], costs: vec![700, 1200, 300] }
}

#[test]
fn lines_end_at_line_feeds() {
    let text = "one\ntwo\r\n\nfour\r";
    assert_eq!(("one", 4), next_line(text, 0));
    assert_eq!(("ne", 4), next_line(text, 1));
    assert_eq!(("", 4), next_line(text, 3));
    assert_eq!(("two", 9), next_line(text, 4));
    assert_eq!(("", 9), next_line(text, 7));
    assert_eq!(("", 10), next_line(text, 9));
    // a carriage return with no line feed behind it belongs to the line
    assert_eq!(("four\r", 15), next_line(text, 10));
    assert_eq!(("\r", 3), next_line("\r\r\n", 0));
    assert_eq!(("老", 4), next_line("老\n師", 0));
    assert_eq!(("師", 7), next_line("老\n師", 4));
}

#[test]
fn a_text_of_cedict_gives_its_entries_in_order() {
    let text = "# CC-CEDICT\n\
                老師 老师 [lao3 shi1] /teacher/CL:個|个[ge4]/\r\n\
                \n\
                #! date=2023\n\
                學 学 [xue2] /to learn/\n";
    let mut builder = Builder { entries: Vec::new() };
    assert!(builder.parse_cedict(text, &costs()));
    assert_eq!(2, builder.entries.len());
    assert_eq!("老師", builder.entries[0].traditional);
    assert_eq!("", builder.entries[0].jyutping);
    assert_eq!(vec!["teacher", "CL:個|个[ge4]"], builder.entries[0].english_sets.inner);
    assert_eq!(EntrySource::CEDict, builder.entries[0].source);
    assert_eq!(300 + 1200 + 2000, builder.entries[0].cost);
    assert_eq!("學", builder.entries[1].traditional);
    assert_eq!(vec!["to learn"], builder.entries[1].english_sets.inner);
    // no measure word, and no mark that the word is Cantonese
    assert_eq!(700 + 5000 + 2000, builder.entries[1].cost);

    // more entries come behind those that are there
    assert!(builder.parse_cedict("師 师 [shi1] /master/", &costs()));
    assert_eq!(3, builder.entries.len());
    assert_eq!("老師", builder.entries[0].traditional);
    assert_eq!("師", builder.entries[2].traditional);

    assert!(builder.parse_cedict("", &costs()));
    assert!(builder.parse_cedict("\n\n# nothing\n", &costs()));
    assert_eq!(3, builder.entries.len());
}

#[test]
fn a_text_with_a_line_out_of_form_gives_nothing() {
    let text = "老師 老师 [lao3 shi1] /teacher/\n\
                學 学 /to learn/\n\
                師 师 [shi1] /master/\n";
    let mut builder = Builder { entries: Vec::new() };
    assert!(builder.parse_cedict("師 师 [shi1] /master/", &costs()));
    assert!(!builder.parse_cedict(text, &costs()));
    assert_eq!(1, builder.entries.len());
    assert_eq!("師", builder.entries[0].traditional);
    // a line of CEDICT is no line of CC-Canto
    assert!(!builder.parse_ccanto("老師 老师 [lao3 shi1] /teacher/\n"));
    assert_eq!(1, builder.entries.len());
    // a line that is only white space is no comment
    assert!(!builder.parse_ccanto(" \n"));
}

#[test]
fn a_text_of_ccanto_gives_its_entries_in_order() {
    let text = "# CC-Canto\n\
                老師 老师 [lao3 shi1] {lou5 si1} /teacher/M: go3/ # a note\n\
                學生 学生 [xue2 sheng5] {hok6 saang1} /student/";
    let mut builder = Builder { entries: Vec::new() };
    assert!(builder.parse_ccanto(text));
    assert_eq!(2, builder.entries.len());
    assert_eq!("老師", builder.entries[0].traditional);
    assert_eq!("lou5 si1", builder.entries[0].jyutping);
    assert_eq!(vec!["teacher", "M: go3"], builder.entries[0].english_sets.inner);
    assert_eq!(EntrySource::CCanto, builder.entries[0].source);
    assert_eq!(15_000 + 2_000 + 2000, builder.entries[0].cost);
    assert_eq!("學生", builder.entries[1].traditional);
    assert_eq!("hok6 saang1", builder.entries[1].jyutping);
    assert_eq!(vec!["student"], builder.entries[1].english_sets.inner);
}

#[test]
fn a_table_of_readings_is_noted_both_ways() {
    let text = "# readings\n\
                生 生 [sheng1] {saang1}\r\n\
                老師 老师 [lao3 shi1] {lou5 si1}\n\
                生 生 [sheng1] {sang1}\n\
                \n\
                甥 甥 [sheng1] {sang1}\n\
                生 生 [sheng1] {SAANG1}\n";
    let table = TraditionalToJyutping::parse(text).unwrap();
    assert_eq!(vec!["生", "甥", "老師"], table.inner.keys);
    assert_eq!(vec!["saang1", "sang1"], table.inner.values[0].inner);
    assert_eq!(vec!["sang1"], table.inner.values[1].inner);
    assert_eq!(vec!["lou5 si1"], table.inner.values[2].inner);
    assert_eq!(vec!["SAANG1", "lou5 si1", "saang1", "sang1"], table.reverse.keys);
    assert_eq!(vec!["生"], table.reverse.values[0].inner);
    assert_eq!(vec!["老師"], table.reverse.values[1].inner);
    assert_eq!(vec!["生"], table.reverse.values[2].inner);
    assert_eq!(vec!["生", "甥"], table.reverse.values[3].inner);
    assert!(table.inner.is_valid() && table.reverse.is_valid());

    let table = TraditionalToJyutping::parse("").unwrap();
    assert!(table.inner.keys.is_empty() && table.reverse.keys.is_empty());
    assert!(TraditionalToJyutping::parse("老師 老师 [lao3 shi1]\n").is_none());
    assert!(TraditionalToJyutping::parse("老師 老师 [lao3 shi1] {lou5 si1}\nx\n").is_none());
}
