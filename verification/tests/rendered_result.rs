use dictlib::compiled_dictionary::{
    CharacterStore, CompiledDictionary, CompiledDictionaryEntry, Jyutping, JyutpingStore,
    FLAG_SOURCE_CEDICT,
};
use dictlib::rendered_result::RenderedResult;
use dictlib::search::MatchType;
use dictlib::Stopwatch;

struct TestStopwatch;

impl Stopwatch for TestStopwatch {
    fn elapsed_ms(&self) -> i32 {
        0
    }
}

fn create_test_dict() -> CompiledDictionary {
    // Create a minimal test dictionary
    // Characters must be in sorted order!
    let character_store = CharacterStore {
        characters: vec!['學', '師', '生', '老'], // sorted order
    };

    let jyutping_store = JyutpingStore {
        base_strings: vec![
            "hok".to_string(),
            "lou".to_string(),
            "saang".to_string(),
            "si".to_string(),
        ],
    };

    let entries = vec![
        CompiledDictionaryEntry {
            characters: vec![3, 1], // 老師 (老=index 3, 師=index 1)
            jyutping: vec![
                Jyutping { base: 1, tone: 5 }, // lou5 (lou=index 1)
                Jyutping { base: 3, tone: 1 }, // si1 (si=index 3)
            ],
            english_start: 0,
            english_end: 1,
            cost: 100,
            flags: FLAG_SOURCE_CEDICT,
        },
        CompiledDictionaryEntry {
            characters: vec![0, 2], // 學生 (學=index 0, 生=index 2)
            jyutping: vec![
                Jyutping { base: 0, tone: 6 }, // hok6 (hok=index 0)
                Jyutping { base: 2, tone: 1 }, // saang1 (saang=index 2)
            ],
            english_start: 1,
            english_end: 2,
            cost: 100,
            flags: FLAG_SOURCE_CEDICT,
        },
    ];

    let english_data = b"teacherstudent".to_vec();
    let english_data_starts = vec![0, 7, 14];

    CompiledDictionary {
        character_store,
        jyutping_store,
        entries,
        english_data,
        english_data_starts,
    }
}


#[test]
fn test_escape_html() {
    assert_eq!(
        RenderedResult::escape_html("<script>alert('xss')</script>"),
        "&lt;script&gt;alert(&#x27;xss&#x27;)&lt;/script&gt;"
    );

    assert_eq!(
        RenderedResult::escape_html("a & b"),
        "a &amp; b"
    );

    assert_eq!(
        RenderedResult::escape_html("normal text"),
        "normal text"
    );
}

#[test]
fn test_apply_highlights_single_span() {
    let text = "hello world";
    let spans = vec![(0, 5)];
    let result = RenderedResult::apply_highlights(text, &spans);
    assert_eq!(result, "<mark class=\"hit-highlight\">hello</mark> world");
}

#[test]
fn test_apply_highlights_multiple_spans() {
    let text = "hello world";
    let spans = vec![(0, 5), (6, 11)];
    let result = RenderedResult::apply_highlights(text, &spans);
    assert_eq!(
        result,
        "<mark class=\"hit-highlight\">hello</mark> <mark class=\"hit-highlight\">world</mark>"
    );
}

#[test]
fn test_apply_highlights_no_spans() {
    let text = "hello world";
    let spans = vec![];
    let result = RenderedResult::apply_highlights(text, &spans);
    assert_eq!(result, "hello world");
}

#[test]
fn test_apply_highlights_with_html_chars() {
    let text = "<tag> & more";
    let spans = vec![(0, 5)];
    let result = RenderedResult::apply_highlights(text, &spans);
    assert_eq!(
        result,
        "<mark class=\"hit-highlight\">&lt;tag&gt;</mark> &amp; more"
    );
}

#[test]
fn test_from_match_jyutping_highlighting() {
    let dict = create_test_dict();

    // Search for "lou" which should match 老師 (lou5 si1)
    let results = dict.search("lou", 8, Box::new(TestStopwatch)).matches;
    assert!(results.len() > 0);

    let result = &results[0];
    assert!(matches!(result.match_obj.match_type, MatchType::Jyutping));

    // Create rendered result with highlighting
    let rendered = RenderedResult::from_match(result, &dict);

    // Check that jyutping has highlighting markup
    assert!(rendered.jyutping.contains("<mark class=\"hit-highlight\">"));
    assert!(rendered.jyutping.contains("lou</mark>"));

    // Characters should not have highlighting (only jyutping matches)
    assert!(!rendered.characters.contains("<mark"));

    // English should not have highlighting
    for def in &rendered.english_definitions {
        assert!(!def.contains("<mark"));
    }
}

#[test]
fn test_from_match_jyutping_with_tone() {
    let dict = create_test_dict();

    // Search for "lou5" which should match 老師 (lou5 si1)
    let results = dict.search("lou5", 8, Box::new(TestStopwatch)).matches;
    assert!(results.len() > 0);

    let result = &results[0];
    let rendered = RenderedResult::from_match(result, &dict);

    // The syllable was typed in full, so one mark takes in base and tone
    assert!(rendered.jyutping.contains("<mark class=\"hit-highlight\">lou5</mark>"));
    assert_eq!("<mark class=\"hit-highlight\">lou5</mark> si1", rendered.jyutping);
}

#[test]
fn test_from_match_jyutping_multiple_syllables() {
    let dict = create_test_dict();

    // Search for "lou si" which should match both syllables in 老師
    let results = dict.search("lou si", 8, Box::new(TestStopwatch)).matches;
    assert!(results.len() > 0);

    let result = &results[0];
    let rendered = RenderedResult::from_match(result, &dict);

    // Both syllables should be highlighted
    assert!(rendered.jyutping.contains("<mark class=\"hit-highlight\">lou</mark>"));
    assert!(rendered.jyutping.contains("<mark class=\"hit-highlight\">si</mark>"));
}

#[test]
fn test_from_match_jyutping_substring() {
    let dict = create_test_dict();

    // Search for "saa" which should substring match "saang" in 學生
    let results = dict.search("saa", 8, Box::new(TestStopwatch)).matches;
    assert!(results.len() > 0);

    let result = &results[0];
    assert_eq!(result.match_obj.entry_id, 1); // 學生 entry

    let rendered = RenderedResult::from_match(result, &dict);

    // Only the matched substring should be highlighted
    assert!(rendered.jyutping.contains("<mark class=\"hit-highlight\">saa</mark>"));
    // The remaining part "ng1" should not be in the mark tags
    assert!(rendered.jyutping.contains("ng1"));
    assert!(!rendered.jyutping.contains("<mark class=\"hit-highlight\">saang1</mark>"));
}

#[test]
fn test_from_match_traditional_highlighting() {
    let dict = create_test_dict();

    // Search for Chinese character
    let results = dict.search("老", 8, Box::new(TestStopwatch)).matches;
    assert!(results.len() > 0);

    let result = &results[0];
    assert!(matches!(result.match_obj.match_type, MatchType::Traditional));

    let rendered = RenderedResult::from_match(result, &dict);

    // Characters should have highlighting
    assert!(rendered.characters.contains("<mark class=\"hit-highlight\">"));
    assert!(rendered.characters.contains("老</mark>"));

    // Jyutping should not have highlighting
    assert!(!rendered.jyutping.contains("<mark"));

    // English should not have highlighting
    for def in &rendered.english_definitions {
        assert!(!def.contains("<mark"));
    }
}

#[test]
fn test_from_match_traditional_multiple_chars() {
    let dict = create_test_dict();

    // Search for multiple characters
    let results = dict.search("老師", 8, Box::new(TestStopwatch)).matches;
    assert!(results.len() > 0);

    let result = &results[0];
    let rendered = RenderedResult::from_match(result, &dict);

    // Both characters should be highlighted (may be in separate spans)
    assert!(rendered.characters.contains("老"));
    assert!(rendered.characters.contains("師"));
    assert!(rendered.characters.contains("<mark class=\"hit-highlight\">"));
}

#[test]
fn test_from_match_english_highlighting() {
    let dict = create_test_dict();

    // Search for English word
    let results = dict.search("teacher", 8, Box::new(TestStopwatch)).matches;
    assert!(results.len() > 0);

    let result = &results[0];
    assert!(matches!(result.match_obj.match_type, MatchType::English));

    let rendered = RenderedResult::from_match(result, &dict);

    // English definitions should have highlighting
    let has_highlight = rendered.english_definitions.iter()
        .any(|def| def.contains("<mark class=\"hit-highlight\">"));
    assert!(has_highlight, "English definition should have highlighting");

    // At least one definition should contain highlighted "teach"
    let has_teach = rendered.english_definitions.iter()
        .any(|def| def.contains("teach") && def.contains("<mark"));
    assert!(has_teach, "Should highlight 'teach' in english definitions");

    // Characters should not have highlighting
    assert!(!rendered.characters.contains("<mark"));

    // Jyutping should not have highlighting
    assert!(!rendered.jyutping.contains("<mark"));
}

#[test]
fn test_from_match_english_html_escaping() {
    // Test that HTML in english definitions is properly escaped even with highlighting
    let dict = create_test_dict();

    // Even though our test dict doesn't have HTML in definitions,
    // we can verify the structure is correct
    let results = dict.search("teacher", 8, Box::new(TestStopwatch)).matches;
    if results.len() > 0 {
        let result = &results[0];
        let rendered = RenderedResult::from_match(result, &dict);

        // Verify markup is well-formed: no unescaped < or > outside of mark tags
        for def in &rendered.english_definitions {
            // Count opening and closing mark tags
            let open_marks = def.matches("<mark class=\"hit-highlight\">").count();
            let close_marks = def.matches("</mark>").count();
            assert_eq!(open_marks, close_marks, "Mark tags should be balanced");

            // Any other < or > should be escaped
            let stripped = def.replace("<mark class=\"hit-highlight\">", "")
                .replace("</mark>", "");
            assert!(!stripped.contains("<") || stripped.contains("&lt;"));
            assert!(!stripped.contains(">") || stripped.contains("&gt;"));
        }
    }
}

#[test]
fn test_from_match_no_highlighting_when_no_spans() {
    let dict = create_test_dict();

    // For match types that don't apply to certain fields,
    // those fields should have no highlighting
    let results = dict.search("lou", 8, Box::new(TestStopwatch)).matches;
    if results.len() > 0 {
        let result = &results[0];
        let rendered = RenderedResult::from_match(result, &dict);

        // This is a Jyutping match, so characters shouldn't be highlighted
        let char_mark_count = rendered.characters.matches("<mark").count();
        assert_eq!(char_mark_count, 0, "Characters should not be highlighted for Jyutping match");
    }
}

#[test]
fn test_from_match_cost_preserved() {
    let dict = create_test_dict();

    let results = dict.search("lou", 8, Box::new(TestStopwatch)).matches;
    assert!(results.len() > 0);

    let result = &results[0];
    let rendered = RenderedResult::from_match(result, &dict);

    // Cost should be preserved from the dictionary entry
    assert_eq!(rendered.cost, dict.entries[result.match_obj.entry_id].cost);
}

#[test]
fn test_from_match_entry_source_preserved() {
    let dict = create_test_dict();

    let results = dict.search("lou", 8, Box::new(TestStopwatch)).matches;
    assert!(results.len() > 0);

    let result = &results[0];
    let rendered = RenderedResult::from_match(result, &dict);

    // Entry source should be preserved
    assert_eq!(rendered.entry_source, dict.entries[result.match_obj.entry_id].get_source());
}
