use dictlib::compiled_dictionary::{
    CharacterStore, CompiledDictionary, CompiledDictionaryEntry, Jyutping, JyutpingStore,
    FLAG_SOURCE_CCCANTO, FLAG_SOURCE_CEDICT,
};
use dictlib::reconstruct_match::merge_overlapping_match_spans;
use dictlib::search::{
    cost_inversions, rank_top, IdSet, JyutpingQueryTerm, Match, MatchCostInfo, MatchType,
    MatchWithHitInfo, QueryTerms, Timings, ENGLISH_BASE_PENALTY, ENGLISH_MIDDLE_OF_WORD_PENALTY,
    ENGLISH_POS_OFFSET_PENALTY_K, JYUTPING_COMPLETION_PENALTY_K, JYUTPING_PARTIAL_MATCH_PENALTY_K,
    JYUTPING_PREFIX_LEVENSHTEIN_PENALTY_K, NON_ASCII_MATCH_IN_ENGLISH_PENALTY,
    OUT_OF_ORDER_INVERSION_PENALTY, UNMATCHED_JYUTPING_PENALTY,
};
use dictlib::{NativeStopwatch, Stopwatch};

struct FixedStopwatch(i32);

impl Stopwatch for FixedStopwatch {
    fn elapsed_ms(&self) -> i32 {
        self.0
    }
}

fn reference() -> CompiledDictionary {
    CompiledDictionary {
        character_store: CharacterStore { characters: vec!['學', '師', '生', '老'] },
        jyutping_store: JyutpingStore {
            base_strings: vec![
                "hok".to_string(),
                "lou".to_string(),
                "saang".to_string(),
                "si".to_string(),
            ],
        },
        entries: vec![
            CompiledDictionaryEntry {
                characters: vec![3, 1],
                jyutping: vec![Jyutping { base: 1, tone: 5 }, Jyutping { base: 3, tone: 1 }],
                english_start: 0,
                english_end: 1,
                cost: 100,
                flags: FLAG_SOURCE_CEDICT,
            },
            CompiledDictionaryEntry {
                characters: vec![0, 2],
                jyutping: vec![Jyutping { base: 0, tone: 6 }, Jyutping { base: 2, tone: 1 }],
                english_start: 1,
                english_end: 2,
                cost: 100,
                flags: FLAG_SOURCE_CEDICT,
            },
        ],
        english_data: b"teacherstudent".to_vec(),
        english_data_starts: vec![0, 7, 14],
    }
}

fn wide() -> CompiledDictionary {
    // Five entries over a few syllables, with definitions in English.
    CompiledDictionary {
        character_store: CharacterStore { characters: vec!['人', '大', '好', '學', '生'] },
        jyutping_store: JyutpingStore {
            base_strings: vec![
                "daai".to_string(),
                "hok".to_string(),
                "hou".to_string(),
                "jan".to_string(),
                "saang".to_string(),
            ],
        },
        entries: vec![
            CompiledDictionaryEntry {
                characters: vec![0],
                jyutping: vec![Jyutping { base: 3, tone: 4 }],
                english_start: 0,
                english_end: 2,
                cost: 10,
                flags: FLAG_SOURCE_CEDICT,
            },
            CompiledDictionaryEntry {
                characters: vec![1],
                jyutping: vec![Jyutping { base: 0, tone: 6 }],
                english_start: 2,
                english_end: 3,
                cost: 20,
                flags: FLAG_SOURCE_CEDICT,
            },
            CompiledDictionaryEntry {
                characters: vec![2],
                jyutping: vec![Jyutping { base: 2, tone: 2 }],
                english_start: 3,
                english_end: 4,
                cost: 30,
                flags: FLAG_SOURCE_CCCANTO,
            },
            CompiledDictionaryEntry {
                characters: vec![1, 0],
                jyutping: vec![Jyutping { base: 0, tone: 6 }, Jyutping { base: 3, tone: 4 }],
                english_start: 4,
                english_end: 5,
                cost: 40,
                flags: FLAG_SOURCE_CEDICT,
            },
            CompiledDictionaryEntry {
                characters: vec![1, 3, 4],
                jyutping: vec![
                    Jyutping { base: 0, tone: 6 },
                    Jyutping { base: 1, tone: 6 },
                    Jyutping { base: 4, tone: 1 },
                ],
                english_start: 5,
                english_end: 6,
                cost: 50,
                flags: FLAG_SOURCE_CEDICT,
            },
        ],
        english_data: b"personhuman beingbig; largegood; welladult; grown-upuniversity student"
            .to_vec(),
        english_data_starts: vec![0, 6, 17, 27, 37, 52, 70],
    }
}

fn plain(result: &[MatchWithHitInfo]) -> Vec<(usize, u8, [u32; 4], Vec<(usize, usize)>)> {
    result
        .iter()
        .map(|m| {
            let kind = match m.match_obj.match_type {
                MatchType::Jyutping => 0,
                MatchType::Traditional => 1,
                MatchType::English => 2,
            };
            let c = m.match_obj.cost_info;
            (
                m.match_obj.entry_id,
                kind,
                [c.term_match_cost, c.unmatched_position_cost, c.inversion_cost, c.static_cost],
                m.matched_spans.clone(),
            )
        })
        .collect()
}

#[test]
fn both_sample_dictionaries_are_valid() {
    assert!(reference().is_valid());
    assert!(wide().is_valid());
}

#[test]
fn search_twice_gives_the_same_matches() {
    let dict = wide();
    for query in ["daai", "daai6 jan4", "person", "大", "hok saa", "a", "大 big"] {
        let first = dict.search(query, 8, Box::new(FixedStopwatch(3)));
        let second = dict.search(query, 8, Box::new(FixedStopwatch(900)));
        assert_eq!(plain(&first.matches), plain(&second.matches), "query {}", query);
        assert_eq!(first.internal_candidates, second.internal_candidates);
    }
}

#[test]
fn search_returns_no_more_than_asked_for() {
    let dict = wide();
    let all = dict.search("daai", 8, Box::new(FixedStopwatch(0)));
    assert_eq!(3, all.internal_candidates);
    assert_eq!(3, all.matches.len());
    for max in 0..5 {
        let cut = dict.search("daai", max, Box::new(FixedStopwatch(0)));
        assert_eq!(3, cut.internal_candidates);
        assert_eq!(max.min(3), cut.matches.len());
        assert!(cut.internal_candidates >= cut.matches.len());
        // what is returned is the start of what is returned without a limit
        assert_eq!(plain(&all.matches)[..cut.matches.len()], plain(&cut.matches)[..]);
    }
}

#[test]
fn matches_are_ranked_by_total_cost_and_ties_keep_entry_order() {
    let dict = wide();
    let result = dict.search("daai", 8, Box::new(FixedStopwatch(0)));
    let totals: Vec<u32> = result.matches.iter().map(|m| m.match_obj.cost_info.total()).collect();
    // entry 1 "daai6": nothing but its own cost; entry 3 "daai6 jan4": one
    // syllable left out at position 1 of 2; entry 4: two left out of 3.
    assert_eq!(vec![20, 40 + 20_000, 50 + 30_000 + 20_000], totals);
    assert_eq!(
        vec![1, 3, 4],
        result.matches.iter().map(|m| m.match_obj.entry_id).collect::<Vec<_>>()
    );

    let reference = reference();
    // "s" fits "saang" and "si" alike at different costs; both entries match
    let result = reference.search("s", 8, Box::new(FixedStopwatch(0)));
    assert_eq!(2, result.matches.len());
    assert!(
        result.matches[0].match_obj.cost_info.total()
            <= result.matches[1].match_obj.cost_info.total()
    );
}

#[test]
fn query_in_the_romanisation_of_an_entry_finds_it_at_its_own_cost() {
    let dict = wide();
    for (id, query) in
        [(0, "jan4"), (1, "daai6"), (2, "hou2"), (3, "daai6 jan4"), (4, "daai6 hok6 saang1")]
    {
        assert_eq!(query, dict.get_display_entry(id).jyutping);
        let result = dict.search(query, 8, Box::new(FixedStopwatch(0)));
        let found = result
            .matches
            .iter()
            .find(|m| m.match_obj.entry_id == id)
            .expect("the entry is found");
        assert!(matches!(found.match_obj.match_type, MatchType::Jyutping));
        let c = found.match_obj.cost_info;
        assert_eq!(0, c.term_match_cost);
        assert_eq!(0, c.unmatched_position_cost);
        assert_eq!(0, c.inversion_cost);
        assert_eq!(dict.entries[id].cost, c.static_cost);
        assert_eq!(dict.entries[id].cost, c.total());
        // the whole romanisation is one highlighted stretch
        assert_eq!(vec![(0, query.len())], found.matched_spans);
    }
}

#[test]
fn every_returned_span_has_its_start_before_its_end() {
    let dict = wide();
    for query in ["daai", "aa", "jan4 daai", "person", "大人", "big large", "6", "hok6 s1"] {
        let result = dict.search(query, 8, Box::new(FixedStopwatch(0)));
        for m in &result.matches {
            for (start, end) in &m.matched_spans {
                assert!(start < end, "query {} span {}..{}", query, start, end);
            }
            let mut last_end = None;
            for (start, end) in &m.matched_spans {
                if let Some(last) = last_end {
                    assert!(last < *start);
                }
                last_end = Some(*end);
            }
            // merging what was merged changes nothing
            assert_eq!(m.matched_spans, merge_overlapping_match_spans(m.matched_spans.clone()));
        }
    }
}

#[test]
fn partial_match_highlights_what_was_typed() {
    let dict = wide();
    for (query, typed) in [("aa", "aa"), ("AAI", "aai"), ("ok", "ok"), ("aang", "aang")] {
        let result = dict.search(query, 8, Box::new(FixedStopwatch(0)));
        assert!(!result.matches.is_empty());
        for m in &result.matches {
            assert!(matches!(m.match_obj.match_type, MatchType::Jyutping));
            let display = dict.get_display_entry(m.match_obj.entry_id).jyutping;
            assert_eq!(1, m.matched_spans.len());
            let (start, end) = m.matched_spans[0];
            assert!(display[start..end].eq_ignore_ascii_case(typed));
        }
    }
}

#[test]
fn search_does_not_regard_case() {
    let dict = reference();
    let lower = dict.search("lou", 8, Box::new(FixedStopwatch(0)));
    let upper = dict.search("LOU", 8, Box::new(FixedStopwatch(0)));
    let mixed = dict.search("LoU", 8, Box::new(FixedStopwatch(0)));
    assert!(!lower.matches.is_empty());
    assert_eq!(plain(&lower.matches), plain(&upper.matches));
    assert_eq!(plain(&lower.matches), plain(&mixed.matches));

    let lower = dict.search("teacher", 8, Box::new(FixedStopwatch(0)));
    let upper = dict.search("TEACHER", 8, Box::new(FixedStopwatch(0)));
    assert_eq!(plain(&lower.matches), plain(&upper.matches));
}

#[test]
fn lou_finds_the_teacher_by_syllable() {
    let dict = reference();
    let result = dict.search("lou", 8, Box::new(FixedStopwatch(0)));
    let found = result.matches.iter().find(|m| m.match_obj.entry_id == 0).unwrap();
    assert!(matches!(found.match_obj.match_type, MatchType::Jyutping));
    let display = dict.get_display_entry(0);
    assert_eq!("老師", display.characters);
    assert_eq!("lou5 si1", display.jyutping);
    assert_eq!(vec![(0, 3)], found.matched_spans);
    // "si1" is left out: position 1 of 2 syllables
    assert_eq!(2 * UNMATCHED_JYUTPING_PENALTY, found.match_obj.cost_info.unmatched_position_cost);
}

#[test]
fn saa_highlights_only_what_was_typed_of_saang() {
    let dict = reference();
    let result = dict.search("saa", 8, Box::new(FixedStopwatch(0)));
    let found = result.matches.iter().find(|m| m.match_obj.entry_id == 1).unwrap();
    let display = dict.get_display_entry(1).jyutping;
    assert_eq!("hok6 saang1", display);
    assert_eq!(vec![(5, 8)], found.matched_spans);
    assert_eq!("saa", &display[5..8]);
    assert_eq!(2 * JYUTPING_COMPLETION_PENALTY_K, found.match_obj.cost_info.term_match_cost);
    // "hok6" at position 0 of 2 is left out
    assert_eq!(3 * UNMATCHED_JYUTPING_PENALTY, found.match_obj.cost_info.unmatched_position_cost);
}

#[test]
fn teacher_finds_the_teacher_in_english() {
    let dict = reference();
    let result = dict.search("teacher", 8, Box::new(FixedStopwatch(0)));
    assert_eq!(1, result.matches.len());
    let found = &result.matches[0];
    assert_eq!(0, found.match_obj.entry_id);
    assert!(matches!(found.match_obj.match_type, MatchType::English));
    assert_eq!(vec![(0, 7)], found.matched_spans);
    assert_eq!(ENGLISH_BASE_PENALTY, found.match_obj.cost_info.term_match_cost);
    assert_eq!(100, found.match_obj.cost_info.static_cost);
    assert_eq!(5_100, found.match_obj.cost_info.total());
}

#[test]
fn english_cost_counts_position_and_middle_of_word() {
    let dict = wide();
    // entry 0 has "person" and "human being" in one block "personhuman being"
    let entry = &dict.entries[0];
    let cost = dict.matches_query_english(entry, "being").unwrap();
    // "being" stands at 12, behind a space
    assert_eq!(ENGLISH_BASE_PENALTY + 12 * ENGLISH_POS_OFFSET_PENALTY_K, cost.term_match_cost);
    let cost = dict.matches_query_english(entry, "man").unwrap();
    // "man" stands at 8, in the middle of "human"
    assert_eq!(
        ENGLISH_BASE_PENALTY + 8 * ENGLISH_POS_OFFSET_PENALTY_K + ENGLISH_MIDDLE_OF_WORD_PENALTY,
        cost.term_match_cost
    );
    // in "adult; grown-up" the word "up" stands behind a hyphen
    let cost = dict.matches_query_english(&dict.entries[3], "up").unwrap();
    assert_eq!(ENGLISH_BASE_PENALTY + 13 * ENGLISH_POS_OFFSET_PENALTY_K, cost.term_match_cost);
    // words out of order
    let cost = dict.matches_query_english(entry, "being person").unwrap();
    assert_eq!(OUT_OF_ORDER_INVERSION_PENALTY, cost.inversion_cost);
    assert_eq!(ENGLISH_BASE_PENALTY + 12 * ENGLISH_POS_OFFSET_PENALTY_K, cost.term_match_cost);
    assert_eq!(0, cost.unmatched_position_cost);
    assert_eq!(10, cost.static_cost);
    // one word that is not there
    assert!(dict.matches_query_english(entry, "person cat").is_none());
    // a character outside ASCII
    let cost = dict.matches_query_english(entry, "person 人");
    assert!(cost.is_none());
    let entry = CompiledDictionaryEntry {
        characters: vec![],
        jyutping: vec![],
        english_start: 0,
        english_end: 1,
        cost: 7,
        flags: FLAG_SOURCE_CEDICT,
    };
    let dict = CompiledDictionary {
        character_store: CharacterStore { characters: vec![] },
        jyutping_store: JyutpingStore { base_strings: vec![] },
        entries: vec![],
        english_data: "the 人 person".as_bytes().to_vec(),
        english_data_starts: vec![0, 14],
    };
    let cost = dict.matches_query_english(&entry, "人").unwrap();
    assert_eq!(
        ENGLISH_BASE_PENALTY + 4 * ENGLISH_POS_OFFSET_PENALTY_K + NON_ASCII_MATCH_IN_ENGLISH_PENALTY,
        cost.term_match_cost
    );
}

#[test]
fn an_entry_without_definitions_is_no_english_match() {
    let dict = wide();
    let entry = CompiledDictionaryEntry {
        characters: vec![],
        jyutping: vec![],
        english_start: 2,
        english_end: 2,
        cost: 7,
        flags: FLAG_SOURCE_CEDICT,
    };
    assert!(dict.matches_query_english(&entry, "person").is_none());
    assert!(dict.get_english_matched_spans(&entry, "person").is_empty());
}

#[test]
fn a_query_without_a_word_finds_nothing_and_reads_no_clock() {
    let dict = reference();
    for query in ["", " ", "   ", "\t\n", " \r\n \t "] {
        let result = dict.search(query, 8, Box::new(FixedStopwatch(55)));
        assert!(result.matches.is_empty());
        assert_eq!(0, result.internal_candidates);
        assert_eq!(
            Timings { jyutping_pre_ms: 0, traditional_pre_ms: 0, full_match: 0, rank: 0 },
            result.timings
        );
    }
}

#[test]
fn the_clock_is_read_at_the_four_checkpoints() {
    let dict = reference();
    let result = dict.search("lou", 8, Box::new(FixedStopwatch(7)));
    assert_eq!(
        Timings { jyutping_pre_ms: 7, traditional_pre_ms: 7, full_match: 7, rank: 7 },
        result.timings
    );
    let result = dict.search("lou", 8, Box::new(NativeStopwatch::new()));
    assert!(result.timings.jyutping_pre_ms >= 0);
    assert!(result.timings.rank >= result.timings.jyutping_pre_ms);
}

#[test]
fn a_query_of_no_match_finds_nothing() {
    let dict = reference();
    let result = dict.search("xyzzy", 8, Box::new(FixedStopwatch(0)));
    assert!(result.matches.is_empty());
    assert_eq!(0, result.internal_candidates);
}

#[test]
fn an_entry_can_match_as_english_and_as_characters_at_once() {
    let dict = CompiledDictionary {
        character_store: CharacterStore { characters: vec!['A', '片'] },
        jyutping_store: JyutpingStore { base_strings: vec!["pin".to_string()] },
        entries: vec![CompiledDictionaryEntry {
            characters: vec![0, 1],
            jyutping: vec![Jyutping { base: 0, tone: 2 }],
            english_start: 0,
            english_end: 1,
            cost: 5,
            flags: FLAG_SOURCE_CCCANTO,
        }],
        english_data: "A film (片)".as_bytes().to_vec(),
        english_data_starts: vec![0, 12],
    };
    assert!(dict.is_valid());
    let result = dict.search("片 film", 8, Box::new(FixedStopwatch(0)));
    assert_eq!(2, result.internal_candidates);
    let kinds: Vec<u8> = plain(&result.matches).iter().map(|m| m.1).collect();
    // the match as characters costs the entry's cost only and is ranked first
    assert_eq!(vec![1, 2], kinds);
    assert_eq!(vec![(1, 2)], result.matches[0].matched_spans);
    // "片" at 8, "film" at 2: out of order, one character outside ASCII
    let c = result.matches[1].match_obj.cost_info;
    assert_eq!(OUT_OF_ORDER_INVERSION_PENALTY, c.inversion_cost);
    assert_eq!(
        ENGLISH_BASE_PENALTY + (8 + 2) * ENGLISH_POS_OFFSET_PENALTY_K
            + ENGLISH_MIDDLE_OF_WORD_PENALTY
            + NON_ASCII_MATCH_IN_ENGLISH_PENALTY,
        c.term_match_cost
    );
    assert_eq!(vec![(2, 6), (8, 11)], result.matches[1].matched_spans);
}

#[test]
fn term_costs_by_kind_of_match() {
    let store = JyutpingStore {
        base_strings: vec![
            "baai".to_string(),
            "gwong".to_string(),
            "ng".to_string(),
            "ngo".to_string(),
        ],
    };
    // inside a syllable: one byte in, and three bytes longer than what was typed
    let term = JyutpingQueryTerm::create("wo", &store);
    assert!(term.matches.contains(1));
    assert_eq!(
        vec![(1, JYUTPING_PARTIAL_MATCH_PENALTY_K + 3 * JYUTPING_COMPLETION_PENALTY_K)],
        term.match_bit_to_match_cost
    );
    assert_eq!(1, term.matches.len());
    // one byte missing: edit distance 1 to a prefix
    let term = JyutpingQueryTerm::create("bai3", &store);
    assert_eq!(Some(3), term.tone);
    assert_eq!("bai", term.string_no_tone);
    assert_eq!("bai3", term.string_with_tone());
    assert_eq!(vec![(0, JYUTPING_PREFIX_LEVENSHTEIN_PENALTY_K)], term.match_bit_to_match_cost);
    // the distance is taken with regard to case
    let term = JyutpingQueryTerm::create("BAI", &store);
    assert_eq!(0, term.matches.len());
    // exact and prefix at once
    let term = JyutpingQueryTerm::create("NG", &store);
    assert!(term.matches.contains(2) && term.matches.contains(3));
    assert!(term.matches.contains(1));
    assert_eq!(
        vec![
            (1, 3 * JYUTPING_PARTIAL_MATCH_PENALTY_K + 3 * JYUTPING_COMPLETION_PENALTY_K),
            (3, JYUTPING_COMPLETION_PENALTY_K)
        ],
        term.match_bit_to_match_cost
    );
    assert_eq!("NG", term.string_with_tone());
    // one byte is one edit away from the empty prefix of every syllable
    let term = JyutpingQueryTerm::create("x", &store);
    assert_eq!(4, term.matches.len());
    assert_eq!(
        vec![
            (0, JYUTPING_PREFIX_LEVENSHTEIN_PENALTY_K),
            (1, JYUTPING_PREFIX_LEVENSHTEIN_PENALTY_K),
            (2, JYUTPING_PREFIX_LEVENSHTEIN_PENALTY_K),
            (3, JYUTPING_PREFIX_LEVENSHTEIN_PENALTY_K)
        ],
        term.match_bit_to_match_cost
    );
    // two bytes that stand in no syllable are two edits away from it
    let term = JyutpingQueryTerm::create("xy", &store);
    assert_eq!(0, term.matches.len());
    // a tone alone fits every syllable
    let term = JyutpingQueryTerm::create("4", &store);
    assert_eq!(4, term.matches.len());
    assert_eq!(Some(4), term.tone);
    assert_eq!("", term.string_no_tone);
}

#[test]
fn best_syllable_is_the_first_of_the_cheapest() {
    let dict = wide();
    let entry = CompiledDictionaryEntry {
        characters: vec![],
        jyutping: vec![
            Jyutping { base: 1, tone: 6 },
            Jyutping { base: 2, tone: 2 },
            Jyutping { base: 1, tone: 6 },
            Jyutping { base: 2, tone: 2 },
        ],
        english_start: 0,
        english_end: 0,
        cost: 0,
        flags: FLAG_SOURCE_CEDICT,
    };
    let terms = QueryTerms {
        jyutping_terms: vec![
            JyutpingQueryTerm::create("hou", &dict.jyutping_store),
            JyutpingQueryTerm::create("hok", &dict.jyutping_store),
        ],
        traditional_terms: vec![],
    };
    let cost = dict.matches_jyutping_term(&entry, &terms).unwrap();
    assert_eq!(0, cost.term_match_cost);
    // "hou" takes position 1 and "hok" position 0: one pair out of order
    assert_eq!(OUT_OF_ORDER_INVERSION_PENALTY, cost.inversion_cost);
    // positions 2 and 3 of 4 are left out
    assert_eq!((3 + 2) * UNMATCHED_JYUTPING_PENALTY, cost.unmatched_position_cost);
    assert_eq!(0, cost.static_cost);
    assert_eq!(vec![(5, 8), (0, 3)], dict.get_jyutping_matched_spans(&entry, &terms));

    // more terms than syllables, and no terms
    let short = CompiledDictionaryEntry { jyutping: vec![Jyutping { base: 1, tone: 6 }], ..entry };
    assert!(dict.matches_jyutping_term(&short, &terms).is_none());
    let none = QueryTerms { jyutping_terms: vec![], traditional_terms: vec![] };
    assert!(dict.matches_jyutping_term(&short, &none).is_none());
    // a tone that does not fit
    let wrong = QueryTerms {
        jyutping_terms: vec![JyutpingQueryTerm::create("hok5", &dict.jyutping_store)],
        traditional_terms: vec![],
    };
    assert!(dict.matches_jyutping_term(&short, &wrong).is_none());
}

#[test]
fn whole_syllables_in_a_row_are_highlighted_as_one() {
    let dict = wide();
    let entry = &dict.entries[4];
    let terms = |words: &[&str]| QueryTerms {
        jyutping_terms: words
            .iter()
            .map(|w| JyutpingQueryTerm::create(w, &dict.jyutping_store))
            .collect(),
        traditional_terms: vec![],
    };
    // "daai6 hok6 saang1"
    assert_eq!(
        vec![(0, 5), (5, 10), (10, 17)],
        dict.get_jyutping_matched_spans(entry, &terms(&["daai6", "hok6", "saang1"]))
    );
    assert_eq!(
        vec![(0, 5), (11, 17)],
        dict.get_jyutping_matched_spans(entry, &terms(&["daai6", "saang1"]))
    );
    // terms in a row that name syllables the other way round are not joined
    assert_eq!(
        vec![(6, 10), (0, 5)],
        dict.get_jyutping_matched_spans(entry, &terms(&["hok6", "daai6"]))
    );
    // without its tone a syllable is not whole
    assert_eq!(
        vec![(0, 4), (6, 10)],
        dict.get_jyutping_matched_spans(entry, &terms(&["daai", "hok6"]))
    );
    // an edit-distance match highlights the base, and the tone where one was typed
    assert_eq!(vec![(0, 4)], dict.get_jyutping_matched_spans(entry, &terms(&["dai"])));
    assert_eq!(vec![(0, 4), (4, 5)], dict.get_jyutping_matched_spans(entry, &terms(&["dai6"])));
    // a tone alone highlights the tone of the first syllable that has it
    assert_eq!(vec![(4, 5), (4, 5)], dict.get_jyutping_matched_spans(entry, &terms(&["6", "6"])));
    assert_eq!(vec![(16, 17)], dict.get_jyutping_matched_spans(entry, &terms(&["1"])));
    // a term that fits no syllable gives nothing
    assert!(dict.get_jyutping_matched_spans(entry, &terms(&["xyz"])).is_empty());
}

#[test]
fn merging_sorts_and_joins_touching_and_overlapping_spans() {
    assert_eq!(Vec::<(usize, usize)>::new(), merge_overlapping_match_spans(vec![]));
    assert_eq!(vec![(0, 3)], merge_overlapping_match_spans(vec![(0, 3)]));
    assert_eq!(vec![(0, 4)], merge_overlapping_match_spans(vec![(0, 3), (3, 4)]));
    assert_eq!(vec![(0, 3), (4, 8)], merge_overlapping_match_spans(vec![(4, 8), (0, 3)]));
    assert_eq!(vec![(0, 9)], merge_overlapping_match_spans(vec![(2, 5), (0, 3), (4, 9), (1, 2)]));
    assert_eq!(vec![(0, 9)], merge_overlapping_match_spans(vec![(0, 9), (2, 3)]));
    assert_eq!(
        vec![(0, 1), (2, 3), (5, 9)],
        merge_overlapping_match_spans(vec![(5, 6), (2, 3), (6, 9), (0, 1)])
    );
}

#[test]
fn merging_spans_that_lie_apart_changes_nothing() {
    for spans in [vec![], vec![(0, 2)], vec![(0, 2), (4, 7)], vec![(1, 2), (3, 4), (9, 12)]] {
        assert_eq!(spans.clone(), merge_overlapping_match_spans(spans.clone()));
        let once = merge_overlapping_match_spans(vec![(7, 9), (0, 2), (1, 5), (9, 10)]);
        assert_eq!(once.clone(), merge_overlapping_match_spans(once));
    }
}

#[test]
fn inversions_are_counted_pair_by_pair() {
    assert_eq!(0, cost_inversions(&[]));
    assert_eq!(0, cost_inversions(&[4]));
    assert_eq!(0, cost_inversions(&[1, 1, 2, 9]));
    assert_eq!(OUT_OF_ORDER_INVERSION_PENALTY, cost_inversions(&[2, 1]));
    assert_eq!(3 * OUT_OF_ORDER_INVERSION_PENALTY, cost_inversions(&[3, 2, 1]));
    assert_eq!(3 * OUT_OF_ORDER_INVERSION_PENALTY, cost_inversions(&[3, 1, 4, 1, 5]));
    // the penalty stops at the largest 32-bit number
    let falling: Vec<usize> = (0..1200).rev().collect();
    assert_eq!(u32::MAX, cost_inversions(&falling));
    let falling: Vec<usize> = (0..1000).rev().collect();
    assert_eq!(499_500 * 8_000, cost_inversions(&falling) as u64);
}

#[test]
fn total_is_the_sum_of_the_four_penalties() {
    let c = MatchCostInfo {
        term_match_cost: 1,
        unmatched_position_cost: 20,
        inversion_cost: 300,
        static_cost: 4000,
    };
    assert_eq!(4321, c.total());
    let c = MatchCostInfo {
        term_match_cost: u32::MAX - 6,
        unmatched_position_cost: 1,
        inversion_cost: 2,
        static_cost: 3,
    };
    assert_eq!(u32::MAX, c.total());
}

#[test]
fn ranking_keeps_the_best_in_order() {
    let m = |id: usize, cost: u32| Match {
        cost_info: MatchCostInfo {
            term_match_cost: cost,
            unmatched_position_cost: 0,
            inversion_cost: 0,
            static_cost: 0,
        },
        match_type: MatchType::Jyutping,
        entry_id: id,
    };
    let all = vec![m(0, 5), m(1, 3), m(2, 5), m(3, 1), m(4, 3), m(5, 9)];
    let ids = |v: Vec<Match>| v.iter().map(|x| x.entry_id).collect::<Vec<_>>();
    assert_eq!(vec![3, 1, 4, 0, 2, 5], ids(rank_top(&all, 10)));
    assert_eq!(vec![3, 1, 4, 0, 2, 5], ids(rank_top(&all, 6)));
    assert_eq!(vec![3, 1, 4], ids(rank_top(&all, 3)));
    assert_eq!(vec![3], ids(rank_top(&all, 1)));
    assert_eq!(Vec::<usize>::new(), ids(rank_top(&all, 0)));
    // sums that leave 32 bits are ranked by what they are
    let wide = |id: usize, each: u32, last: u32| Match {
        cost_info: MatchCostInfo {
            term_match_cost: each,
            unmatched_position_cost: each,
            inversion_cost: each,
            static_cost: last,
        },
        match_type: MatchType::Jyutping,
        entry_id: id,
    };
    let all = vec![wide(0, u32::MAX, u32::MAX), wide(1, u32::MAX, 7), wide(2, 0, u32::MAX)];
    assert_eq!(vec![2, 1, 0], ids(rank_top(&all, 3)));
}

#[test]
fn id_set_holds_what_was_put_in() {
    let mut set = IdSet::new();
    assert_eq!(0, set.len());
    assert!(!set.contains(0));
    set.insert(3);
    set.insert(70);
    set.insert(3);
    assert!(set.contains(3) && set.contains(70));
    assert!(!set.contains(4) && !set.contains(71) && !set.contains(100_000));
    assert_eq!(2, set.len());
    set.clear();
    assert_eq!(0, set.len());
    assert!(!set.contains(3));
}

#[test]
fn traditional_terms_and_match() {
    let dict = wide();
    assert_eq!(vec![1, 0, 1], dict.traditional_terms("大 x 人大?"));
    let terms = QueryTerms { jyutping_terms: vec![], traditional_terms: vec![0, 1] };
    assert!(dict.matches_query_traditional(&dict.entries[3], &terms));
    assert!(!dict.matches_query_traditional(&dict.entries[0], &terms));
    let none = QueryTerms { jyutping_terms: vec![], traditional_terms: vec![] };
    assert!(dict.matches_query_traditional(&dict.entries[0], &none));
    assert_eq!(vec![(0, 1), (1, 2)], dict.get_traditional_matched_spans(&dict.entries[3], &terms));
    assert_eq!(vec![(0, 1)], dict.get_traditional_matched_spans(&dict.entries[4], &terms));
}

#[test]
fn english_spans_are_places_in_the_blob() {
    let dict = wide();
    // entry 0: "person" at 0..6 and "human being" at 6..17
    assert_eq!(
        vec![(0, 3), (13, 16)],
        dict.get_english_matched_spans(&dict.entries[0], "per EIN")
    );
    // a word that stands in both definitions
    assert_eq!(vec![(5, 6), (10, 11)], dict.get_english_matched_spans(&dict.entries[0], "n"));
    // a word across two definitions matches the entry but is not highlighted
    assert!(dict.matches_query_english(&dict.entries[0], "sonhum").is_some());
    assert!(dict.get_english_matched_spans(&dict.entries[0], "sonhum").is_empty());
}
