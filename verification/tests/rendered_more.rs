use dictlib::compiled_dictionary::{
    CharacterStore, CompiledDictionary, CompiledDictionaryEntry, Jyutping, JyutpingStore,
    FLAG_SOURCE_CEDICT,
};
use dictlib::rendered_result::{char_offsets, char_width, RenderedResult};
use dictlib::search::{Match, MatchCostInfo, MatchType, MatchWithHitInfo};
use dictlib::{EntrySource, Stopwatch};

struct NoStopwatch;

impl Stopwatch for NoStopwatch {
    fn elapsed_ms(&self) -> i32 {
        0
    }
}

fn dict() -> CompiledDictionary {
    CompiledDictionary {
        character_store: CharacterStore { characters: vec!['<', '師', '老'] },
        jyutping_store: JyutpingStore { base_strings: vec!["lou".to_string(), "si".to_string()] },
        entries: vec![CompiledDictionaryEntry {
            characters: vec![2, 0, 1],
            jyutping: vec![Jyutping { base: 0, tone: 5 }, Jyutping { base: 1, tone: 1 }],
            english_start: 0,
            english_end: 2,
            cost: 9,
            flags: FLAG_SOURCE_CEDICT,
        }],
        english_data: "a <b> teacherto teach & \"guide\"".as_bytes().to_vec(),
        english_data_starts: vec![0, 13, 31],
    }
}

fn hit(kind: MatchType, spans: Vec<(usize, usize)>) -> MatchWithHitInfo {
    MatchWithHitInfo {
        match_obj: Match {
            cost_info: MatchCostInfo {
                term_match_cost: 0,
                unmatched_position_cost: 0,
                inversion_cost: 0,
                static_cost: 9,
            },
            match_type: kind,
            entry_id: 0,
        },
        matched_spans: spans,
    }
}

#[test]
fn every_special_character_has_its_entity() {
    assert_eq!("&lt;&gt;&amp;&quot;&#x27;", RenderedResult::escape_html("<>&\"'"));
    assert_eq!("", RenderedResult::escape_html(""));
    assert_eq!("老 &amp; 師", RenderedResult::escape_html("老 & 師"));
}

#[test]
fn highlights_take_the_text_between_spans_from_the_end_of_the_one_before() {
    let open = "<mark class=\"hit-highlight\">";
    assert_eq!(
        format!("a{}bc{}d{}e{}f", open, "</mark>", open, "</mark>"),
        RenderedResult::apply_highlights("abcdef", &[(1, 3), (4, 5)])
    );
    assert_eq!(
        format!("{}abcdef{}", open, "</mark>"),
        RenderedResult::apply_highlights("abcdef", &[(0, 6)])
    );
    assert_eq!(
        format!("{}{}{}老{}師", open, "</mark>", open, "</mark>"),
        RenderedResult::apply_highlights("老師", &[(0, 0), (0, 3)])
    );
    assert!(RenderedResult::highlights_can_apply("老師", &[(0, 3), (3, 6)]));
    assert!(!RenderedResult::highlights_can_apply("老師", &[(0, 2)]));
    assert!(!RenderedResult::highlights_can_apply("老師", &[(1, 3)]));
    assert!(!RenderedResult::highlights_can_apply("老師", &[(3, 0)]));
    assert!(!RenderedResult::highlights_can_apply("老師", &[(3, 7)]));
    assert!(RenderedResult::highlights_can_apply("", &[(0, 0)]));
}

#[test]
fn characters_are_measured_in_bytes() {
    assert_eq!(1, char_width('a'));
    assert_eq!(2, char_width('é'));
    assert_eq!(3, char_width('老'));
    assert_eq!(4, char_width('😭'));
    assert_eq!(vec![0, 1, 3, 6, 10], char_offsets("aé老😭"));
    assert_eq!(vec![0], char_offsets(""));
}

#[test]
fn a_match_is_rendered_in_the_field_of_its_kind() {
    let d = dict();
    assert!(d.is_valid());
    let open = "<mark class=\"hit-highlight\">";

    let m = hit(MatchType::Jyutping, vec![(0, 3), (5, 8)]);
    assert!(RenderedResult::match_can_render(&m, &d));
    let r = RenderedResult::from_match(&m, &d);
    assert_eq!(format!("{}lou{}5 {}si1{}", open, "</mark>", open, "</mark>"), r.jyutping);
    // fields of another kind: the characters as they are, the definitions escaped
    assert_eq!("老<師", r.characters);
    assert_eq!(vec!["a &lt;b&gt; teacher", "to teach &amp; &quot;guide&quot;"], r.english_definitions);
    assert_eq!(9, r.cost);
    assert_eq!(EntrySource::CEDict, r.entry_source);

    let m = hit(MatchType::Traditional, vec![(0, 2)]);
    assert!(RenderedResult::match_can_render(&m, &d));
    let r = RenderedResult::from_match(&m, &d);
    assert_eq!(format!("{}老&lt;{}師", open, "</mark>"), r.characters);
    assert_eq!("lou5 si1", r.jyutping);

    let m = hit(MatchType::English, vec![(2, 5), (16, 21), (11, 15)]);
    assert!(RenderedResult::match_can_render(&m, &d));
    let r = RenderedResult::from_match(&m, &d);
    assert_eq!(
        vec![
            format!("a {}&lt;b&gt;{} teacher", open, "</mark>"),
            format!("to {}teach{} &amp; &quot;guide&quot;", open, "</mark>"),
        ],
        r.english_definitions
    );

    // spans that do not fit the entry
    assert!(!RenderedResult::match_can_render(&hit(MatchType::Traditional, vec![(0, 4)]), &d));
    assert!(!RenderedResult::match_can_render(&hit(MatchType::Jyutping, vec![(0, 9)]), &d));
    assert!(!RenderedResult::match_can_render(&hit(MatchType::Jyutping, vec![(3, 1)]), &d));
    let mut elsewhere = hit(MatchType::Jyutping, vec![]);
    elsewhere.match_obj.entry_id = 1;
    assert!(!RenderedResult::match_can_render(&elsewhere, &d));
}

#[test]
fn what_a_search_returns_can_be_rendered() {
    let d = dict();
    for query in ["lou5 si1", "ou", "老", "師 老", "teach", "<b>", "guide to", "\"guide", "si1 lou"] {
        let result = d.search(query, 8, Box::new(NoStopwatch));
        assert!(!result.matches.is_empty(), "query {}", query);
        for m in &result.matches {
            assert!(RenderedResult::match_can_render(m, &d), "query {}", query);
            let r = RenderedResult::from_match(m, &d);
            let marked = match m.match_obj.match_type {
                MatchType::Jyutping => r.jyutping,
                MatchType::Traditional => r.characters,
                MatchType::English => r.english_definitions.join("|"),
            };
            assert_eq!(
                m.matched_spans.len(),
                marked.matches("<mark class=\"hit-highlight\">").count()
            );
        }
    }
}
