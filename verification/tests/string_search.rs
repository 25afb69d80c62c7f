use dictlib::string_search::{
    _local_levenshtein_bs, _prefix_levenshtein_bs, indexof_ignore_case, local_levenshtein_ascii,
    prefix_levenshtein_ascii, string_indexof_linear_ignorecase,
};

#[test]
fn test_levenshtein() {
    assert_eq!(0, local_levenshtein_ascii("hi", "hike"));
    assert_eq!(0, local_levenshtein_ascii("ik", "hike"));
    assert_eq!(0, local_levenshtein_ascii("ke", "hike"));

    assert_eq!(1, local_levenshtein_ascii("ho", "hike"));
    assert_eq!(1, local_levenshtein_ascii("mike", "m!ke"));
    assert_eq!(1, local_levenshtein_ascii("mike", " m!ke"));
    assert_eq!(1, local_levenshtein_ascii("mike", "hi mcke!"));
}

#[test]
fn test_prefix_levenshtein() {
    assert_eq!(0, prefix_levenshtein_ascii("hi", "hike"));
    assert_eq!(0, prefix_levenshtein_ascii("hike", "hike"));
    assert_eq!(1, prefix_levenshtein_ascii("ike", "hike"));
    assert_eq!(1, prefix_levenshtein_ascii("ik", "hike"));
    assert_eq!(1, prefix_levenshtein_ascii("bai", "baai"));
}

#[test]
fn test_string_indexof() {
    assert_eq!(None, string_indexof_linear_ignorecase("hello", "there".as_bytes()));
    assert_eq!(Some(1), string_indexof_linear_ignorecase("hello", " hello  ".as_bytes()));
    assert_eq!(Some(5), string_indexof_linear_ignorecase("helLO", "😭 hello  ".as_bytes()));
    assert_eq!(Some(5), string_indexof_linear_ignorecase("hello", "😭 HeLLo  ".as_bytes()));
    assert_eq!(Some(9), string_indexof_linear_ignorecase("😭", "oh thats 😭 hello  ".as_bytes()));

    assert_eq!(Some(5), string_indexof_linear_ignorecase("one two", "test one two".as_bytes()));
    assert_eq!(Some(0), string_indexof_linear_ignorecase("one two", "one two".as_bytes()));
}

#[test]
fn test_string_indexof_case_variations() {
    // All uppercase needle, lowercase haystack
    assert_eq!(Some(0), string_indexof_linear_ignorecase("HELLO", "hello world".as_bytes()));

    // All lowercase needle, uppercase haystack
    assert_eq!(Some(0), string_indexof_linear_ignorecase("hello", "HELLO WORLD".as_bytes()));

    // Mixed case variations
    assert_eq!(Some(0), string_indexof_linear_ignorecase("HeLLo", "hEllO WORLD".as_bytes()));
    assert_eq!(Some(6), string_indexof_linear_ignorecase("WoRlD", "HELLO world".as_bytes()));

    // Single character matches
    assert_eq!(Some(0), string_indexof_linear_ignorecase("A", "apple".as_bytes()));
    assert_eq!(Some(0), string_indexof_linear_ignorecase("a", "Apple".as_bytes()));
    assert_eq!(Some(3), string_indexof_linear_ignorecase("Z", "quiz".as_bytes()));
}

#[test]
fn test_string_indexof_edge_cases() {
    // Empty haystack with non-empty needle
    assert_eq!(None, string_indexof_linear_ignorecase("hello", "".as_bytes()));

    // Needle longer than haystack
    assert_eq!(None, string_indexof_linear_ignorecase("hello world", "hi".as_bytes()));

    // Exact match
    assert_eq!(Some(0), string_indexof_linear_ignorecase("test", "test".as_bytes()));
    assert_eq!(Some(0), string_indexof_linear_ignorecase("TeSt", "tEsT".as_bytes()));

    // Match at the very end
    assert_eq!(Some(7), string_indexof_linear_ignorecase("end", "at the end".as_bytes()));
    assert_eq!(Some(7), string_indexof_linear_ignorecase("END", "at the end".as_bytes()));
}

#[test]
fn test_string_indexof_ascii_boundaries() {
    // Test letters at ASCII boundaries
    assert_eq!(Some(0), string_indexof_linear_ignorecase("A", "a".as_bytes()));
    assert_eq!(Some(0), string_indexof_linear_ignorecase("Z", "z".as_bytes()));
    assert_eq!(Some(0), string_indexof_linear_ignorecase("a", "A".as_bytes()));
    assert_eq!(Some(0), string_indexof_linear_ignorecase("z", "Z".as_bytes()));

    // Mixed with numbers and symbols (should not be affected by case)
    assert_eq!(Some(0), string_indexof_linear_ignorecase("a1b", "A1B".as_bytes()));
    assert_eq!(Some(0), string_indexof_linear_ignorecase("test@123", "TEST@123".as_bytes()));

    // Numbers and symbols don't have case
    assert_eq!(Some(0), string_indexof_linear_ignorecase("123", "123".as_bytes()));
    assert_eq!(None, string_indexof_linear_ignorecase("123", "456".as_bytes()));
}

#[test]
fn test_string_indexof_repeated_patterns() {
    // First occurrence should be returned
    assert_eq!(Some(0), string_indexof_linear_ignorecase("ab", "ababab".as_bytes()));
    assert_eq!(Some(0), string_indexof_linear_ignorecase("AB", "ababab".as_bytes()));

    // Multiple occurrences, case insensitive
    assert_eq!(Some(0), string_indexof_linear_ignorecase("hi", "hi HI hi".as_bytes()));
    assert_eq!(Some(0), string_indexof_linear_ignorecase("HI", "hi HI hi".as_bytes()));

    // Pattern with repeating characters
    assert_eq!(Some(2), string_indexof_linear_ignorecase("aaa", "bbaaabbb".as_bytes()));
    assert_eq!(Some(2), string_indexof_linear_ignorecase("AAA", "bbaaabbb".as_bytes()));
}

#[test]
fn test_string_indexof_longer_strings() {
    // Longer realistic test cases
    let haystack = "The Quick Brown Fox Jumps Over The Lazy Dog";
    assert_eq!(Some(4), string_indexof_linear_ignorecase("quick", haystack.as_bytes()));
    assert_eq!(Some(4), string_indexof_linear_ignorecase("QUICK", haystack.as_bytes()));
    assert_eq!(Some(16), string_indexof_linear_ignorecase("fox", haystack.as_bytes()));
    assert_eq!(Some(35), string_indexof_linear_ignorecase("lazy dog", haystack.as_bytes()));

    // Not found in longer string
    assert_eq!(None, string_indexof_linear_ignorecase("cat", haystack.as_bytes()));

    // Partial match should not succeed
    assert_eq!(None, string_indexof_linear_ignorecase("foxes", haystack.as_bytes()));
}

#[test]
fn indexof_agrees_with_plain_comparison_on_every_position() {
    // Long haystacks take the eight-bytes-at-once path; compare it with a
    // position-by-position search.
    let haystack = "zzzzzzzzzzzzzKzzzzzzzzzzzzzzzzzzzzzzzkeYzzzzzzzzzzkeyhole and KEYS";
    let bytes = haystack.as_bytes();
    for needle in ["key", "KEY", "k", "zk", "hole", "keys", "s", "and k", "nothing"] {
        let n = needle.as_bytes();
        let mut expected = None;
        if n.len() <= bytes.len() {
            for at in 0..=(bytes.len() - n.len()) {
                if bytes[at..at + n.len()].eq_ignore_ascii_case(n) {
                    expected = Some(at);
                    break;
                }
            }
        }
        assert_eq!(expected, indexof_ignore_case(n, bytes), "needle {}", needle);
    }
}

#[test]
fn indexof_does_not_fold_bytes_outside_letters() {
    // '@' (0x40) and '`' (0x60) differ by the case bit but are no letters.
    assert_eq!(None, string_indexof_linear_ignorecase("@", "`````````````".as_bytes()));
    assert_eq!(None, string_indexof_linear_ignorecase("[", "{{{{{{{{{{{{{{{{".as_bytes()));
    assert_eq!(Some(12), string_indexof_linear_ignorecase("a[", "aaaaaaaaaaaaA[aaaaaaaaaa".as_bytes()));
}

#[test]
fn prefix_distance_counts_a_changed_byte_twice() {
    assert_eq!(2, prefix_levenshtein_ascii("abcd", "abxd"));
    assert_eq!(1, local_levenshtein_ascii("abcd", "abxd"));
    // the empty prefix is a prefix: dropping every byte of the query reaches it
    assert_eq!(1, prefix_levenshtein_ascii("a", "b"));
    assert_eq!(2, prefix_levenshtein_ascii("ab", "xyz"));
    assert_eq!(1, local_levenshtein_ascii("a", "b"));
    assert_eq!(0, prefix_levenshtein_ascii("", "abc"));
    assert_eq!(3, prefix_levenshtein_ascii("abc", ""));
}

#[test]
fn distances_of_empty_queries_and_targets() {
    assert_eq!(0, _prefix_levenshtein_bs(b"", b"abc"));
    assert_eq!(3, _prefix_levenshtein_bs(b"abc", b""));
    assert_eq!(0, _prefix_levenshtein_bs(b"", b""));
    assert_eq!(1, _prefix_levenshtein_bs(b"a", b"b"));
    assert_eq!(0, _prefix_levenshtein_bs(b"hi", b"hike"));
    assert_eq!(0, _local_levenshtein_bs(b"", b"abc"));
    assert_eq!(3, _local_levenshtein_bs(b"abc", b""));
    assert_eq!(0, _local_levenshtein_bs(b"", b""));
    assert_eq!(0, _local_levenshtein_bs(b"ik", b"hike"));
    assert_eq!(0, local_levenshtein_ascii("", "abc"));
    assert_eq!(3, local_levenshtein_ascii("abc", ""));
}
