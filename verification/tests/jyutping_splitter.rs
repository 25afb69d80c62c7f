use dictlib::jyutping_splitter::{parse_jyutping_tone, JyutpingSplitter};

#[test]
pub fn test_jyutping_splitter_basic() {
    let str = "hello ngo5 hai6 dan dan";
    let mut iter = JyutpingSplitter::new(str);
    assert_eq!(Some("ngo5"), iter.next());
    assert_eq!(Some("hai6"), iter.next());
    assert_eq!(None, iter.next());
}

#[test]
pub fn non_ascii_punct() {
    let str = "bat1 daa2 ，soeng6 fong4";
    let mut iter = JyutpingSplitter::new(str);
    assert_eq!(Some("bat1"), iter.next());
    assert_eq!(Some("daa2"), iter.next());
    assert_eq!(Some("soeng6"), iter.next());
    assert_eq!(Some("fong4"), iter.next());
    assert_eq!(None, iter.next());
}

#[test]
pub fn non_ascii_chars() {
    let str = "man4 zuk6ＬＯＯＫ";
    let mut iter = JyutpingSplitter::new(str);
    assert_eq!(Some("man4"), iter.next());
    assert_eq!(Some("zuk6"), iter.next());
    assert_eq!(None, iter.next());
}

#[test]
fn splitter_takes_letters_and_one_digit_only() {
    let mut iter = JyutpingSplitter::new("ab12 3cd4,ef5gh");
    assert_eq!(Some("ab1"), iter.next());
    assert_eq!(Some("cd4"), iter.next());
    assert_eq!(Some("ef5"), iter.next());
    assert_eq!(None, iter.next());
    assert_eq!(None, iter.next());
}

#[test]
fn tone_is_split_off_the_end() {
    assert_eq!(("lou", Some(5)), parse_jyutping_tone("lou5"));
    assert_eq!(("lou", None), parse_jyutping_tone("lou"));
    assert_eq!(("", Some(9)), parse_jyutping_tone("9"));
    assert_eq!(("老", Some(0)), parse_jyutping_tone("老0"));
    assert_eq!(("老", None), parse_jyutping_tone("老"));
}
