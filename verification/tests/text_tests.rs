use advanced_calculator::text::{char_is_whitespace, is_single_char, trim};

#[test]
fn trim_matches_str_trim() {
    for s in ["", "  ", " a ", "\t\n x y \r\n", "\u{3000}z\u{a0}", "abc", "\u{85}1\u{2028}"] {
        assert_eq!(trim(s), s.trim());
    }
}

#[test]
fn whitespace_matches_char_is_whitespace() {
    for c in ['\t', '\n', '\u{b}', '\u{c}', '\r', ' ', '\u{85}', '\u{a0}', '\u{1680}', '\u{2000}',
        '\u{200a}', '\u{2028}', '\u{2029}', '\u{202f}', '\u{205f}', '\u{3000}', 'a', '0', '\u{200b}',
        '\u{180e}', '\u{feff}'] {
        assert_eq!(char_is_whitespace(c), c.is_whitespace(), "{:?}", c);
    }
    for code in 0u32..0x3100 {
        if let Some(c) = char::from_u32(code) {
            assert_eq!(char_is_whitespace(c), c.is_whitespace(), "{:?}", c);
        }
    }
}

#[test]
fn single_char_test() {
    assert!(is_single_char("(", '('));
    assert!(!is_single_char("((", '('));
    assert!(!is_single_char("", '('));
    assert!(!is_single_char(")", '('));
}
