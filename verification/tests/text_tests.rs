use donedone::text::{
    blocks_of, chars_of, join_blocks_of, lines_of, parse_usize_chars, trim_chars, usize_to_string,
    words_of,
};

fn chars(s: &str) -> Vec<char> {
    s.chars().collect()
}

fn rows(v: &[&str]) -> Vec<Vec<char>> {
    v.iter().map(|s| chars(s)).collect()
}

#[test]
fn decimal_strings() {
    assert_eq!(usize_to_string(0), "0");
    assert_eq!(usize_to_string(9), "9");
    assert_eq!(usize_to_string(10), "10");
    assert_eq!(usize_to_string(1234567890), "1234567890");
    assert_eq!(usize_to_string(usize::MAX), usize::MAX.to_string());
}

#[test]
fn parse_decimal() {
    assert_eq!(parse_usize_chars(&chars("42")), Some(42));
    assert_eq!(parse_usize_chars(&chars("+42")), Some(42));
    assert_eq!(parse_usize_chars(&chars("")), None);
    assert_eq!(parse_usize_chars(&chars("+")), None);
    assert_eq!(parse_usize_chars(&chars("4 2")), None);
    assert_eq!(parse_usize_chars(&chars(&usize::MAX.to_string())), Some(usize::MAX));
    assert_eq!(parse_usize_chars(&chars(&format!("{}0", usize::MAX))), None);
}

#[test]
fn lines_like_str_lines() {
    for s in ["", "a", "a\n", "a\nb", "a\r\nb\r\n", "\n\n", "x\r", "x\r\r\n"] {
        let expected: Vec<Vec<char>> = s.lines().map(chars).collect();
        assert_eq!(lines_of(&chars(s)), expected, "{:?}", s);
    }
}

#[test]
fn words_like_split_whitespace() {
    for s in ["", "  ", "a b", "  a\t\tb \n c  ", "\u{3000}x\u{a0}y"] {
        let expected: Vec<Vec<char>> = s.split_whitespace().map(chars).collect();
        assert_eq!(words_of(&chars(s)), expected, "{:?}", s);
    }
}

#[test]
fn trim_like_str_trim() {
    for s in ["", "  ", " a b ", "\u{2003}x\u{85}", "x"] {
        assert_eq!(trim_chars(&chars(s)), chars(s.trim()), "{:?}", s);
    }
}

#[test]
fn blocks_like_split_blank_line() {
    for s in ["", "a", "a\n\nb", "a\n\n\nb", "\n\n\n\n", "x\n\n\n", "a\nb\n\nc\n\n"] {
        let expected: Vec<Vec<char>> = s.split("\n\n").map(chars).collect();
        let got = blocks_of(&chars(s));
        assert_eq!(got, expected, "{:?}", s);
        assert_eq!(join_blocks_of(&got), chars(s));
    }
}

#[test]
fn chars_of_unicode() {
    assert_eq!(chars_of("é黑x"), vec!['é', '黑', 'x']);
    assert_eq!(rows(&["a"]), vec![vec!['a']]);
}
