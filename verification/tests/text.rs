use aufgaben::plan::{decimal_string, join_strings};
use aufgaben::text::{parse_u32, parse_usize, push_decimal, push_decimal_wide, str_chars};
use aufgaben::words::{is_space_char, split_lines, split_words};

fn chars(s: &str) -> Vec<char> {
    s.chars().collect()
}

fn strings(v: Vec<Vec<char>>) -> Vec<String> {
    v.into_iter().map(|w| w.into_iter().collect()).collect()
}

#[test]
fn parse_u32_reads_plain_numbers() {
    assert_eq!(parse_u32(&chars("123")), Some(123));
    assert_eq!(parse_u32(&chars("0")), Some(0));
    assert_eq!(parse_u32(&chars("007")), Some(7));
    assert_eq!(parse_u32(&chars("+42")), Some(42));
}

#[test]
fn parse_u32_bounds() {
    assert_eq!(parse_u32(&chars("4294967295")), Some(u32::MAX));
    assert_eq!(parse_u32(&chars("4294967296")), None);
    assert_eq!(parse_u32(&chars("99999999999")), None);
}

#[test]
fn parse_u32_rejects_malformed() {
    assert_eq!(parse_u32(&chars("")), None);
    assert_eq!(parse_u32(&chars("+")), None);
    assert_eq!(parse_u32(&chars("-1")), None);
    assert_eq!(parse_u32(&chars("12a")), None);
    assert_eq!(parse_u32(&chars(" 1")), None);
    assert_eq!(parse_u32(&chars("++1")), None);
}

#[test]
fn parse_u32_agrees_with_std() {
    for s in ["0", "1", "+9", "65535", "4294967295", "4294967296", "x", "", "1 2", "٣"] {
        assert_eq!(parse_u32(&chars(s)), s.parse::<u32>().ok(), "input {:?}", s);
    }
}

#[test]
fn parse_usize_reads_large_numbers() {
    assert_eq!(parse_usize(&chars("18446744073709551615")), "18446744073709551615".parse::<usize>().ok());
    assert_eq!(parse_usize(&chars("18446744073709551616")), None);
    assert_eq!(parse_usize(&chars("3")), Some(3));
    assert_eq!(parse_usize(&chars("")), None);
}

#[test]
fn push_decimal_writes_digits() {
    let mut s = String::from("x");
    push_decimal(&mut s, 1205);
    assert_eq!(s, "x1205");
    let mut z = String::new();
    push_decimal(&mut z, 0);
    assert_eq!(z, "0");
    let mut m = String::new();
    push_decimal(&mut m, u32::MAX);
    assert_eq!(m, "4294967295");
}

#[test]
fn push_decimal_wide_writes_u64() {
    let mut s = String::new();
    push_decimal_wide(&mut s, u64::MAX);
    assert_eq!(s, "18446744073709551615");
}

#[test]
fn decimal_then_parse_round_trip() {
    for n in [0u32, 1, 9, 10, 99, 100, 12345, 4294967295] {
        let written = decimal_string(n);
        assert_eq!(written, n.to_string());
        assert_eq!(parse_u32(&chars(&written)), Some(n));
    }
}

#[test]
fn join_strings_puts_single_spaces() {
    let words = vec!["S".to_string(), "[1 1]".to_string(), "T".to_string()];
    assert_eq!(join_strings(&words), "S [1 1] T");
    assert_eq!(join_strings(&vec![]), "");
    assert_eq!(join_strings(&vec!["a".to_string()]), "a");
}

#[test]
fn str_chars_keeps_characters() {
    assert_eq!(str_chars("aé∑"), vec!['a', 'é', '∑']);
    assert_eq!(str_chars(""), Vec::<char>::new());
}

#[test]
fn whitespace_matches_std() {
    for c in [' ', '\t', '\n', '\r', '\u{b}', '\u{c}', '\u{85}', '\u{a0}', '\u{2003}', '\u{3000}', 'a', '0', '_', '\u{200b}'] {
        assert_eq!(is_space_char(c), c.is_whitespace(), "char {:?}", c);
    }
}

#[test]
fn split_words_like_split_whitespace() {
    let text = "  ab\tc \n d\u{3000}e  ";
    let expected: Vec<String> = text.split_whitespace().map(|s| s.to_string()).collect();
    assert_eq!(strings(split_words(&chars(text))), expected);
    assert_eq!(strings(split_words(&chars(text))), vec!["ab", "c", "d", "e"]);
    assert!(split_words(&chars("   ")).is_empty());
    assert!(split_words(&chars("")).is_empty());
}

#[test]
fn words_are_solid() {
    for w in split_words(&chars(" x  yy\tzzz\n")) {
        assert!(!w.is_empty());
        assert!(w.iter().all(|c| !c.is_whitespace()));
    }
}

#[test]
fn split_lines_like_str_lines() {
    for text in ["a\r\nb\n\nc", "a\n", "", "a\r", "\n", "x\ny\r\n", "\r\n\r\n"] {
        let expected: Vec<String> = text.lines().map(|s| s.to_string()).collect();
        assert_eq!(strings(split_lines(&chars(text))), expected, "text {:?}", text);
    }
    assert_eq!(strings(split_lines(&chars("a\r\nb\n\nc"))), vec!["a", "b", "", "c"]);
}
