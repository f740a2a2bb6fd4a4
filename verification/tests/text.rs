use indigo::text::{dec_string, parse_trimmed, split_lines, split_words, string_of, trim_exec};

fn chars_of(s: &str) -> Vec<char> {
    s.chars().collect()
}

fn lines_of(s: &str) -> Vec<String> {
    split_lines(&chars_of(s)).iter().map(|l| string_of(l)).collect()
}

#[test]
fn numbers_like_str_parse() {
    assert_eq!(parse_trimmed(" 42\n", u64::MAX), Some(42));
    assert_eq!(parse_trimmed("+7", 255), Some(7));
    assert_eq!(parse_trimmed("256", 255), None);
    assert_eq!(parse_trimmed("18446744073709551615", u64::MAX), Some(u64::MAX));
    assert_eq!(parse_trimmed("18446744073709551616", u64::MAX), None);
    assert_eq!(parse_trimmed("-1", 255), None);
    assert_eq!(parse_trimmed("", 255), None);
    assert_eq!(parse_trimmed("+", 255), None);
    assert_eq!(parse_trimmed("1 2", 255), None);
}

#[test]
fn decimal_text() {
    assert_eq!(dec_string(0), "0");
    assert_eq!(dec_string(1200), "1200");
    assert_eq!(dec_string(u64::MAX), "18446744073709551615");
}

#[test]
fn lines_like_str_lines() {
    assert_eq!(lines_of("a\nb\r\n\nc"), vec!["a", "b", "", "c"]);
    assert_eq!(lines_of("a\n"), vec!["a"]);
    assert!(lines_of("").is_empty());
}

#[test]
fn words_and_trim() {
    let w: Vec<String> = split_words(&chars_of("  eth0\t00000000  x ")).iter().map(|v| string_of(v)).collect();
    assert_eq!(w, vec!["eth0", "00000000", "x"]);
    assert_eq!(string_of(&trim_exec(&chars_of("\u{3000} a b \n"))), "a b");
}
