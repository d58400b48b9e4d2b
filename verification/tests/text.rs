use lb_sim::text::{
    blank, chars_of, decimal_text, digit, digit_of, parse_number, push_decimal, split_chars,
    string_of, trim_chars,
};

fn chars(text: &str) -> Vec<char> {
    text.chars().collect()
}

#[test]
fn numbers_are_written_in_decimal() {
    assert_eq!(decimal_text(0), "0");
    assert_eq!(decimal_text(7), "7");
    assert_eq!(decimal_text(10), "10");
    assert_eq!(decimal_text(1234567890), "1234567890");
    assert_eq!(decimal_text(u128::MAX), "340282366920938463463374607431768211455");
    let mut text = String::from("n=");
    push_decimal(&mut text, 405);
    assert_eq!(text, "n=405");
    let digits: String = (0..10u8).map(digit).collect();
    assert_eq!(digits, "0123456789");
}

#[test]
fn numbers_are_read_from_decimal() {
    assert_eq!(parse_number(&chars("0"), 10), Some(0));
    assert_eq!(parse_number(&chars("10"), 10), Some(10));
    assert_eq!(parse_number(&chars("11"), 10), None);
    assert_eq!(parse_number(&chars("+7"), 10), Some(7));
    assert_eq!(parse_number(&chars("007"), 10), Some(7));
    assert_eq!(parse_number(&chars(""), 10), None);
    assert_eq!(parse_number(&chars("+"), 10), None);
    assert_eq!(parse_number(&chars("-1"), 10), None);
    assert_eq!(parse_number(&chars("1 "), 10), None);
    assert_eq!(parse_number(&chars("++1"), 10), None);
    assert_eq!(parse_number(&chars("١"), 10), None);
    assert_eq!(parse_number(&chars("18446744073709551615"), u64::MAX), Some(u64::MAX));
    assert_eq!(parse_number(&chars("18446744073709551616"), u64::MAX), None);
    assert_eq!(parse_number(&chars("99999999999999999999999"), u64::MAX), None);
    assert_eq!(digit_of('8'), Some(8));
    assert_eq!(digit_of('a'), None);
}

#[test]
fn whitespace_is_trimmed_at_both_ends() {
    assert_eq!(trim_chars(&chars("  a b\t\n")), chars("a b"));
    assert_eq!(trim_chars(&chars("\u{a0}x\u{3000}")), chars("x"));
    assert_eq!(trim_chars(&chars(" \t ")), chars(""));
    assert_eq!(trim_chars(&chars("")), chars(""));
    assert_eq!(trim_chars(&chars("ab")), chars("ab"));
    assert!(blank(""));
    assert!(blank(" \t\r\n"));
    assert!(!blank(" a "));
}

#[test]
fn texts_are_cut_at_every_separator() {
    assert_eq!(split_chars(&chars("a,b,,c"), ','), vec![chars("a"), chars("b"), chars(""), chars("c")]);
    assert_eq!(split_chars(&chars(""), ','), vec![chars("")]);
    assert_eq!(split_chars(&chars(","), ','), vec![chars(""), chars("")]);
    assert_eq!(split_chars(&chars("abc"), ':'), vec![chars("abc")]);
    assert_eq!(split_chars(&chars("a:"), ':'), vec![chars("a"), chars("")]);
}

#[test]
fn characters_and_strings_convert_both_ways() {
    assert_eq!(chars_of("héllo"), chars("héllo"));
    assert_eq!(string_of(&chars("héllo")), "héllo");
    assert_eq!(string_of(&Vec::new()), "");
}
