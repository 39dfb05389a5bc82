use naturalize::is_digit;
use naturalize::naturalizer::push_padded;
use naturalize::naturalizer::run_parser;
use naturalize::naturalizer::text_num;
use naturalize::to_natural;
use naturalize::NaturalizeError;

#[test]
fn is_digit_takes_ascii_digits_only() {
    for c in '0'..='9' {
        assert!(is_digit(c));
    }
    assert!(!is_digit('/'));
    assert!(!is_digit(':'));
    assert!(!is_digit('a'));
    assert!(!is_digit(' '));
    assert!(!is_digit('.'));
    assert!(!is_digit('\u{0663}'));
    assert!(!is_digit('\u{FF11}'));
}

#[test]
fn run_of_nine_gets_one_zero() {
    assert_eq!(to_natural("123456789").unwrap(), "0123456789".to_string());
}

#[test]
fn run_of_ten_is_unchanged() {
    assert_eq!(to_natural("1234567890").unwrap(), "1234567890".to_string());
}

#[test]
fn run_of_eleven_is_unchanged() {
    assert_eq!(to_natural("12345678901").unwrap(), "12345678901".to_string());
}

#[test]
fn single_zero_is_padded() {
    assert_eq!(to_natural("0").unwrap(), "0000000000".to_string());
}

#[test]
fn leading_zeros_count_as_digits() {
    assert_eq!(to_natural("007").unwrap(), "0000000007".to_string());
}

#[test]
fn dot_splits_a_number_in_two() {
    assert_eq!(to_natural("21.5").unwrap(), "0000000021.0000000005".to_string());
}

#[test]
fn minus_sign_is_text() {
    assert_eq!(to_natural("-5").unwrap(), "-0000000005".to_string());
}

#[test]
fn many_short_runs() {
    assert_eq!(
        to_natural("1a2b3").unwrap(),
        "0000000001a0000000002b0000000003".to_string()
    );
}

#[test]
fn text_on_both_sides() {
    assert_eq!(to_natural("  42  ").unwrap(), "  0000000042  ".to_string());
}

#[test]
fn non_ascii_text_is_kept() {
    assert_eq!(
        to_natural("h\u{e9}llo 7 w\u{f6}rld").unwrap(),
        "h\u{e9}llo 0000000007 w\u{f6}rld".to_string()
    );
    assert_eq!(to_natural("\u{65e5}\u{672c}12\u{8a9e}").unwrap(), "\u{65e5}\u{672c}0000000012\u{8a9e}".to_string());
}

#[test]
fn other_numerals_are_text() {
    assert_eq!(to_natural("\u{0663}\u{0664}").unwrap(), "\u{0663}\u{0664}".to_string());
    assert_eq!(to_natural("\u{FF11}2").unwrap(), "\u{FF11}0000000002".to_string());
}

#[test]
fn long_input_of_short_runs() {
    let mut input = String::new();
    let mut expected = String::new();
    for _ in 0..2000 {
        input.push_str("1,");
        expected.push_str("0000000001,");
    }
    assert_eq!(to_natural(&input).unwrap(), expected);
}

#[test]
fn push_padded_appends_the_padded_run() {
    let mut out = String::from("x");
    push_padded(&mut out, "42");
    assert_eq!(out, "x0000000042".to_string());
    push_padded(&mut out, "12345678901");
    assert_eq!(out, "x000000004212345678901".to_string());
    push_padded(&mut out, "");
    assert_eq!(out, "x0000000042123456789010000000000".to_string());
}

#[test]
fn text_num_appends_and_uses_up_the_input() {
    let mut out = String::from("key:");
    let rest = text_num("a1b", &mut out);
    assert_eq!(rest, Ok(""));
    assert_eq!(out, "key:a0000000001b".to_string());
}

#[test]
fn run_parser_gives_the_result_and_no_rest() {
    assert_eq!(run_parser("a1b"), Ok(("", "a0000000001b".to_string())));
    assert_eq!(run_parser(""), Ok(("", String::new())));
}

#[test]
fn error_is_plain_data() {
    let e = NaturalizeError::Scanner;
    assert_eq!(e, e.clone());
    assert_eq!(format!("{:?}", e), "Scanner".to_string());
}
