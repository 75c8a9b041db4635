use ill::text::{
    bytes_eq, contains_digit, format_value, join_params, parse_int, remove_dquotes, split_lines,
    split_params, sub_vec, tokenize, trim_bytes,
};

fn v(s: &str) -> Vec<u8> {
    s.as_bytes().to_vec()
}

#[test]
fn parse_int_plain() {
    assert_eq!(parse_int(&v("5")), Some(5));
    assert_eq!(parse_int(&v("42")), Some(42));
    assert_eq!(parse_int(&v("0")), Some(0));
}

#[test]
fn parse_int_signed() {
    assert_eq!(parse_int(&v("-3")), Some(-3));
    assert_eq!(parse_int(&v("+7")), Some(7));
}

#[test]
fn parse_int_extremes() {
    assert_eq!(parse_int(&v("9223372036854775807")), Some(i64::MAX));
    assert_eq!(parse_int(&v("-9223372036854775808")), Some(i64::MIN));
    assert_eq!(parse_int(&v("9223372036854775808")), None);
    assert_eq!(parse_int(&v("-9223372036854775809")), None);
}

#[test]
fn parse_int_rejects_non_numbers() {
    assert_eq!(parse_int(&v("")), None);
    assert_eq!(parse_int(&v("x")), None);
    assert_eq!(parse_int(&v("1x")), None);
    assert_eq!(parse_int(&v("-")), None);
    assert_eq!(parse_int(&v("5.5")), None);
}

#[test]
fn format_value_digits() {
    assert_eq!(format_value(0), v("0"));
    assert_eq!(format_value(5), v("5"));
    assert_eq!(format_value(120), v("120"));
    assert_eq!(format_value(-42), v("-42"));
    assert_eq!(format_value(i64::MIN), v("-9223372036854775808"));
    assert_eq!(format_value(i64::MAX), v("9223372036854775807"));
}

#[test]
fn tokenize_splits_on_whitespace() {
    let toks = tokenize(&v("mov 5 x"));
    assert_eq!(toks, vec![v("mov"), v("5"), v("x")]);
}

#[test]
fn tokenize_keeps_quoted_tokens_whole() {
    let toks = tokenize(&v("mak \"a b\" 3"));
    assert_eq!(toks, vec![v("mak"), v("\"a b\""), v("3")]);
}

#[test]
fn tokenize_single_quotes() {
    let toks = tokenize(&v("pt 'hi there';"));
    assert_eq!(toks, vec![v("pt"), v("'hi there'"), v(";")]);
}

#[test]
fn tokenize_empty() {
    let toks = tokenize(&v(""));
    assert!(toks.is_empty());
}

#[test]
fn remove_dquotes_strips_all() {
    assert_eq!(remove_dquotes(&v("\"abc\"")), v("abc"));
    assert_eq!(remove_dquotes(&v("a\"b\"c")), v("abc"));
    assert_eq!(remove_dquotes(&v("plain")), v("plain"));
}

#[test]
fn trim_strips_both_ends() {
    assert_eq!(trim_bytes(&v("  mov 5 x \n")), v("mov 5 x"));
    assert_eq!(trim_bytes(&v("   ")), v(""));
    assert_eq!(trim_bytes(&v("x")), v("x"));
}

#[test]
fn contains_digit_detects() {
    assert!(contains_digit(&v("a1")));
    assert!(!contains_digit(&v("abc")));
}

#[test]
fn split_params_on_spaces() {
    let ps = split_params(v("a b c"));
    assert_eq!(ps, vec![v("a"), v("b"), v("c")]);
}

#[test]
fn split_params_empty_gives_one_empty() {
    let ps = split_params(v(""));
    assert_eq!(ps, vec![v("")]);
}

#[test]
fn params_round_trip_preserves_order_and_count() {
    let ps = vec![v("alpha"), v("beta"), v("gamma")];
    let joined = join_params(&ps);
    assert_eq!(joined, v("alpha beta gamma"));
    let back = split_params(joined);
    assert_eq!(back, ps);
}

#[test]
fn params_round_trip_single() {
    let ps = vec![v("only")];
    assert_eq!(split_params(join_params(&ps)), ps);
}

#[test]
fn split_lines_splits_on_newlines() {
    let ls = split_lines(v("one\ntwo\nthree"));
    assert_eq!(ls, vec![v("one"), v("two"), v("three")]);
}

#[test]
fn bytes_eq_compares_contents() {
    assert!(bytes_eq(&v("abc"), &v("abc")));
    assert!(!bytes_eq(&v("abc"), &v("abd")));
    assert!(!bytes_eq(&v("abc"), &v("ab")));
}

#[test]
fn sub_vec_copies_range() {
    assert_eq!(sub_vec(&v("abcdef"), 1, 4), v("bcd"));
    assert_eq!(sub_vec(&v("abc"), 0, 0), v(""));
}
