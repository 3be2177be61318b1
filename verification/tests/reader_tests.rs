use subset_sum::reader::extract_tokens;
use subset_sum::reader::first_token;

fn chars(s: &str) -> Vec<char> {
    s.chars().collect()
}

fn tokens(lines: &[&str]) -> Vec<String> {
    let listing: Vec<Vec<char>> = lines.iter().map(|s| chars(s)).collect();
    extract_tokens(&listing).into_iter().map(|t| t.into_iter().collect()).collect()
}

#[test]
fn reader_leniency() {
    // header dropped, malformed line contributes nothing, no failure
    let toks = tokens(&["value", "10 apples", "abc", "5"]);
    assert_eq!(toks, vec!["10".to_string(), "abc".to_string(), "5".to_string()]);
    let nums: Vec<f64> = toks.iter().filter_map(|t| t.parse().ok()).collect();
    assert_eq!(nums, vec![10.0, 5.0]);
}

#[test]
fn header_dropped_even_when_numeric() {
    assert_eq!(tokens(&["1", "2"]), vec!["2".to_string()]);
}

#[test]
fn blank_lines_contribute_nothing() {
    assert_eq!(tokens(&["value", "", "  \t ", "7 rest"]), vec!["7".to_string()]);
}

#[test]
fn empty_listing_gives_no_tokens() {
    assert_eq!(tokens(&[]), Vec::<String>::new());
    assert_eq!(tokens(&["only a header"]), Vec::<String>::new());
}

#[test]
fn first_token_takes_leading_run() {
    assert_eq!(first_token(&chars("  10 apples")), Some(chars("10")));
    assert_eq!(first_token(&chars("abc")), Some(chars("abc")));
    assert_eq!(first_token(&chars("\t-2.5\tx")), Some(chars("-2.5")));
}

#[test]
fn first_token_splits_on_unicode_whitespace() {
    assert_eq!(first_token(&chars("10\u{a0}apples")), Some(chars("10")));
    assert_eq!(first_token(&chars("\u{2009}7")), Some(chars("7")));
}

#[test]
fn first_token_absent_on_blank_lines() {
    assert_eq!(first_token(&chars("")), None);
    assert_eq!(first_token(&chars("   \t  ")), None);
}
