use patcher::pattern::{parse_config, parse_line, parse_range, parse_range_elt, ParseError};
use patcher::pattern::{is_letter, is_number};

fn pairs_of(line: &str) -> Vec<(String, String)> {
    parse_line(line)
        .expect("line should parse")
        .into_iter()
        .map(|c| (c.out, c.inp))
        .collect()
}

#[test]
fn numeric_range_line_expands_pairwise() {
    let pairs = pairs_of("out[1-2]chan > in[1-2]chan");
    assert_eq!(
        pairs,
        vec![
            ("out1chan".to_string(), "in1chan".to_string()),
            ("out2chan".to_string(), "in2chan".to_string()),
        ]
    );
}

#[test]
fn alphabetic_range_line_expands_pairwise() {
    let pairs = pairs_of("out[a-c]X > in[a-c]X");
    assert_eq!(
        pairs,
        vec![
            ("outaX".to_string(), "inaX".to_string()),
            ("outbX".to_string(), "inbX".to_string()),
            ("outcX".to_string(), "incX".to_string()),
        ]
    );
}

#[test]
fn comma_outside_brackets_is_a_parse_error() {
    assert_eq!(
        parse_line("outA > inA, inB"),
        Err(ParseError::CommaOutsideBrackets)
    );
}

#[test]
fn numeric_range_is_ascending_with_exact_count() {
    let names = parse_range("x[8-11]y").expect("range should parse");
    assert_eq!(names, vec!["x8y", "x9y", "x10y", "x11y"]);
}

#[test]
fn numeric_range_drops_leading_zeros() {
    let names = parse_range("c[08-10]").expect("range should parse");
    assert_eq!(names, vec!["c8", "c9", "c10"]);
}

#[test]
fn numeric_range_with_equal_bounds_is_one_name() {
    let names = parse_range_elt("5-5", "p", "q").expect("element should parse");
    assert_eq!(names, vec!["p5q"]);
}

#[test]
fn alphabetic_range_walks_code_points() {
    let names = parse_range_elt("a-c", "L", "R").expect("element should parse");
    assert_eq!(names, vec!["LaR", "LbR", "LcR"]);
}

#[test]
fn uppercase_alphabetic_range_is_accepted() {
    let names = parse_range_elt("X-Z", "", "").expect("element should parse");
    assert_eq!(names, vec!["X", "Y", "Z"]);
}

#[test]
fn literal_pattern_expands_to_itself() {
    let names = parse_range("system:capture_1").expect("literal should parse");
    assert_eq!(names, vec!["system:capture_1"]);
}

#[test]
fn literal_element_in_range_list_is_kept() {
    let names = parse_range("mix[left, right, 1-2]out").expect("range should parse");
    assert_eq!(names, vec!["mixleftout", "mixrightout", "mix1out", "mix2out"]);
}

#[test]
fn missing_separator_is_malformed() {
    assert_eq!(parse_line("no separator here"), Err(ParseError::MalformedConnection));
    assert_eq!(parse_line(""), Err(ParseError::MalformedConnection));
}

#[test]
fn unclosed_bracket_is_unbalanced_brackets() {
    assert_eq!(parse_range("a[1-2"), Err(ParseError::UnbalancedBrackets));
    assert_eq!(parse_line("a[1-2 > b"), Err(ParseError::UnbalancedBrackets));
}

#[test]
fn mixed_or_empty_bounds_are_bad_ranges() {
    assert_eq!(parse_range_elt("1-a", "", ""), Err(ParseError::BadRange));
    assert_eq!(parse_range_elt("a-1", "", ""), Err(ParseError::BadRange));
    assert_eq!(parse_range_elt("-", "", ""), Err(ParseError::BadRange));
    assert_eq!(parse_range_elt("5-", "", ""), Err(ParseError::BadRange));
    assert_eq!(parse_range_elt("-7", "", ""), Err(ParseError::BadRange));
    assert_eq!(parse_range_elt("ab-cd", "", ""), Err(ParseError::BadRange));
}

#[test]
fn numeric_bound_beyond_machine_range_is_bad_range() {
    assert_eq!(
        parse_range("x[99999999999999999999-3]"),
        Err(ParseError::BadRange)
    );
}

#[test]
fn reversed_numeric_range_is_empty_and_unbalances_a_line() {
    let names = parse_range("x[5-3]").expect("range should parse");
    assert_eq!(names, Vec::<String>::new());
    assert_eq!(parse_line("x[5-3] > y"), Err(ParseError::UnbalancedConnection));
}

#[test]
fn unbalanced_line_yields_one_error_and_no_pairs() {
    let (conns, errs) = parse_config("out[1-2]a > in[1-3]a\nx > y");
    let pairs: Vec<(String, String)> = conns.into_iter().map(|c| (c.out, c.inp)).collect();
    assert_eq!(pairs, vec![("x".to_string(), "y".to_string())]);
    assert_eq!(errs.len(), 1);
    assert_eq!(errs[0].line, "out[1-2]a > in[1-3]a");
    assert_eq!(errs[0].error, ParseError::UnbalancedConnection);
}

#[test]
fn configuration_keeps_line_order_and_reports_blank_lines() {
    let text = "a > b\n\nc[1-2] > d[1-2]\n";
    let (conns, errs) = parse_config(text);
    let pairs: Vec<(String, String)> = conns.into_iter().map(|c| (c.out, c.inp)).collect();
    assert_eq!(
        pairs,
        vec![
            ("a".to_string(), "b".to_string()),
            ("c1".to_string(), "d1".to_string()),
            ("c2".to_string(), "d2".to_string()),
        ]
    );
    assert_eq!(errs.len(), 1);
    assert_eq!(errs[0].line, "");
    assert_eq!(errs[0].error, ParseError::MalformedConnection);
}

#[test]
fn carriage_returns_are_stripped_before_parsing() {
    let (conns, errs) = parse_config("a > b\r\nc > d\r\n");
    let pairs: Vec<(String, String)> = conns.into_iter().map(|c| (c.out, c.inp)).collect();
    assert_eq!(
        pairs,
        vec![
            ("a".to_string(), "b".to_string()),
            ("c".to_string(), "d".to_string()),
        ]
    );
    assert!(errs.is_empty());
}

#[test]
fn whitespace_around_separator_and_elements_is_trimmed() {
    let pairs = pairs_of("  out[ 1-2 ]A   >   in[ 1-2 ]A  ");
    assert_eq!(
        pairs,
        vec![
            ("out1A".to_string(), "in1A".to_string()),
            ("out2A".to_string(), "in2A".to_string()),
        ]
    );
}

#[test]
fn error_messages_match_their_variants() {
    assert_eq!(ParseError::MalformedConnection.message(), "Malformed connection");
    assert_eq!(ParseError::UnbalancedBrackets.message(), "Unbalanced brackets");
    assert_eq!(
        ParseError::BadRange.message(),
        "Incorrect range, must be two numbers or two letters"
    );
    assert_eq!(ParseError::CommaOutsideBrackets.message(), "Comma outside brackets");
    assert_eq!(ParseError::UnbalancedConnection.message(), "Unbalanced connection");
}

#[test]
fn letter_and_number_classifiers() {
    assert!(is_letter("a"));
    assert!(is_letter("Z"));
    assert!(!is_letter("ab"));
    assert!(!is_letter("1"));
    assert!(!is_letter(""));
    assert!(is_number("0123456789"));
    assert!(is_number(""));
    assert!(!is_number("12a"));
}
