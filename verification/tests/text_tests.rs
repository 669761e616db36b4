use patcher::text::{chars_of, parse_decimal, render_decimal, string_of, trim};

fn chars(s: &str) -> Vec<char> {
    s.chars().collect()
}

#[test]
fn rendering_is_canonical_decimal() {
    assert_eq!(string_of(&render_decimal(0)), "0");
    assert_eq!(string_of(&render_decimal(7)), "7");
    assert_eq!(string_of(&render_decimal(10)), "10");
    assert_eq!(string_of(&render_decimal(90125)), "90125");
    assert_eq!(string_of(&render_decimal(u64::MAX)), "18446744073709551615");
}

#[test]
fn parsing_reads_decimal_digit_strings() {
    assert_eq!(parse_decimal(&chars("0")), Some(0));
    assert_eq!(parse_decimal(&chars("42")), Some(42));
    assert_eq!(parse_decimal(&chars("007")), Some(7));
    assert_eq!(parse_decimal(&chars("18446744073709551615")), Some(u64::MAX));
    assert_eq!(parse_decimal(&chars("18446744073709551616")), None);
}

#[test]
fn string_round_trips_through_characters() {
    let v = chars_of("mixer:out left");
    assert_eq!(v, chars("mixer:out left"));
    assert_eq!(string_of(&v), "mixer:out left");
}

#[test]
fn trimming_strips_edges_only() {
    assert_eq!(string_of(&trim(&chars("  a b\t"))), "a b");
    assert_eq!(string_of(&trim(&chars("\r\n x \r\n"))), "x");
    assert_eq!(string_of(&trim(&chars(""))), "");
    assert_eq!(string_of(&trim(&chars("   "))), "");
}
