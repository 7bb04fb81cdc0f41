use seqhist::filter::FilterRange;
use seqhist::range_text::{is_space, parse_length, parse_range};

fn chars(text: &str) -> Vec<char> {
    text.chars().collect()
}

fn range(text: &str) -> Option<(usize, usize)> {
    parse_range(&chars(text)).map(|r| (r.min, r.max))
}

#[test]
fn two_numbers_and_a_hyphen_are_a_range() {
    assert_eq!(parse_range(&chars("100-500")), Some(FilterRange::new(100, 500)));
    assert_eq!(range("0-0"), Some((0, 0)));
    assert_eq!(range("007-0010"), Some((7, 10)));
    assert_eq!(range("500-100"), Some((500, 100)));
}

#[test]
fn white_space_around_the_text_is_dropped() {
    assert_eq!(range("  100-500 "), Some((100, 500)));
    assert_eq!(range("\t1-2\n"), Some((1, 2)));
    assert_eq!(range("\u{a0}1-2\u{3000}"), Some((1, 2)));
}

#[test]
fn white_space_inside_the_text_is_not() {
    assert_eq!(range("100 -500"), None);
    assert_eq!(range("100- 500"), None);
    assert_eq!(range("1 00-500"), None);
}

#[test]
fn a_plus_sign_may_lead_a_number() {
    assert_eq!(range("+1-+2"), Some((1, 2)));
    assert_eq!(range("++1-2"), None);
    assert_eq!(range("+-2"), None);
    assert_eq!(range("1+-2"), None);
}

#[test]
fn text_that_is_no_range_is_refused() {
    for text in [
        "", " ", "abc", "100", "-", "100-", "-500", "1-2-3", "--", "1--2", "a-b", "1.5-2", "1-2a",
        "0x10-20", "١-٢", "1\u{2013}2",
    ] {
        assert_eq!(range(text), None, "{:?}", text);
    }
}

#[test]
fn numbers_that_do_not_fit_are_refused() {
    let max = usize::MAX.to_string();
    assert_eq!(range(&format!("0-{}", max)), Some((0, usize::MAX)));
    assert_eq!(range(&format!("{}-{}", max, max)), Some((usize::MAX, usize::MAX)));
    let beyond = (usize::MAX as u128 + 1).to_string();
    assert_eq!(range(&format!("0-{}", beyond)), None);
    assert_eq!(range(&format!("{}-0", beyond)), None);
    assert_eq!(range(&format!("0-{}0", max)), None);
    assert_eq!(range("0-99999999999999999999999999999999999999999999"), None);
    assert_eq!(range("0-9999999999999999999999999999999999999999999x"), None);
}

#[test]
fn range_agrees_with_the_standard_parser() {
    let texts = [
        "100-500", " 3-4", "3-4 ", "+3-4", "3-+4", "3--4", "-3-4", "3-4-", "3", "", "a-1", "1-a",
        "00-00", "1-18446744073709551615", "1-18446744073709551616", "4294967296-1", " - ",
        "1 - 2", "+-+", "+0-+0",
    ];
    for text in texts {
        let parts: Vec<&str> = text.trim().split('-').collect();
        let expected = if parts.len() == 2 {
            match (parts[0].parse::<usize>(), parts[1].parse::<usize>()) {
                (Ok(min), Ok(max)) => Some((min, max)),
                _ => None,
            }
        } else {
            None
        };
        assert_eq!(range(text), expected, "{:?}", text);
    }
}

#[test]
fn length_is_read_from_a_part_of_the_text() {
    let text = chars("ab123cd");
    assert_eq!(parse_length(&text, 2, 5), Some(123));
    assert_eq!(parse_length(&text, 2, 4), Some(12));
    assert_eq!(parse_length(&text, 2, 2), None);
    assert_eq!(parse_length(&text, 1, 5), None);
    assert_eq!(parse_length(&text, 2, 6), None);
    assert_eq!(parse_length(&chars("+"), 0, 1), None);
    assert_eq!(parse_length(&chars("+7"), 0, 2), Some(7));
}

#[test]
fn length_agrees_with_the_standard_parser() {
    let tokens = [
        "0", "1", "42", "007", "+5", "+", "", "-5", "5-", "5 ", " 5", "٣", "1e3", "1_000",
        "18446744073709551615", "18446744073709551616", "99999999999999999999",
        "4294967295", "4294967296", "+18446744073709551615", "000000000000000000000000001",
    ];
    for token in tokens {
        let text = chars(token);
        assert_eq!(parse_length(&text, 0, text.len()), token.parse::<usize>().ok(), "{:?}", token);
    }
}

#[test]
fn white_space_is_what_the_standard_library_takes_for_it() {
    for code in 0..=0x10FFFFu32 {
        if let Some(c) = char::from_u32(code) {
            assert_eq!(is_space(c), c.is_whitespace(), "U+{:04X}", code);
        }
    }
}
