use onnx_explorer::chars::{contains_text, join, split, string_of};
use onnx_explorer::text::{decimal_text, elide, format_count, parse_decimal, signed_text};

#[test]
fn test_format_count() {
    assert_eq!(format_count(0), "0");
    assert_eq!(format_count(999), "999");
    assert_eq!(format_count(1_500), "1.5K");
    assert_eq!(format_count(2_500_000), "2.5M");
    assert_eq!(format_count(7_000_000_000), "7.00G");
}

#[test]
fn test_elide() {
    assert_eq!(elide("abc", 5), "abc");
    assert_eq!(elide("abcdef", 4), "abc…");
    assert_eq!(elide("abc", 0), "");
    // Character, not byte, boundaries.
    assert_eq!(elide("αβγδε", 3), "αβ…");
}

/// The count as the floating point formatting of the standard library gives it.
fn float_count(count: u64) -> String {
    let value = count as f64;
    if count < 1_000 {
        count.to_string()
    } else if count < 1_000_000 {
        format!("{:.1}K", value / 1e3)
    } else if count < 1_000_000_000 {
        format!("{:.1}M", value / 1e6)
    } else {
        format!("{:.2}G", value / 1e9)
    }
}

#[test]
fn counts_agree_with_float_formatting() {
    let mut count: u64 = 1;
    for step in 0..4000u64 {
        assert_eq!(format_count(count), float_count(count), "at {}", count);
        count = count.wrapping_mul(31).wrapping_add(step) % 5_000_000_000_000;
    }
    for count in [1_000, 1_049, 1_051, 999_949, 999_951, 999_999, 1_000_000, 999_999_999] {
        assert_eq!(format_count(count), float_count(count), "at {}", count);
    }
}

#[test]
fn counts_round_a_tie_to_even() {
    assert_eq!(format_count(1_250), "1.2K");
    assert_eq!(format_count(1_750), "1.8K");
    assert_eq!(format_count(2_250_000), "2.2M");
}

#[test]
fn elided_text_fits() {
    for max in 0..8 {
        assert!(elide("abcdef", max).chars().count() <= max);
    }
    assert_eq!(elide("abcdef", 6), "abcdef");
    assert_eq!(elide("abcdef", 1), "…");
}

#[test]
fn numbers_are_written_in_decimal() {
    assert_eq!(decimal_text(0), "0");
    assert_eq!(decimal_text(u64::MAX), "18446744073709551615");
    assert_eq!(signed_text(-40), "-40");
    assert_eq!(signed_text(i64::MIN), "-9223372036854775808");
    assert_eq!(signed_text(i64::MAX), "9223372036854775807");
}

#[test]
fn numbers_are_parsed_as_the_standard_library_does() {
    for text in [
        "0", "7", "007", "+12", "", "+", "-1", "1x", " 1", "18446744073709551615",
        "18446744073709551616", "99999999999999999999999", "++1", "٣",
    ] {
        assert_eq!(parse_decimal(text), text.parse::<u64>().ok(), "{:?}", text);
    }
}

#[test]
fn pieces_and_parts() {
    let text: Vec<char> = "/a//b".chars().collect();
    let pieces: Vec<String> = split(&text, '/').iter().map(string_of).collect();
    assert_eq!(pieces, ["", "a", "", "b"]);
    assert_eq!(join(&pieces, "/"), "/a//b");
    assert_eq!(join(&Vec::new(), ", "), "");
    assert!(contains_text("matmul", "tm"));
    assert!(!contains_text("matmul", "mt"));
    assert!(contains_text("", ""));
    assert!(!contains_text("a", "ab"));
}
