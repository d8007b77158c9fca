use fibonacci_seq::count::{parse_count, CountError};

#[test]
fn plain_count() {
    assert_eq!(parse_count("42"), Ok(42));
    assert_eq!(parse_count("0"), Ok(0));
}

#[test]
fn count_with_line_end_and_spaces() {
    assert_eq!(parse_count("10\n"), Ok(10));
    assert_eq!(parse_count("  7 \r\n"), Ok(7));
    assert_eq!(parse_count("\t3\t"), Ok(3));
}

#[test]
fn unicode_white_space_is_trimmed() {
    assert_eq!(parse_count("\u{a0}12\u{3000}"), Ok(12));
}

#[test]
fn leading_plus_and_zeros() {
    assert_eq!(parse_count("+5"), Ok(5));
    assert_eq!(parse_count("007"), Ok(7));
}

#[test]
fn largest_count() {
    assert_eq!(parse_count("4294967295"), Ok(u32::MAX));
}

#[test]
fn count_out_of_range() {
    assert_eq!(parse_count("4294967296"), Err(CountError));
    assert_eq!(parse_count("99999999999999999999999"), Err(CountError));
}

#[test]
fn malformed_counts() {
    for text in ["abc", "-5", "", "\n", "   ", "+", "++5", "-0", "1 2", "12a", "3.0", "0x10"] {
        assert_eq!(parse_count(text), Err(CountError), "{:?}", text);
    }
}

#[test]
fn error_message_text() {
    assert_eq!(CountError.message(), "Error: Please enter a valid positive number");
    let err = parse_count("abc").unwrap_err();
    assert_eq!(err.message(), "Error: Please enter a valid positive number");
}
