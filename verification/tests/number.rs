use node_boxes::{parse_coordinate, NumberError};

#[test]
fn reads_plain_digits() {
    assert_eq!(parse_coordinate("0"), Ok(0));
    assert_eq!(parse_coordinate("12"), Ok(12));
    assert_eq!(parse_coordinate("1663154348643"), Ok(1663154348643));
}

#[test]
fn reads_a_leading_sign() {
    assert_eq!(parse_coordinate("-7"), Ok(-7));
    assert_eq!(parse_coordinate("+3"), Ok(3));
    assert_eq!(parse_coordinate("-0"), Ok(0));
}

#[test]
fn reads_leading_zeros() {
    assert_eq!(parse_coordinate("007"), Ok(7));
    assert_eq!(parse_coordinate("-00000000000000000000000000012"), Ok(-12));
}

#[test]
fn reads_the_ends_of_the_range() {
    assert_eq!(parse_coordinate("9223372036854775807"), Ok(i64::MAX));
    assert_eq!(parse_coordinate("-9223372036854775808"), Ok(i64::MIN));
    assert_eq!(parse_coordinate("-9223372036854775807"), Ok(i64::MIN + 1));
}

#[test]
fn rejects_what_lies_beyond_the_range() {
    assert_eq!(parse_coordinate("9223372036854775808"), Err(NumberError::OutOfRange));
    assert_eq!(parse_coordinate("+9223372036854775808"), Err(NumberError::OutOfRange));
    assert_eq!(parse_coordinate("-9223372036854775809"), Err(NumberError::OutOfRange));
    assert_eq!(
        parse_coordinate("100000000000000000000000000000000000000000000000000"),
        Err(NumberError::OutOfRange)
    );
}

#[test]
fn rejects_text_without_digits() {
    assert_eq!(parse_coordinate(""), Err(NumberError::Malformed));
    assert_eq!(parse_coordinate("-"), Err(NumberError::Malformed));
    assert_eq!(parse_coordinate("+"), Err(NumberError::Malformed));
    assert_eq!(parse_coordinate("abc"), Err(NumberError::Malformed));
}

#[test]
fn rejects_anything_beside_the_digits() {
    assert_eq!(parse_coordinate(" 5"), Err(NumberError::Malformed));
    assert_eq!(parse_coordinate("5 "), Err(NumberError::Malformed));
    assert_eq!(parse_coordinate("1.5"), Err(NumberError::Malformed));
    assert_eq!(parse_coordinate("1e3"), Err(NumberError::Malformed));
    assert_eq!(parse_coordinate("--5"), Err(NumberError::Malformed));
    assert_eq!(parse_coordinate("5-"), Err(NumberError::Malformed));
    assert_eq!(parse_coordinate("1_000"), Err(NumberError::Malformed));
    assert_eq!(parse_coordinate("12px"), Err(NumberError::Malformed));
}

#[test]
fn a_wrong_character_counts_before_the_size() {
    assert_eq!(
        parse_coordinate("99999999999999999999999999999x"),
        Err(NumberError::Malformed)
    );
}

#[test]
fn rejects_digits_outside_ascii() {
    assert_eq!(parse_coordinate("١٢"), Err(NumberError::Malformed));
    assert_eq!(parse_coordinate("12é"), Err(NumberError::Malformed));
}
