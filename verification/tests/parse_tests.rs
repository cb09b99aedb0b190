use battle_marine::parse::{parse_input, ParseError};

#[test]
fn parse_a1_is_origin() {
    assert_eq!(parse_input("A1"), Ok((0, 0)));
}

#[test]
fn parse_j10_is_far_corner() {
    assert_eq!(parse_input("J10"), Ok((9, 9)));
}

#[test]
fn parse_lowercase_a5() {
    assert_eq!(parse_input("a5"), Ok((0, 4)));
}

#[test]
fn parse_lowercase_j10() {
    assert_eq!(parse_input("j10"), Ok((9, 9)));
}

#[test]
fn parse_k5_letter_out_of_range() {
    assert_eq!(parse_input("K5"), Err(ParseError::LetterOutOfRange));
}

#[test]
fn parse_a11_number_out_of_range() {
    assert_eq!(parse_input("A11"), Err(ParseError::NumberOutOfRange));
}

#[test]
fn parse_a0_number_out_of_range() {
    assert_eq!(parse_input("A0"), Err(ParseError::NumberOutOfRange));
}

#[test]
fn parse_bare_digit_too_short() {
    assert_eq!(parse_input("5"), Err(ParseError::TooShort));
}

#[test]
fn parse_empty_too_short() {
    assert_eq!(parse_input(""), Err(ParseError::TooShort));
}

#[test]
fn parse_letter_only_too_short() {
    assert_eq!(parse_input("B"), Err(ParseError::TooShort));
}

#[test]
fn parse_non_numeric_tail() {
    assert_eq!(parse_input("AX"), Err(ParseError::BadNumber));
}

#[test]
fn parse_inner_space_rejected() {
    assert_eq!(parse_input("A 5"), Err(ParseError::BadNumber));
}

#[test]
fn parse_plus_sign_accepted_like_integer_parsing() {
    assert_eq!(parse_input("A+5"), Ok((0, 4)));
}

#[test]
fn parse_lone_plus_rejected() {
    assert_eq!(parse_input("A+"), Err(ParseError::BadNumber));
}

#[test]
fn parse_huge_number_rejected_as_bad_number() {
    assert_eq!(
        parse_input("A99999999999999999999999999"),
        Err(ParseError::BadNumber)
    );
}

#[test]
fn parse_large_but_parseable_number_out_of_range() {
    assert_eq!(parse_input("A999"), Err(ParseError::NumberOutOfRange));
}

#[test]
fn parse_non_ascii_letter_out_of_range() {
    assert_eq!(parse_input("д5"), Err(ParseError::LetterOutOfRange));
}
