use ilk::parser::scan::{scan_number, scan_trivia, NumberToken, TermError};
use ilk::text::{byte_at, bytes_equal, substring};

#[test]
fn integers_and_their_ends() {
    assert_eq!(scan_number(b"123)", 0), Ok((NumberToken::Integer(123), 3)));
    assert_eq!(scan_number(b"x-7,", 1), Ok((NumberToken::Integer(-7), 3)));
    assert_eq!(scan_number(b"1.x", 0), Ok((NumberToken::Integer(1), 1)));
    assert_eq!(scan_number(b"2147483647", 0), Ok((NumberToken::Integer(2147483647), 10)));
}

#[test]
fn reals_are_recognised_by_fraction_or_exponent() {
    assert_eq!(scan_number(b"1.5e-3x", 0), Ok((NumberToken::Real, 6)));
    assert_eq!(scan_number(b"2E10", 0), Ok((NumberToken::Real, 4)));
    assert_eq!(scan_number(b"0.25", 0), Ok((NumberToken::Real, 4)));
}

#[test]
fn malformed_numbers() {
    assert_eq!(scan_number(b"-", 0), Err(TermError::UnexpectedCharacter));
    assert_eq!(scan_number(b"1e+", 0), Err(TermError::InvalidReal));
    assert_eq!(scan_number(b"99999999999", 0), Err(TermError::InvalidInteger));
    assert_eq!(scan_number(b"-2147483649", 0), Err(TermError::InvalidInteger));
}

#[test]
fn trivia_is_whitespace_and_comments() {
    assert_eq!(scan_trivia(b"  /* c */ x", 0), Ok(10));
    assert_eq!(scan_trivia(b"x", 0), Ok(0));
    assert_eq!(scan_trivia(b"/**/", 0), Ok(4));
    assert_eq!(scan_trivia(b" /* c", 0), Err((TermError::UnterminatedComment, 1)));
}

#[test]
fn text_helpers() {
    assert_eq!(substring("héllo", 0, 3), "hé");
    assert_eq!(substring("héllo", 3, 6), "llo");
    assert!(bytes_equal(b"abc", b"abc"));
    assert!(!bytes_equal(b"abc", b"abd"));
    assert!(!bytes_equal(b"ab", b"abc"));
    assert_eq!(byte_at(b"ab", 1), Some(b'b'));
    assert_eq!(byte_at(b"ab", 2), None);
}

#[test]
fn a_number_past_the_end_is_refused() {
    assert_eq!(scan_number(b"12", 5), Err(TermError::UnexpectedCharacter));
}
