use ilk::parser::ident::{is_word_ident_start, scan_ident, scan_word_ident};

#[test]
fn word_ident_with_affixes_and_underscores() {
    assert_eq!(scan_word_ident("$a_b1?x", 0), 6);
    assert_eq!(scan_word_ident("abc def", 0), 3);
    assert_eq!(scan_word_ident("a__b", 0), 1);
    assert_eq!(scan_word_ident("a_", 0), 1);
}

#[test]
fn symbol_ident_stops_before_comment() {
    assert_eq!(scan_ident(":-/*x*/", 0), Some(2));
    assert_eq!(scan_ident("=..", 0), Some(3));
    assert_eq!(scan_ident("(a)", 0), None);
    assert_eq!(scan_ident("", 0), None);
}

#[test]
fn word_start_bytes() {
    assert!(is_word_ident_start(b'a'));
    assert!(is_word_ident_start(b'#'));
    assert!(!is_word_ident_start(b'1'));
    assert!(!is_word_ident_start(b'_'));
}
