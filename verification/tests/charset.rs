use noisepass::charset::{default_charset, parse_charset_spec, CharsetError};

#[test]
fn literal_set() {
    assert_eq!(parse_charset_spec("abc"), Ok(vec![97u8, 98, 99]));
}

#[test]
fn range_is_inclusive() {
    assert_eq!(parse_charset_spec("a-e"), Ok(vec![97u8, 98, 99, 100, 101]));
}

#[test]
fn complement_of_space() {
    let expected: Vec<u8> = (33u8..=126).collect();
    assert_eq!(parse_charset_spec("^ "), Ok(expected));
}

#[test]
fn empty_specification_is_rejected() {
    assert_eq!(parse_charset_spec(""), Err(CharsetError::EmptySpecification));
}

#[test]
fn bare_leading_hyphen_is_rejected() {
    assert_eq!(parse_charset_spec("-a"), Err(CharsetError::UnescapedHyphen));
}

#[test]
fn unterminated_range_is_rejected() {
    assert_eq!(parse_charset_spec("a-"), Err(CharsetError::UnterminatedRange));
}

#[test]
fn untypeable_byte_is_rejected() {
    assert_eq!(
        parse_charset_spec("a\u{1}b"),
        Err(CharsetError::UntypeableCharacter)
    );
}

#[test]
fn non_ascii_is_rejected() {
    assert_eq!(
        parse_charset_spec("caf\u{e9}"),
        Err(CharsetError::UntypeableCharacter)
    );
}

#[test]
fn escapes_insert_hyphen_and_backslash() {
    assert_eq!(parse_charset_spec("\\-\\\\"), Ok(vec![45u8, 92]));
}

#[test]
fn escaped_range_end() {
    assert_eq!(parse_charset_spec("0-\\-"), Ok(vec![48u8]));
    assert_eq!(
        parse_charset_spec("Z-\\\\"),
        Ok(vec![90u8, 91, 92])
    );
}

#[test]
fn unterminated_escape_is_rejected() {
    assert_eq!(parse_charset_spec("a\\"), Err(CharsetError::UnterminatedEscape));
    assert_eq!(parse_charset_spec("a-\\"), Err(CharsetError::UnterminatedEscape));
}

#[test]
fn invalid_escape_is_rejected() {
    assert_eq!(parse_charset_spec("\\x"), Err(CharsetError::InvalidEscape));
    assert_eq!(parse_charset_spec("a-\\x"), Err(CharsetError::InvalidEscape));
}

#[test]
fn empty_resolved_set_is_rejected() {
    assert_eq!(parse_charset_spec("^ -~"), Err(CharsetError::EmptyCharacterSet));
}

#[test]
fn caret_alone_gives_whole_universe() {
    let expected: Vec<u8> = (32u8..=126).collect();
    assert_eq!(parse_charset_spec("^"), Ok(expected));
}

#[test]
fn default_charset_is_typeable_universe() {
    let expected: Vec<u8> = (32u8..=126).collect();
    assert_eq!(default_charset(), expected);
    assert_eq!(default_charset().len(), 95);
}

#[test]
fn backwards_range_adds_nothing() {
    assert_eq!(parse_charset_spec("e-a"), Ok(vec![101u8]));
}
