use noisepass::charset::CharsetError;
use noisepass::params::{parse_usize, Params, ParamsError};

fn strvec(args: &[&str]) -> Vec<String> {
    let mut v = Vec::new();
    for a in args {
        v.push(a.to_string());
    }
    v
}

#[test]
fn defaults_without_flags() {
    match Params::new(strvec(&["prog"])) {
        Ok(p) => {
            assert_eq!(p.pwd_len, 24);
            assert_eq!(p.num_pwds, 1);
            let expected: Vec<u8> = (32u8..=126).collect();
            assert_eq!(p.charset, expected);
        },
        Err(_) => panic!("defaults were rejected"),
    }
}

#[test]
fn flags_set_values() {
    match Params::new(strvec(&["prog", "-c", "abc", "-l", "10", "-n", "3"])) {
        Ok(p) => {
            assert_eq!(p.charset, vec![97u8, 98, 99]);
            assert_eq!(p.pwd_len, 10);
            assert_eq!(p.num_pwds, 3);
        },
        Err(_) => panic!("valid flags were rejected"),
    }
}

#[test]
fn later_flag_wins() {
    match Params::new(strvec(&["prog", "-l", "5", "-l", "6"])) {
        Ok(p) => assert_eq!(p.pwd_len, 6),
        Err(_) => panic!("repeated flag was rejected"),
    }
}

#[test]
fn zero_password_length_is_rejected() {
    match Params::new(strvec(&["prog", "-l", "0"])) {
        Err(e) => assert_eq!(e, ParamsError::ZeroPasswordLength),
        Ok(_) => panic!("zero password length was accepted"),
    }
}

#[test]
fn zero_password_count_is_rejected() {
    match Params::new(strvec(&["prog", "-n", "0"])) {
        Err(e) => assert_eq!(e, ParamsError::ZeroPasswordCount),
        Ok(_) => panic!("zero password count was accepted"),
    }
}

#[test]
fn unknown_flag_is_usage_error() {
    match Params::new(strvec(&["prog", "-x", "1"])) {
        Err(e) => assert_eq!(e, ParamsError::Usage),
        Ok(_) => panic!("unknown flag was accepted"),
    }
}

#[test]
fn flag_without_value_is_usage_error() {
    match Params::new(strvec(&["prog", "-l"])) {
        Err(e) => assert_eq!(e, ParamsError::Usage),
        Ok(_) => panic!("flag without value was accepted"),
    }
}

#[test]
fn bad_number_is_rejected() {
    match Params::new(strvec(&["prog", "-l", "abc"])) {
        Err(e) => assert_eq!(e, ParamsError::InvalidNumber),
        Ok(_) => panic!("non-numeric length was accepted"),
    }
}

#[test]
fn charset_error_is_propagated() {
    match Params::new(strvec(&["prog", "-c", ""])) {
        Err(e) => assert_eq!(e, ParamsError::Charset(CharsetError::EmptySpecification)),
        Ok(_) => panic!("empty charset specification was accepted"),
    }
    match Params::new(strvec(&["prog", "-c", "-a"])) {
        Err(e) => assert_eq!(e, ParamsError::Charset(CharsetError::UnescapedHyphen)),
        Ok(_) => panic!("bad charset specification was accepted"),
    }
}

#[test]
fn parse_usize_accepts_decimal() {
    assert_eq!(parse_usize("42"), Some(42));
    assert_eq!(parse_usize("+42"), Some(42));
    assert_eq!(parse_usize("0"), Some(0));
    assert_eq!(parse_usize("007"), Some(7));
}

#[test]
fn parse_usize_rejects_bad_input() {
    assert_eq!(parse_usize(""), None);
    assert_eq!(parse_usize("+"), None);
    assert_eq!(parse_usize("4x2"), None);
    assert_eq!(parse_usize("-1"), None);
    assert_eq!(parse_usize(" 5"), None);
    assert_eq!(parse_usize("99999999999999999999999999"), None);
}
