use procenv::classify::EnvVal;
use procenv::envrec::{classify_read, env_value};

#[test]
fn prefix_alone_does_not_match() {
    // FOOBAR=1 must not satisfy a search for FOO
    let rec = b"FOOBAR=1\0".to_vec();
    assert_eq!(env_value(&rec, b"FOO"), None);
    assert_eq!(classify_read(Some(rec), b"FOO"), EnvVal::Nothing);
}

#[test]
fn exact_key_wins_over_longer_key() {
    let rec = b"FOO=1\0FOOX=2\0".to_vec();
    assert_eq!(env_value(&rec, b"FOO"), Some("1".to_string()));
    assert_eq!(classify_read(Some(rec), b"FOO"), EnvVal::Value("1".to_string()));
}

#[test]
fn key_found_later_in_record() {
    let rec = b"A=1\0B=2\0FOO=three\0".to_vec();
    assert_eq!(env_value(&rec, b"FOO"), Some("three".to_string()));
}

#[test]
fn value_is_rest_after_first_equals() {
    let rec = b"FOO=a=b\0".to_vec();
    assert_eq!(env_value(&rec, b"FOO"), Some("a=b".to_string()));
}

#[test]
fn empty_value_is_found() {
    let rec = b"FOO=\0BAR=1\0".to_vec();
    assert_eq!(env_value(&rec, b"FOO"), Some(String::new()));
    assert_eq!(classify_read(Some(rec), b"FOO"), EnvVal::Value(String::new()));
}

#[test]
fn missing_key_is_nothing() {
    let rec = b"PATH=/bin\0HOME=/root\0".to_vec();
    assert_eq!(env_value(&rec, b"TERM"), None);
    assert_eq!(classify_read(Some(rec), b"TERM"), EnvVal::Nothing);
}

#[test]
fn unreadable_record_is_fail() {
    assert_eq!(classify_read(None, b"PATH"), EnvVal::Fail);
}

#[test]
fn empty_record_is_nothing() {
    assert_eq!(classify_read(Some(Vec::new()), b"PATH"), EnvVal::Nothing);
}

#[test]
fn record_without_trailing_nul() {
    let rec = b"FOO=1".to_vec();
    assert_eq!(env_value(&rec, b"FOO"), Some("1".to_string()));
}

#[test]
fn entry_must_start_a_segment() {
    // XFOO=1 holds FOO= in its middle, which is no entry start
    let rec = b"XFOO=1\0".to_vec();
    assert_eq!(env_value(&rec, b"FOO"), None);
}

#[test]
fn binary_garbage_is_tolerated() {
    let rec = vec![0xff, 0xfe, 0, 0, 0x80, b'=', 0, b'F', b'O', b'O', b'=', b'o', b'k', 0];
    assert_eq!(env_value(&rec, b"FOO"), Some("ok".to_string()));
}

#[test]
fn invalid_utf8_value_is_replaced_not_dropped() {
    // the decoding really transforms the bytes: 0xFF becomes U+FFFD
    let rec = b"K=\xFF\0".to_vec();
    assert_eq!(env_value(&rec, b"K"), Some("\u{FFFD}".to_string()));
}
