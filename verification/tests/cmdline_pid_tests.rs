use procenv::cmdline::chop_null;
use procenv::pid::parse_pid;

#[test]
fn cmdline_renders_args_with_spaces() {
    assert_eq!(chop_null("ls\0-la\0".to_string()), "ls -la");
}

#[test]
fn only_one_trailing_nul_is_stripped() {
    assert_eq!(chop_null("ls\0-la\0\0".to_string()), "ls -la ");
}

#[test]
fn no_trailing_nul_to_strip() {
    assert_eq!(chop_null("ls\0-la".to_string()), "ls -la");
}

#[test]
fn empty_cmdline_stays_empty() {
    assert_eq!(chop_null(String::new()), "");
}

#[test]
fn lone_nul_becomes_empty() {
    assert_eq!(chop_null("\0".to_string()), "");
}

#[test]
fn parse_pid_accepts_digits() {
    assert_eq!(parse_pid(b"1"), Some(1));
    assert_eq!(parse_pid(b"123"), Some(123));
    assert_eq!(parse_pid(b"007"), Some(7));
}

#[test]
fn parse_pid_rejects_non_digits() {
    assert_eq!(parse_pid(b""), None);
    assert_eq!(parse_pid(b"self"), None);
    assert_eq!(parse_pid(b"12a"), None);
    assert_eq!(parse_pid(b"-1"), None);
    assert_eq!(parse_pid(b" 1"), None);
}

#[test]
fn parse_pid_respects_the_id_range() {
    assert_eq!(parse_pid(b"4294967295"), Some(u32::MAX));
    assert_eq!(parse_pid(b"4294967296"), None);
    assert_eq!(parse_pid(b"99999999999999999999"), None);
}
