use redrumdb::decimal::{parse_isize, parse_u64, parse_usize};
use redrumdb::reply::{bulk_reply, integer_reply, push_decimal};

#[test]
fn parse_usize_reads_digits() {
    assert_eq!(parse_usize(b"0"), Some(0));
    assert_eq!(parse_usize(b"42"), Some(42));
    assert_eq!(parse_usize(b"+7"), Some(7));
}

#[test]
fn parse_usize_refuses_other_text() {
    assert_eq!(parse_usize(b""), None);
    assert_eq!(parse_usize(b"+"), None);
    assert_eq!(parse_usize(b"-1"), None);
    assert_eq!(parse_usize(b"12a"), None);
    assert_eq!(parse_usize(b" 1"), None);
}

#[test]
fn parse_u64_bounds() {
    assert_eq!(parse_u64(b"18446744073709551615"), Some(u64::MAX));
    assert_eq!(parse_u64(b"18446744073709551616"), None);
}

#[test]
fn parse_isize_signs() {
    assert_eq!(parse_isize(b"-1"), Some(-1));
    assert_eq!(parse_isize(b"+3"), Some(3));
    assert_eq!(parse_isize(b"-0"), Some(0));
    assert_eq!(parse_isize(b"-"), None);
    assert_eq!(parse_isize(b"--1"), None);
    assert_eq!(parse_isize(b"9223372036854775807"), Some(isize::MAX));
    assert_eq!(parse_isize(b"-9223372036854775808"), Some(isize::MIN));
    assert_eq!(parse_isize(b"9223372036854775808"), None);
}

#[test]
fn decimal_digits_written() {
    let mut out = Vec::new();
    push_decimal(&mut out, 0);
    push_decimal(&mut out, 907);
    assert_eq!(out, b"0907".to_vec());
}

#[test]
fn replies_are_framed() {
    assert_eq!(bulk_reply(b"hey"), b"$3\r\nhey\r\n".to_vec());
    assert_eq!(bulk_reply(b""), b"$0\r\n\r\n".to_vec());
    assert_eq!(integer_reply(12), b":12\r\n".to_vec());
}
