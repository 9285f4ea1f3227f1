use redrumdb::resp::{parse_bulk_string, parse_command, read_line};

#[test]
fn text_line_is_read() {
    assert_eq!(read_line(b"*2\r\nrest", 1), Some(("2".to_string(), 4)));
    assert_eq!(read_line(b"abc", 0), None);
}

#[test]
fn text_line_must_be_utf8() {
    assert_eq!(read_line(b"\xff\xfe\r\n", 0), None);
    assert_eq!(read_line("é\r\n".as_bytes(), 0), Some(("é".to_string(), 4)));
}

#[test]
fn text_bulk_is_read() {
    assert_eq!(parse_bulk_string(b"$3\r\nabc\r\n", 0), Some(("abc".to_string(), 9)));
    assert_eq!(parse_bulk_string(b"$3\r\nab", 0), None);
    assert_eq!(parse_bulk_string(b"$2\r\n\xff\xff\r\n", 0), None);
    assert_eq!(parse_bulk_string(b"+3\r\nabc\r\n", 0), None);
    assert_eq!(parse_bulk_string(b"$+3\r\nabc\r\n", 0), Some(("abc".to_string(), 10)));
}

#[test]
fn text_command_keeps_all_elements() {
    let buf = b"*2\r\n$4\r\nECHO\r\n$2\r\nhi\r\n";
    assert_eq!(
        parse_command(buf),
        Some((vec!["ECHO".to_string(), "hi".to_string()], buf.len()))
    );
    assert_eq!(parse_command(b"*0\r\n"), Some((Vec::new(), 4)));
    assert_eq!(parse_command(b"$1\r\na\r\n"), None);
    assert_eq!(parse_command(b"*2\r\n$1\r\na\r\n"), None);
}
