use redrumdb::commands::parser::{normalize_upper, parse_bulk_string, parse_command, read_line};
use redrumdb::commands::{command_table, lookup_command, CommandKind};
use redrumdb::server::admission::command_overflows;

#[test]
fn read_line_finds_line_end() {
    assert_eq!(read_line(b"*2\r\n$4\r\n", 1), Some((1, 4)));
    assert_eq!(read_line(b"abc", 0), None);
    assert_eq!(read_line(b"\r\n", 0), Some((0, 2)));
}

#[test]
fn parse_bulk_string_reads_data() {
    let buf = b"$5\r\nhello\r\nrest";
    let (data, next) = parse_bulk_string(buf, 0).unwrap();
    assert_eq!(data, b"hello");
    assert_eq!(next, 11);
}

#[test]
fn parse_bulk_string_refuses_short_or_bad() {
    assert!(parse_bulk_string(b"$5\r\nhel", 0).is_none());
    assert!(parse_bulk_string(b"+OK\r\n", 0).is_none());
    assert!(parse_bulk_string(b"$x\r\nab\r\n", 0).is_none());
    assert!(parse_bulk_string(b"", 0).is_none());
}

#[test]
fn parse_command_reads_name_and_args() {
    let buf = b"*3\r\n$3\r\nSET\r\n$1\r\nk\r\n$2\r\nvv\r\n";
    let cmd = parse_command(buf).unwrap();
    assert_eq!(cmd.name, b"SET");
    assert_eq!(cmd.args, vec![&b"k"[..], &b"vv"[..]]);
}

#[test]
fn parse_command_single_name() {
    let cmd = parse_command(b"*1\r\n$4\r\nping\r\n").unwrap();
    assert_eq!(cmd.name, b"ping");
    assert!(cmd.args.is_empty());
}

#[test]
fn parse_command_errors() {
    assert_eq!(parse_command(b"").err(), Some(b"No Command".to_vec()));
    assert_eq!(parse_command(b"$3\r\nabc\r\n").err(), Some(b"No Command".to_vec()));
    assert_eq!(parse_command(b"*2\r\n$3\r\nGET\r\n").err(), Some(b"Invalid".to_vec()));
    assert_eq!(parse_command(b"*x\r\n").err(), Some(b"Invalid".to_vec()));
    assert_eq!(parse_command(b"*1").err(), Some(b"Invalid".to_vec()));
}

#[test]
fn normalize_upper_uppercases_ascii() {
    let mut buf = [0u8; 32];
    let out = normalize_upper(b"lPush9", &mut buf);
    assert_eq!(out, b"LPUSH9");
}

#[test]
fn command_table_lists_every_command() {
    let table = command_table();
    assert_eq!(table.len(), 15);
    for (name, kind) in table.iter() {
        assert_eq!(lookup_command(name), Some(*kind));
    }
    assert_eq!(lookup_command(b"XADD"), Some(CommandKind::Xadd));
    assert_eq!(lookup_command(b"xadd"), None);
    assert_eq!(lookup_command(b"FLUSHALL"), None);
}

#[test]
fn overflowing_lengths_are_found() {
    assert!(!command_overflows(b"*1\r\n$4\r\nPING\r\n"));
    assert!(command_overflows(b"*1\r\n$18446744073709551615\r\n"));
    assert!(command_overflows(b"*0\r\n$4\r\nPING\r\n"));
    assert!(command_overflows(b"*2\r\n$4\r\nPING\r\n$18446744073709551610\r\n"));
    assert!(!command_overflows(b"*2\r\n$4\r\nPING\r\n$x\r\n"));
    assert!(!command_overflows(b"hello"));
}
