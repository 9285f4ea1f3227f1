use redrumdb::data_structures::listpack::ListpackValueRef;
use redrumdb::data_structures::stream::{Stream, StreamID};

fn id(ms: u64, seq: u64) -> StreamID {
    StreamID { ms, seq }
}

#[test]
fn parse_explicit_id() {
    assert_eq!(StreamID::parse(b"5-3", id(0, 0)), Ok(id(5, 3)));
}

#[test]
fn parse_auto_sequence() {
    assert_eq!(StreamID::parse(b"5-*", id(5, 3)), Ok(id(5, 4)));
    assert_eq!(StreamID::parse(b"6-*", id(5, 3)), Ok(id(6, 0)));
    assert_eq!(
        StreamID::parse(b"4-*", id(5, 3)),
        Err(b"-ERR The ID specified in XADD is equal or smaller than the target stream top item\r\n".to_vec())
    );
}

#[test]
fn parse_errors() {
    assert_eq!(StreamID::parse(b"15", id(0, 0)), Err(b"-ERR invalid stream id".to_vec()));
    assert_eq!(StreamID::parse(b"a-1", id(0, 0)), Err(b"-ERR invalid integer".to_vec()));
    assert_eq!(StreamID::parse(b"1-", id(0, 0)), Err(b"-ERR invalid integer".to_vec()));
}

#[test]
fn parse_star_uses_clock() {
    let got = StreamID::parse(b"*", id(0, 0)).unwrap();
    assert!(got.ms > 1_600_000_000_000);
    assert_eq!(got.seq, 0);
}

#[test]
fn parse_at_fixed_clock() {
    assert_eq!(StreamID::parse_at(b"*", id(7, 2), 7), Ok(id(7, 3)));
    assert_eq!(StreamID::parse_at(b"*", id(7, 2), 9), Ok(id(9, 0)));
}

#[test]
fn id_bytes_are_big_endian() {
    let b = id(0x0102030405060708, 9).to_bytes();
    assert_eq!(b, [1u8, 2, 3, 4, 5, 6, 7, 8, 0, 0, 0, 0, 0, 0, 0, 9]);
}

#[test]
fn add_then_get() {
    let mut s = Stream::new();
    let f1: Vec<(&[u8], &[u8])> = vec![(b"temp", b"hot"), (b"n", b"12")];
    s.add(id(1, 1), &f1).unwrap();
    let f2: Vec<(&[u8], &[u8])> = vec![(b"a", b"b")];
    s.add(id(1, 2), &f2).unwrap();
    assert_eq!(s.last_id, Some(id(1, 2)));
    let got = s.get(id(1, 1)).unwrap();
    assert_eq!(
        got,
        vec![
            ListpackValueRef::String(b"temp"),
            ListpackValueRef::String(b"hot"),
            ListpackValueRef::String(b"n"),
            ListpackValueRef::Int(12),
        ]
    );
    let got2 = s.get(id(1, 2)).unwrap();
    assert_eq!(got2, vec![ListpackValueRef::String(b"a"), ListpackValueRef::String(b"b")]);
    assert!(s.get(id(1, 3)).is_none());
    assert!(s.get(id(0, 5)).is_none());
}

#[test]
fn add_refuses_old_id() {
    let mut s = Stream::new();
    let f: Vec<(&[u8], &[u8])> = vec![(b"k", b"v")];
    s.add(id(5, 5), &f).unwrap();
    assert_eq!(
        s.add(id(5, 5), &f),
        Err(b"-ERR The ID specified in XADD is equal or smaller than the target stream top item\r\n".to_vec())
    );
    assert_eq!(s.add(id(4, 9), &f).is_err(), true);
    assert_eq!(s.last_id, Some(id(5, 5)));
}

#[test]
fn entries_far_apart_start_new_nodes() {
    let mut s = Stream::new();
    let f: Vec<(&[u8], &[u8])> = vec![(b"k", b"v")];
    s.add(id(1000, 0), &f).unwrap();
    s.add(id(5000, 0), &f).unwrap();
    s.add(id(5001, 0), &f).unwrap();
    assert!(s.get(id(1000, 0)).is_some());
    assert!(s.get(id(5000, 0)).is_some());
    assert!(s.get(id(5001, 0)).is_some());
    assert!(s.get(id(3000, 0)).is_none());
}

#[test]
fn entry_read_back_after_add() {
    let mut s = Stream::new();
    let f: Vec<(&[u8], &[u8])> = vec![(b"field", b"value"), (b"count", b"-7")];
    s.add(id(1_700_000_000_000, 0), &f).unwrap();
    s.add(id(1_700_000_000_500, 3), &f).unwrap();
    s.add(id(1_700_000_009_000, 0), &f).unwrap();
    let want = vec![
        ListpackValueRef::String(b"field"),
        ListpackValueRef::String(b"value"),
        ListpackValueRef::String(b"count"),
        ListpackValueRef::Int(-7),
    ];
    assert_eq!(s.get(id(1_700_000_000_000, 0)).unwrap(), want);
    assert_eq!(s.get(id(1_700_000_000_500, 3)).unwrap(), want);
    assert_eq!(s.get(id(1_700_000_009_000, 0)).unwrap(), want);
}

#[test]
fn id_whose_bytes_spell_digits_is_not_found() {
    // 0x3132333435363738 is written as the bytes "12345678", which the
    // listpack stores as an integer.
    let mut s = Stream::new();
    let f: Vec<(&[u8], &[u8])> = vec![(b"k", b"v")];
    s.add(id(0x3132333435363738, 0), &f).unwrap();
    assert!(s.get(id(0x3132333435363738, 0)).is_none());
}

#[test]
fn entry_fits_counts_the_bytes() {
    let f: Vec<(&[u8], &[u8])> = vec![(b"k", b"v")];
    // ms, seq and count take 10 bytes each, "k" and "v" 3 each.
    assert!(redrumdb::data_structures::stream::entry_fits(7, id(1, 1), &f));
    let limit = u32::MAX as u64 - 36;
    assert!(redrumdb::data_structures::stream::entry_fits(limit, id(1, 1), &f));
    assert!(!redrumdb::data_structures::stream::entry_fits(limit + 1, id(1, 1), &f));
    let s = Stream::new();
    assert!(!s.add_would_overflow(id(1, 1), &f));
}

#[test]
fn id_bytes_sort_as_ids() {
    let ids = [id(0, 0), id(0, 1), id(0, 256), id(1, 0), id(255, u64::MAX), id(256, 0), id(u64::MAX, 0)];
    for a in ids.iter() {
        for b in ids.iter() {
            assert_eq!(a.to_bytes() < b.to_bytes(), (a.ms, a.seq) < (b.ms, b.seq));
            assert_eq!(a.to_bytes() == b.to_bytes(), a == b);
        }
    }
}

#[test]
fn earlier_entries_read_the_same_after_add() {
    let mut s = Stream::new();
    let f: Vec<(&[u8], &[u8])> = vec![(b"a", b"1")];
    let g: Vec<(&[u8], &[u8])> = vec![(b"b", b"x")];
    s.add(id(10, 0), &f).unwrap();
    let before = s.get(id(10, 0)).map(|v| v.len());
    s.add(id(10, 1), &g).unwrap();
    s.add(id(5000, 0), &g).unwrap();
    assert_eq!(s.get(id(10, 0)).map(|v| v.len()), before);
    assert_eq!(s.get(id(10, 0)).unwrap(), vec![ListpackValueRef::String(b"a"), ListpackValueRef::Int(1)]);
}

#[test]
fn parse_star_after_exhausted_sequence() {
    let got = StreamID::parse(b"*", id(0, u64::MAX)).unwrap();
    assert!(got.ms > 0);
    assert_eq!(got.seq, 0);
}
