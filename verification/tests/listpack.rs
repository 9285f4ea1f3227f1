use redrumdb::data_structures::listpack::{Listpack, ListpackValueRef};

#[test]
fn new_listpack_is_empty() {
    let lp = Listpack::new();
    assert_eq!(lp.len(), 0);
    assert!(lp.is_empty());
    assert_eq!(lp.total_bytes(), 7);
    assert_eq!(lp.as_bytes(), &[7u8, 0, 0, 0, 0, 0, 0xFF][..]);
    assert!(lp.get(0).is_none());
}

#[test]
fn default_and_with_capacity_are_empty() {
    let a = Listpack::default();
    let b = Listpack::with_capacity(1024);
    assert_eq!(a.as_bytes(), b.as_bytes());
    assert_eq!(b.len(), 0);
}

#[test]
fn short_string_encoding() {
    let mut lp = Listpack::new();
    lp.append(b"hello").unwrap();
    assert_eq!(lp.len(), 1);
    assert_eq!(lp.total_bytes(), 14);
    assert_eq!(
        lp.as_bytes(),
        &[14u8, 0, 0, 0, 1, 0, 0x85, b'h', b'e', b'l', b'l', b'o', 6, 0xFF][..]
    );
    assert_eq!(lp.get(0), Some(ListpackValueRef::String(b"hello")));
}

#[test]
fn numeric_strings_become_integers() {
    let mut lp = Listpack::new();
    lp.append(b"123").unwrap();
    lp.append(b"-5").unwrap();
    lp.append(b"007").unwrap();
    assert_eq!(lp.get(0), Some(ListpackValueRef::Int(123)));
    assert_eq!(lp.get(1), Some(ListpackValueRef::Int(-5)));
    assert_eq!(lp.get(2), Some(ListpackValueRef::String(b"007")));
    assert_eq!(&lp.as_bytes()[6..8], &[123u8, 1][..]);
}

#[test]
fn integer_encodings_round_trip() {
    let values: [i64; 9] = [0, 127, 128, -1, -4096, 4095, 32767, -8_388_608, i64::MIN];
    let mut lp = Listpack::new();
    for v in values.iter() {
        lp.append_int(*v).unwrap();
    }
    assert_eq!(lp.len(), values.len());
    for (i, v) in values.iter().enumerate() {
        assert_eq!(lp.get(i), Some(ListpackValueRef::Int(*v)));
    }
}

#[test]
fn long_strings_round_trip() {
    let mid = vec![b'x'; 100];
    let big = vec![b'y'; 5000];
    let mut lp = Listpack::new();
    lp.append_string(&mid).unwrap();
    lp.append_string(&big).unwrap();
    assert_eq!(lp.get(0), Some(ListpackValueRef::String(&mid[..])));
    assert_eq!(lp.get(1), Some(ListpackValueRef::String(&big[..])));
    assert_eq!(lp.total_bytes(), lp.as_bytes().len());
}

#[test]
fn iterator_walks_in_order() {
    let mut lp = Listpack::new();
    lp.append(b"a").unwrap();
    lp.append(b"42").unwrap();
    lp.append(b"b").unwrap();
    let mut it = lp.iter();
    assert_eq!(it.next(), Some(ListpackValueRef::String(b"a")));
    assert_eq!(it.next(), Some(ListpackValueRef::Int(42)));
    assert_eq!(it.next(), Some(ListpackValueRef::String(b"b")));
    assert_eq!(it.next(), None);
    assert_eq!(it.next(), None);
}

#[test]
fn get_past_the_end_is_none() {
    let mut lp = Listpack::new();
    lp.append(b"only").unwrap();
    assert!(lp.get(1).is_none());
}

#[test]
fn appended_bytes_come_back() {
    let inputs: Vec<&[u8]> = vec![
        b"-42",
        b"0",
        b"-0",
        b"007",
        b"+5",
        b"9223372036854775807",
        b"9223372036854775808",
        b"-9223372036854775808",
        b"text",
        b"",
    ];
    let mut lp = Listpack::new();
    for s in &inputs {
        lp.append(s).unwrap();
    }
    for (i, s) in inputs.iter().enumerate() {
        let back: Vec<u8> = match lp.get(i).unwrap() {
            ListpackValueRef::String(b) => b.to_vec(),
            ListpackValueRef::Int(v) => v.to_string().into_bytes(),
        };
        assert_eq!(&back[..], *s);
    }
    assert_eq!(lp.get(0), Some(ListpackValueRef::Int(-42)));
    assert_eq!(lp.get(6), Some(ListpackValueRef::String(b"9223372036854775808")));
    assert_eq!(lp.get(7), Some(ListpackValueRef::Int(i64::MIN)));
}

#[test]
fn count_past_the_header_limit() {
    let mut lp = Listpack::new();
    for i in 0..70_000u32 {
        let s = format!("v{}", i);
        lp.append(s.as_bytes()).unwrap();
    }
    assert_eq!(lp.len(), 70_000);
    let mut it = lp.iter();
    let mut n = 0usize;
    while let Some(v) = it.next() {
        if n % 10_000 == 0 {
            assert_eq!(Some(v), lp.get(n));
        }
        n += 1;
    }
    assert_eq!(n, 70_000);
    assert_eq!(lp.get(69_999), Some(ListpackValueRef::String(b"v69999")));
    assert_eq!(lp.get(70_000), None);
}
