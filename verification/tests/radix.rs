use redrumdb::data_structures::radix::RadixTree;

#[test]
fn insert_then_get() {
    let mut t: RadixTree<u32> = RadixTree::new();
    t.insert(b"romane", 1);
    t.insert(b"romanus", 2);
    t.insert(b"rubens", 3);
    t.insert(b"rom", 4);
    assert_eq!(t.peek(b"romane"), Some(&1));
    assert_eq!(t.peek(b"romanus"), Some(&2));
    assert_eq!(t.peek(b"rubens"), Some(&3));
    assert_eq!(t.peek(b"rom"), Some(&4));
    assert_eq!(t.peek(b"roman"), None);
    assert_eq!(t.peek(b"r"), None);
    assert_eq!(t.peek(b""), None);
}

#[test]
fn insert_replaces_value() {
    let mut t: RadixTree<u32> = RadixTree::new();
    t.insert(b"key", 1);
    t.insert(b"key", 2);
    assert_eq!(t.peek(b"key"), Some(&2));
}

#[test]
fn get_gives_value_to_change() {
    let mut t: RadixTree<u32> = RadixTree::new();
    t.insert(b"abc", 10);
    if let Some(v) = t.get(b"abc") {
        *v += 5;
    }
    assert_eq!(t.peek(b"abc"), Some(&15));
    assert!(t.get(b"ab").is_none());
}

#[test]
fn empty_key_and_prefixes() {
    let mut t: RadixTree<&str> = RadixTree::new();
    t.insert(b"", "root");
    t.insert(b"a", "a");
    t.insert(b"ab", "ab");
    assert_eq!(t.peek(b""), Some(&"root"));
    assert_eq!(t.peek(b"a"), Some(&"a"));
    assert_eq!(t.peek(b"ab"), Some(&"ab"));
    assert_eq!(t.peek(b"abc"), None);
}

#[test]
fn lookup_after_insert_leaves_other_keys() {
    let mut t: RadixTree<u32> = RadixTree::new();
    t.insert(b"abc", 1);
    t.insert(b"abd", 2);
    t.insert(b"abc", 3);
    assert_eq!(t.peek(b"abc"), Some(&3));
    assert_eq!(t.peek(b"abd"), Some(&2));
    assert_eq!(t.peek(b"ab"), None);
}
