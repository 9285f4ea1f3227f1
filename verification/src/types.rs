//! The keyspace: keys and their typed values, with optional expiry times.
use std::collections::VecDeque;
use vstd::prelude::*;
use crate::data_structures::stream::Stream;

verus! {

/// A stored value: a string, a list of strings, or a stream.
pub enum Value {
    String(Vec<u8>),
    List(VecDeque<Vec<u8>>),
    Stream(Stream),
}

/// A key's value and the time, in nanoseconds on the server's clock, at
/// which it expires.
pub struct Entry {
    pub value: Value,
    pub expiry: Option<u128>,
}

/// A stream stored in an entry is well formed.
pub open spec fn entry_wf(e: Entry) -> bool {
    e.value matches Value::Stream(s) ==> s.wf()
}

/// A map from byte strings to values.
pub struct ByteMap<V> {
    entries: Vec<(Vec<u8>, V)>,
}

/// The keyspace: a map from keys to entries.
pub type Db = ByteMap<Entry>;

/// The expiry queue: expiry times and the keys they were set for.
pub type Expiries = Vec<(u128, Vec<u8>)>;

/// The channels and the connections subscribed to each.
pub type PubSub = ByteMap<Vec<usize>>;

/// The expiry queue's times and keys.
pub open spec fn expiries_view(e: Seq<(u128, Vec<u8>)>) -> Seq<(u128, Seq<u8>)> {
    e.map_values(|p: (u128, Vec<u8>)| (p.0, p.1@))
}

/// The items of a list.
pub open spec fn list_view(l: VecDeque<Vec<u8>>) -> Seq<Seq<u8>> {
    l@.map_values(|v: Vec<u8>| v@)
}

/// `e` holds the string `v` and expires at `expiry`.
pub open spec fn holds_string(e: Entry, v: Seq<u8>, expiry: Option<u128>) -> bool {
    &&& e.value matches Value::String(s) && s@ == v
    &&& e.expiry == expiry
}

/// `e` holds the list `items` and expires at `expiry`.
pub open spec fn holds_list(e: Entry, items: Seq<Seq<u8>>, expiry: Option<u128>) -> bool {
    &&& e.value matches Value::List(l) && list_view(l) == items
    &&& e.expiry == expiry
}

/// The list stored under `key`, if a list is stored there.
pub open spec fn list_at(db: Map<Seq<u8>, Entry>, key: Seq<u8>) -> Option<Seq<Seq<u8>>> {
    if db.contains_key(key) {
        match db[key].value {
            Value::List(l) => Some(list_view(l)),
            _ => None,
        }
    } else {
        None
    }
}

/// `db2` holds `key`, and every other key as `db1` does.
pub open spec fn changed_only_at(db1: Map<Seq<u8>, Entry>, db2: Map<Seq<u8>, Entry>, key: Seq<u8>) -> bool {
    db2.contains_key(key) && db2.remove(key) =~= db1.remove(key)
}

/// Every entry of the keyspace is well formed.
pub open spec fn db_wf(db: &Db) -> bool {
    db.wf() && forall|k: Seq<u8>| #[trigger] db@.contains_key(k) ==> entry_wf(db@[k])
}

/// Takes the list stored under `key` out of the keyspace, with its expiry
/// time; leaves the keyspace as it is where no list is stored there.
pub fn take_list(db: &mut Db, key: &[u8]) -> (r: Option<(VecDeque<Vec<u8>>, Option<u128>)>)
    requires
        db_wf(old(db)),
    ensures
        db_wf(final(db)),
        match r {
            Some((l, exp)) => {
                &&& old(db)@.contains_key(key@)
                &&& old(db)@[key@] == (Entry { value: Value::List(l), expiry: exp })
                &&& final(db)@ == old(db)@.remove(key@)
            },
            None => list_at(old(db)@, key@) is None && final(db)@ == old(db)@,
        },
{
    match db.remove(key) {
        Some(Entry { value: Value::List(l), expiry }) => Some((l, expiry)),
        Some(other) => {
            let ghost d0 = old(db)@;
            db.insert(key, other);
            assert(db@ =~= d0);
            None
        },
        None => None,
    }
}

/// The stream stored under `key`, if a stream is stored there.
pub open spec fn stream_at(db: Map<Seq<u8>, Entry>, key: Seq<u8>) -> Option<Stream> {
    if db.contains_key(key) {
        match db[key].value {
            Value::Stream(st) => Some(st),
            _ => None,
        }
    } else {
        None
    }
}

/// Takes the stream stored under `key` out of the keyspace, with its expiry
/// time; leaves the keyspace as it is where no stream is stored there.
pub fn take_stream(db: &mut Db, key: &[u8]) -> (r: Option<(Stream, Option<u128>)>)
    requires
        db_wf(old(db)),
    ensures
        db_wf(final(db)),
        match r {
            Some((st, exp)) => {
                &&& old(db)@.contains_key(key@)
                &&& old(db)@[key@] == (Entry { value: Value::Stream(st), expiry: exp })
                &&& st.wf()
                &&& final(db)@ == old(db)@.remove(key@)
            },
            None => stream_at(old(db)@, key@) is None && final(db)@ == old(db)@,
        },
{
    match db.remove(key) {
        Some(Entry { value: Value::Stream(st), expiry }) => Some((st, expiry)),
        Some(other) => {
            let ghost d0 = old(db)@;
            db.insert(key, other);
            assert(db@ =~= d0);
            None
        },
        None => None,
    }
}

/// `a` and `b` hold the same bytes.
pub fn bytes_eq(a: &[u8], b: &[u8]) -> (r: bool)
    ensures
        r == (a@ == b@),
{
    if a.len() != b.len() {
        return false;
    }
    let n = a.len();
    let mut i: usize = 0;
    while i < n
        invariant
            n == a@.len(),
            n == b@.len(),
            i <= n,
            forall|j: int| 0 <= j < i ==> a@[j] == b@[j],
        decreases n - i,
    {
        if a[i] != b[i] {
            return false;
        }
        i = i + 1;
    }
    assert(a@ =~= b@);
    true
}

spec fn has_key<V>(s: Seq<(Vec<u8>, V)>, k: Seq<u8>) -> bool {
    exists|i: int| 0 <= i < s.len() && s[i].0@ == k
}

spec fn key_index<V>(s: Seq<(Vec<u8>, V)>, k: Seq<u8>) -> int {
    choose|i: int| 0 <= i < s.len() && s[i].0@ == k
}

spec fn keys_distinct<V>(s: Seq<(Vec<u8>, V)>) -> bool {
    forall|i: int, j: int| 0 <= i < s.len() && 0 <= j < s.len() && i != j ==> (#[trigger] s[i]).0@ != (#[trigger] s[j]).0@
}

spec fn entries_map<V>(s: Seq<(Vec<u8>, V)>) -> Map<Seq<u8>, V> {
    Map::new(|k: Seq<u8>| has_key(s, k), |k: Seq<u8>| s[key_index(s, k)].1)
}

proof fn lemma_key_index<V>(s: Seq<(Vec<u8>, V)>, j: int)
    requires
        keys_distinct(s),
        0 <= j < s.len(),
    ensures
        has_key(s, s[j].0@),
        key_index(s, s[j].0@) == j,
        entries_map(s).contains_key(s[j].0@),
        entries_map(s)[s[j].0@] == s[j].1,
{
    assert(0 <= j < s.len() && s[j].0@ == s[j].0@);
    let i = key_index(s, s[j].0@);
    if i != j {
        assert(s[i].0@ != s[j].0@);
    }
}

impl<V> View for ByteMap<V> {
    type V = Map<Seq<u8>, V>;

    closed spec fn view(&self) -> Map<Seq<u8>, V> {
        entries_map(self.entries@)
    }
}

impl<V> ByteMap<V> {
    /// No key occurs twice.
    pub closed spec fn wf(&self) -> bool {
        keys_distinct(self.entries@)
    }

    /// An empty map.
    pub fn new() -> (r: Self)
        ensures
            r.wf(),
            r@ == Map::<Seq<u8>, V>::empty(),
    {
        let r = ByteMap { entries: Vec::new() };
        assert(entries_map(r.entries@) =~= Map::<Seq<u8>, V>::empty());
        r
    }

    fn find(&self, key: &[u8]) -> (r: Option<usize>)
        requires
            self.wf(),
        ensures
            match r {
                Some(i) => i < self.entries@.len() && self.entries@[i as int].0@ == key@
                    && self@.contains_key(key@) && self@[key@] == self.entries@[i as int].1,
                None => !self@.contains_key(key@),
            },
    {
        let n = self.entries.len();
        let mut i: usize = 0;
        while i < n
            invariant
                self.wf(),
                n == self.entries@.len(),
                i <= n,
                forall|j: int| 0 <= j < i ==> self.entries@[j].0@ != key@,
            decreases n - i,
        {
            if bytes_eq(self.entries[i].0.as_slice(), key) {
                proof { lemma_key_index(self.entries@, i as int); }
                return Some(i);
            }
            i = i + 1;
        }
        None
    }

    /// The entry of `key`, if it has one.
    pub fn get(&self, key: &[u8]) -> (r: Option<&V>)
        requires
            self.wf(),
        ensures
            match r {
                Some(e) => self@.contains_key(key@) && *e == self@[key@],
                None => !self@.contains_key(key@),
            },
    {
        match self.find(key) {
            Some(i) => Some(&self.entries[i].1),
            None => None,
        }
    }

    /// The entry of `key`, to change in place.
    pub fn get_mut(&mut self, key: &[u8]) -> (r: Option<&mut V>)
        requires
            old(self).wf(),
        ensures
            match r {
                Some(e) => old(self)@.contains_key(key@) && *e == old(self)@[key@]
                    && final(self)@ == old(self)@.insert(key@, *final(e))
                    && final(self).wf(),
                None => !old(self)@.contains_key(key@) && *final(self) == *old(self),
            },
    {
        match self.find(key) {
            Some(i) => {
                proof {
                    let s0 = self.entries@;
                    assert forall|s1: Seq<(Vec<u8>, V)>|
                        s1 == s0.update(i as int, (s0[i as int].0, s1[i as int].1))
                        implies #[trigger] entries_map(s1) == entries_map(s0).insert(key@, s1[i as int].1)
                            && keys_distinct(s1) by {
                        lemma_map_update(s0, s1, i as int, s1[i as int].1);
                    }
                }
                Some(entry_mut(&mut self.entries, i))
            },
            None => None,
        }
    }

    /// Maps `key` to `entry`, replacing its former entry.
    pub fn insert(&mut self, key: &[u8], entry: V)
        requires
            old(self).wf(),
        ensures
            final(self).wf(),
            final(self)@ == old(self)@.insert(key@, entry),
    {
        let ghost s0 = self.entries@;
        match self.find(key) {
            Some(i) => {
                let k = self.entries[i].0.clone();
                assert(k@ == s0[i as int].0@);
                self.entries.set(i, (k, entry));
                proof {
                    lemma_map_update(s0, self.entries@, i as int, entry);
                }
            },
            None => {
                let k = crate::data_structures::bytes::copy_bytes(key);
                self.entries.push((k, entry));
                proof {
                    let s1 = self.entries@;
                    assert(keys_distinct(s1)) by {
                        assert forall|a: int, b: int| 0 <= a < s1.len() && 0 <= b < s1.len() && a != b
                            implies (#[trigger] s1[a]).0@ != (#[trigger] s1[b]).0@ by {
                            if a < s0.len() && b < s0.len() {
                                assert(s1[a] == s0[a] && s1[b] == s0[b]);
                            } else if a < s0.len() {
                                assert(s1[a] == s0[a]);
                                assert(s0[a].0@ != key@) by {
                                    if s0[a].0@ == key@ {
                                        assert(has_key(s0, key@));
                                    }
                                }
                            } else {
                                assert(s1[b] == s0[b]);
                                assert(s0[b].0@ != key@) by {
                                    if s0[b].0@ == key@ {
                                        assert(has_key(s0, key@));
                                    }
                                }
                            }
                        }
                    }
                    assert(entries_map(s1) =~= entries_map(s0).insert(key@, entry)) by {
                        lemma_key_index(s1, s0.len() as int);
                        assert forall|k2: Seq<u8>| #[trigger] entries_map(s1).contains_key(k2)
                            == entries_map(s0).insert(key@, entry).contains_key(k2) by {
                            if has_key(s0, k2) {
                                let j = key_index(s0, k2);
                                assert(s1[j] == s0[j]);
                            }
                            if has_key(s1, k2) && k2 != key@ {
                                let j = key_index(s1, k2);
                                assert(j < s0.len());
                                assert(s1[j] == s0[j]);
                            }
                        }
                        assert forall|k2: Seq<u8>| #[trigger] entries_map(s1).contains_key(k2)
                            implies entries_map(s1)[k2] == entries_map(s0).insert(key@, entry)[k2] by {
                            if k2 != key@ {
                                let j = key_index(s1, k2);
                                assert(j < s0.len());
                                assert(s1[j] == s0[j]);
                                lemma_key_index(s1, j);
                                lemma_key_index(s0, j);
                            }
                        }
                    }
                }
            },
        }
    }

    /// Removes `key` and its entry.
    pub fn remove(&mut self, key: &[u8]) -> (r: Option<V>)
        requires
            old(self).wf(),
        ensures
            final(self).wf(),
            final(self)@ == old(self)@.remove(key@),
            match r {
                Some(e) => old(self)@.contains_key(key@) && e == old(self)@[key@],
                None => !old(self)@.contains_key(key@),
            },
    {
        let ghost s0 = self.entries@;
        match self.find(key) {
            Some(i) => {
                let (_k, e) = self.entries.swap_remove(i);
                proof {
                    lemma_swap_remove(s0, self.entries@, i as int);
                }
                Some(e)
            },
            None => {
                assert(entries_map(s0).remove(key@) =~= entries_map(s0));
                None
            },
        }
    }
}

fn entry_mut<V>(v: &mut Vec<(Vec<u8>, V)>, i: usize) -> (e: &mut V)
    requires
        i < old(v)@.len(),
    ensures
        *e == old(v)@[i as int].1,
        final(v)@ == old(v)@.update(i as int, (old(v)@[i as int].0, *final(e))),
{
    &mut v[i].1
}

proof fn lemma_map_update<V>(s0: Seq<(Vec<u8>, V)>, s1: Seq<(Vec<u8>, V)>, i: int, e: V)
    requires
        keys_distinct(s0),
        0 <= i < s0.len(),
        s1.len() == s0.len(),
        s1[i].0@ == s0[i].0@,
        s1[i].1 == e,
        forall|j: int| 0 <= j < s0.len() && j != i ==> s1[j] == s0[j],
    ensures
        keys_distinct(s1),
        entries_map(s1) == entries_map(s0).insert(s0[i].0@, e),
{
    let key = s0[i].0@;
    assert(keys_distinct(s1)) by {
        assert forall|a: int, b: int| 0 <= a < s1.len() && 0 <= b < s1.len() && a != b
            implies (#[trigger] s1[a]).0@ != (#[trigger] s1[b]).0@ by {
            assert(s1[a].0@ == s0[a].0@ && s1[b].0@ == s0[b].0@);
        }
    }
    lemma_key_index(s1, i);
    assert(entries_map(s1) =~= entries_map(s0).insert(key, e)) by {
        assert forall|k2: Seq<u8>| #[trigger] entries_map(s1).contains_key(k2)
            == entries_map(s0).insert(key, e).contains_key(k2) by {
            if has_key(s0, k2) {
                let j = key_index(s0, k2);
                assert(s1[j].0@ == s0[j].0@);
            }
            if has_key(s1, k2) {
                let j = key_index(s1, k2);
                assert(s1[j].0@ == s0[j].0@);
            }
        }
        assert forall|k2: Seq<u8>| #[trigger] entries_map(s1).contains_key(k2)
            implies entries_map(s1)[k2] == entries_map(s0).insert(key, e)[k2] by {
            if k2 != key {
                let j = key_index(s1, k2);
                assert(s1[j].0@ == s0[j].0@);
                lemma_key_index(s1, j);
                lemma_key_index(s0, j);
            }
        }
    }
}

proof fn lemma_swap_remove<V>(s0: Seq<(Vec<u8>, V)>, s1: Seq<(Vec<u8>, V)>, i: int)
    requires
        keys_distinct(s0),
        0 <= i < s0.len(),
        s1 == s0.update(i, s0.last()).drop_last(),
    ensures
        keys_distinct(s1),
        entries_map(s1) == entries_map(s0).remove(s0[i].0@),
{
    let key = s0[i].0@;
    let n = s0.len() - 1;
    // where each element of s1 came from in s0
    assert forall|a: int| 0 <= a < s1.len() implies #[trigger] s1[a] == s0[if a == i { n } else { a }] by {}
    assert(keys_distinct(s1)) by {
        assert forall|a: int, b: int| 0 <= a < s1.len() && 0 <= b < s1.len() && a != b
            implies (#[trigger] s1[a]).0@ != (#[trigger] s1[b]).0@ by {
            let a0 = if a == i { n } else { a };
            let b0 = if b == i { n } else { b };
            assert(s1[a] == s0[a0] && s1[b] == s0[b0]);
        }
    }
    assert(entries_map(s1) =~= entries_map(s0).remove(key)) by {
        assert forall|k2: Seq<u8>| #[trigger] entries_map(s1).contains_key(k2)
            == entries_map(s0).remove(key).contains_key(k2) by {
            if has_key(s1, k2) {
                let a = key_index(s1, k2);
                let a0 = if a == i { n } else { a };
                assert(s1[a] == s0[a0]);
                assert(a0 != i);
                assert(has_key(s0, k2));
            }
            if has_key(s0, k2) && k2 != key {
                let j = key_index(s0, k2);
                assert(j != i);
                if j == n {
                    assert(s1[i] == s0[n]);
                    assert(has_key(s1, k2));
                } else {
                    assert(s1[j] == s0[j]);
                    assert(has_key(s1, k2));
                }
            }
        }
        assert forall|k2: Seq<u8>| #[trigger] entries_map(s1).contains_key(k2)
            implies entries_map(s1)[k2] == entries_map(s0).remove(key)[k2] by {
            let a = key_index(s1, k2);
            let a0 = if a == i { n } else { a };
            assert(s1[a] == s0[a0]);
            lemma_key_index(s1, a);
            lemma_key_index(s0, a0);
        }
    }
}

} // verus!
