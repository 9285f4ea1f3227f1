//! Removing the keys whose time has come, a bounded number at a time.
use vstd::prelude::*;
use vstd::multiset::Multiset;
use crate::types::{Db, Entry, Expiries, db_wf, expiries_view};
use crate::data_structures::bytes::{bytes_lt, lemma_bytes_lt_transitive, lemma_bytes_lt_total};

verus! {

broadcast use vstd::seq_lib::to_multiset_contains, vstd::seq_lib::to_multiset_len;

proof fn lemma_bytes_lt_skip(a: Seq<u8>, b: Seq<u8>, i: int)
    requires
        0 <= i < a.len(),
        i < b.len(),
        a[i] == b[i],
    ensures
        bytes_lt(a.skip(i), b.skip(i)) == bytes_lt(a.skip(i + 1), b.skip(i + 1)),
{
    assert(a.skip(i).drop_first() =~= a.skip(i + 1));
    assert(b.skip(i).drop_first() =~= b.skip(i + 1));
}

/// Whether `a` comes before `b` in byte order.
pub fn bytes_less(a: &[u8], b: &[u8]) -> (r: bool)
    ensures
        r == bytes_lt(a@, b@),
{
    let n = if a.len() < b.len() { a.len() } else { b.len() };
    let mut i: usize = 0;
    assert(a@.skip(0) =~= a@ && b@.skip(0) =~= b@);
    while i < n
        invariant
            i <= n,
            n <= a@.len(),
            n <= b@.len(),
            n == a@.len() || n == b@.len(),
            bytes_lt(a@, b@) == bytes_lt(a@.skip(i as int), b@.skip(i as int)),
        decreases n - i,
    {
        if a[i] != b[i] {
            assert(a@.skip(i as int)[0] == a@[i as int] && b@.skip(i as int)[0] == b@[i as int]);
            return a[i] < b[i];
        }
        proof {
            lemma_bytes_lt_skip(a@, b@, i as int);
        }
        i = i + 1;
    }
    a.len() < b.len()
}

/// `x` leaves the expiry queue no later than `y`: the earlier time first,
/// and of equal times the greater key.
pub open spec fn pops_before(x: (u128, Seq<u8>), y: (u128, Seq<u8>)) -> bool {
    x.0 < y.0 || (x.0 == y.0 && !bytes_lt(x.1, y.1))
}

/// `e` is the entry that leaves the queue `q` next.
pub open spec fn is_next_expiry(q: Multiset<(u128, Seq<u8>)>, e: (u128, Seq<u8>)) -> bool {
    &&& q.count(e) > 0
    &&& forall|x: (u128, Seq<u8>)| q.count(x) > 0 ==> pops_before(e, x)
}

/// The entry that leaves the queue `q` next.
pub open spec fn next_expiry(q: Multiset<(u128, Seq<u8>)>) -> (u128, Seq<u8>) {
    choose|e: (u128, Seq<u8>)| is_next_expiry(q, e)
}

/// The next entry is one entry: the order has no ties between distinct
/// entries.
pub proof fn lemma_next_expiry(q: Multiset<(u128, Seq<u8>)>, e: (u128, Seq<u8>))
    requires
        is_next_expiry(q, e),
    ensures
        next_expiry(q) == e,
{
    let f = next_expiry(q);
    assert(is_next_expiry(q, f));
    assert(pops_before(e, f) && pops_before(f, e));
    lemma_bytes_lt_total(e.1, f.1);
}

/// The expiry queue as a multiset: its order is that of `pops_before`.
pub open spec fn expiry_queue(e: Seq<(u128, Vec<u8>)>) -> Multiset<(u128, Seq<u8>)> {
    expiries_view(e).to_multiset()
}

/// The keyspace after the entry `e` left the queue: the key goes where it
/// still expires at that time.
pub open spec fn drop_expired(db: Map<Seq<u8>, Entry>, e: (u128, Seq<u8>)) -> Map<Seq<u8>, Entry> {
    if db.contains_key(e.1) && db[e.1].expiry == Some(e.0) {
        db.remove(e.1)
    } else {
        db
    }
}

/// At most this many more than a hundred and sixty-nine entries leave the
/// queue in one cleanup.
pub const MAX_CLEANUP: usize = 169;

/// The keyspace and the queue after a cleanup at time `now` that may take
/// `budget` more entries: the next entry leaves while its time has come.
pub open spec fn cleanup(
    db: Map<Seq<u8>, Entry>,
    q: Multiset<(u128, Seq<u8>)>,
    now: u128,
    budget: nat,
) -> (Map<Seq<u8>, Entry>, Multiset<(u128, Seq<u8>)>)
    decreases budget,
{
    if budget == 0 || q.len() == 0 || next_expiry(q).0 > now {
        (db, q)
    } else {
        cleanup(drop_expired(db, next_expiry(q)), q.remove(next_expiry(q)), now, (budget - 1) as nat)
    }
}

/// The position of the entry that leaves the queue next.
fn next_expiry_index(v: &Expiries) -> (r: usize)
    requires
        v@.len() > 0,
    ensures
        r < v@.len(),
        next_expiry(expiry_queue(v@)) == expiries_view(v@)[r as int],
{
    let ghost s = expiries_view(v@);
    let mut best: usize = 0;
    let mut j: usize = 1;
    proof {
        lemma_bytes_lt_total(s[0].1, s[0].1);
    }
    while j < v.len()
        invariant
            1 <= j <= v@.len(),
            best < j,
            s == expiries_view(v@),
            forall|m: int| 0 <= m < j ==> pops_before(s[best as int], #[trigger] s[m]),
        decreases v@.len() - j,
    {
        let tj = v[j].0;
        let tb = v[best].0;
        let better = tj < tb || (tj == tb && bytes_less(v[best].1.as_slice(), v[j].1.as_slice()));
        if better {
            proof {
                assert forall|m: int| 0 <= m < j + 1 implies pops_before(s[j as int], #[trigger] s[m]) by {
                    if m < j && s[j as int].0 == s[m].0 && s[best as int].0 == s[m].0 {
                        if bytes_lt(s[j as int].1, s[m].1) {
                            lemma_bytes_lt_transitive(s[best as int].1, s[j as int].1, s[m].1);
                        }
                    }
                    if m == j {
                        lemma_bytes_lt_total(s[m].1, s[m].1);
                    }
                }
            }
            best = j;
        }
        j = j + 1;
    }
    proof {
        let q = expiry_queue(v@);
        assert(q.count(s[best as int]) > 0) by {
            assert(s.contains(s[best as int]));
        }
        assert forall|x: (u128, Seq<u8>)| q.count(x) > 0 implies pops_before(s[best as int], x) by {
            assert(s.contains(x));
            let m = choose|m: int| 0 <= m < s.len() && s[m] == x;
            assert(pops_before(s[best as int], s[m]));
        }
        lemma_next_expiry(q, s[best as int]);
    }
    best
}

/// Removes the keys whose time has come, at time `now`: the entries leave
/// the expiry queue in its order while their time has come, at most a
/// hundred and seventy, and each removes its key where the key still expires
/// at that time.
pub fn cleanup_expired(db: &mut Db, expiries: &mut Expiries, now: u128)
    requires
        db_wf(old(db)),
    ensures
        db_wf(final(db)),
        cleanup(old(db)@, expiry_queue(old(expiries)@), now, (MAX_CLEANUP + 1) as nat) == (
            final(db)@,
            expiry_queue(final(expiries)@),
        ),
{
    let ghost goal = cleanup(db@, expiry_queue(expiries@), now, (MAX_CLEANUP + 1) as nat);
    let mut cleaned: usize = 0;
    loop
        invariant
            cleaned <= MAX_CLEANUP + 1,
            db_wf(db),
            goal == cleanup(db@, expiry_queue(expiries@), now, (MAX_CLEANUP + 1 - cleaned) as nat),
        ensures
            db_wf(db),
            goal == (db@, expiry_queue(expiries@)),
        decreases expiries@.len(),
    {
        if expiries.len() == 0 {
            break;
        }
        let i = next_expiry_index(expiries);
        let t = expiries[i].0;
        if cleaned > MAX_CLEANUP || t > now {
            break;
        }
        let ghost q0 = expiry_queue(expiries@);
        let ghost e = expiries_view(expiries@)[i as int];
        let ghost d0 = db@;
        let ghost v0 = expiries@;
        let (t, key) = expiries.remove(i);
        proof {
            assert(expiries_view(expiries@) =~= expiries_view(v0).remove(i as int));
            vstd::seq_lib::to_multiset_remove(expiries_view(v0), i as int);
            assert(e == (t, key@));
        }
        let stale = match db.get(key.as_slice()) {
            Some(entry) => match entry.expiry {
                Some(x) => x == t,
                None => false,
            },
            None => false,
        };
        if stale {
            db.remove(key.as_slice());
        }
        assert(db@ == drop_expired(d0, e));
        cleaned = cleaned + 1;
    }
}

proof fn lemma_pops_before_total(x: (u128, Seq<u8>), y: (u128, Seq<u8>))
    ensures
        pops_before(x, y) || pops_before(y, x),
        pops_before(x, x),
{
    lemma_bytes_lt_total(x.1, y.1);
    lemma_bytes_lt_total(x.1, x.1);
}

proof fn lemma_pops_before_transitive(x: (u128, Seq<u8>), y: (u128, Seq<u8>), z: (u128, Seq<u8>))
    requires
        pops_before(x, y),
        pops_before(y, z),
    ensures
        pops_before(x, z),
{
    if x.0 == y.0 && y.0 == z.0 && bytes_lt(x.1, z.1) {
        lemma_bytes_lt_total(x.1, y.1);
        if bytes_lt(y.1, x.1) {
            lemma_bytes_lt_transitive(y.1, x.1, z.1);
        }
    }
}

/// A queue that is not empty has a next entry.
pub proof fn lemma_next_expiry_exists(q: Multiset<(u128, Seq<u8>)>)
    requires
        q.len() > 0,
    ensures
        is_next_expiry(q, next_expiry(q)),
    decreases q.len(),
{
    broadcast use vstd::multiset::group_multiset_axioms;

    let x = q.choose();
    let r = q.remove(x);
    assert(q.count(x) > 0);
    assert(r.len() == q.len() - 1);
    if r.len() == 0 {
        assert forall|y: (u128, Seq<u8>)| q.count(y) > 0 implies pops_before(x, y) by {
            lemma_pops_before_total(x, y);
            if y != x {
                assert(r.count(y) == q.count(y));
            }
        }
        assert(is_next_expiry(q, x));
    } else {
        lemma_next_expiry_exists(r);
        let m = next_expiry(r);
        lemma_pops_before_total(x, m);
        let best = if pops_before(x, m) { x } else { m };
        assert forall|y: (u128, Seq<u8>)| q.count(y) > 0 implies pops_before(best, y) by {
            lemma_pops_before_total(best, y);
            if y == x {
                lemma_pops_before_total(x, x);
            } else {
                assert(r.count(y) == q.count(y));
                assert(pops_before(m, y));
                if best == x {
                    lemma_pops_before_transitive(x, m, y);
                }
            }
        }
        assert(q.count(best) > 0) by {
            if best == m {
                if m != x {
                    assert(r.count(m) == q.count(m));
                }
            }
        }
        assert(is_next_expiry(q, best));
    }
}

/// A cleanup removes only keys whose time has come, and leaves the entries
/// of the other keys as they were.
pub proof fn lemma_cleanup_removes_only_due(
    db: Map<Seq<u8>, Entry>,
    q: Multiset<(u128, Seq<u8>)>,
    now: u128,
    budget: nat,
)
    ensures
        forall|k: Seq<u8>| #[trigger] cleanup(db, q, now, budget).0.contains_key(k)
            ==> db.contains_key(k) && cleanup(db, q, now, budget).0[k] == db[k],
        forall|k: Seq<u8>| db.contains_key(k) && !(#[trigger] cleanup(db, q, now, budget).0.contains_key(k))
            ==> (db[k].expiry matches Some(t) && t <= now),
    decreases budget,
{
    let r = cleanup(db, q, now, budget);
    if !(budget == 0 || q.len() == 0 || next_expiry(q).0 > now) {
        let e = next_expiry(q);
        let db1 = drop_expired(db, e);
        lemma_cleanup_removes_only_due(db1, q.remove(e), now, (budget - 1) as nat);
        assert(r == cleanup(db1, q.remove(e), now, (budget - 1) as nat));
        assert forall|k: Seq<u8>| #[trigger] r.0.contains_key(k) implies db.contains_key(k) && r.0[k] == db[k] by {
            assert(db1.contains_key(k) && r.0[k] == db1[k]);
        }
        assert forall|k: Seq<u8>| db.contains_key(k) && !(#[trigger] r.0.contains_key(k)) implies (db[k].expiry matches Some(t) && t <= now) by {
            if db1.contains_key(k) {
                assert(db1[k] == db[k]);
            }
        }
    } else {
        assert(r == (db, q));
    }
}

/// A cleanup takes at most `budget` entries from the queue, and where the
/// queue holds no more than that, it leaves no entry whose time has come.
pub proof fn lemma_cleanup_bounded(
    db: Map<Seq<u8>, Entry>,
    q: Multiset<(u128, Seq<u8>)>,
    now: u128,
    budget: nat,
)
    ensures
        q.len() <= cleanup(db, q, now, budget).1.len() + budget,
        q.len() <= budget ==> forall|x: (u128, Seq<u8>)| #[trigger] cleanup(db, q, now, budget).1.count(x) > 0 ==> x.0 > now,
    decreases budget,
{
    broadcast use vstd::multiset::group_multiset_axioms;

    if q.len() > 0 {
        lemma_next_expiry_exists(q);
    }
    let r = cleanup(db, q, now, budget);
    if !(budget == 0 || q.len() == 0 || next_expiry(q).0 > now) {
        let e = next_expiry(q);
        assert(q.remove(e).len() == q.len() - 1);
        lemma_cleanup_bounded(drop_expired(db, e), q.remove(e), now, (budget - 1) as nat);
        assert(r == cleanup(drop_expired(db, e), q.remove(e), now, (budget - 1) as nat));
    } else {
        assert(r == (db, q));
        if q.len() == 0 {
            assert forall|x: (u128, Seq<u8>)| #[trigger] q.count(x) == 0 by {}
        } else if q.len() <= budget {
            assert forall|x: (u128, Seq<u8>)| #[trigger] q.count(x) > 0 implies x.0 > now by {
                assert(pops_before(next_expiry(q), x));
            }
        }
    }
}

} // verus!
