//! Connections that wait on a list: waking one when the list grows, and
//! answering those whose time ran out.
use std::collections::VecDeque;
use vstd::prelude::*;
use vstd::multiset::Multiset;
use crate::commands::messages::{array_two, array_two_msg, null_array, null_array_msg};
use crate::data_structures::bytes::copy_bytes;
use crate::reply::{array_header, bulk, push_bulk, push_bytes};
use crate::server::connection::{Connection, ConnView, ConnectionSlab, slab_connections, connection_at, connection_mut};
use crate::types::{ByteMap, Db, Entry, Value, db_wf, list_at, holds_list, changed_only_at, take_list, list_view};

verus! {

broadcast use vstd::seq_lib::to_multiset_contains, vstd::seq_lib::to_multiset_len;

/// The connections that wait on each key, in the order they began to wait.
pub type BlockedQueues = ByteMap<VecDeque<usize>>;

/// When each waiting connection's time runs out.
pub type BlockedTimeouts = Vec<(u128, usize)>;

/// The tokens that wait on each key.
pub open spec fn queues_view(bq: Map<Seq<u8>, VecDeque<usize>>) -> Map<Seq<u8>, Seq<usize>> {
    bq.map_values(|d: VecDeque<usize>| d@)
}

/// The connection of `token` waits on a list.
pub open spec fn waiting(conns: Map<usize, ConnView>, token: usize) -> bool {
    &&& token >= 1
    &&& conns.contains_key((token - 1) as usize)
    &&& conns[(token - 1) as usize].blocked
}

/// `c` waits no more, and `extra` was written to it.
pub open spec fn released(c: ConnView, extra: Seq<u8>) -> ConnView {
    ConnView { write_buffer: c.write_buffer + extra, blocked: false, block_key: None, block_deadline: None, ..c }
}

/// `j` is the position of the first token of `q` whose connection waits.
pub open spec fn is_first_waiting(q: Seq<usize>, conns: Map<usize, ConnView>, j: int) -> bool {
    &&& 0 <= j < q.len()
    &&& waiting(conns, q[j])
    &&& forall|i: int| 0 <= i < j ==> !waiting(conns, #[trigger] q[i])
}

/// The position of the first token of `q` whose connection waits.
pub open spec fn first_waiting(q: Seq<usize>, conns: Map<usize, ConnView>) -> Option<int> {
    if exists|j: int| is_first_waiting(q, conns, j) {
        Some(choose|j: int| is_first_waiting(q, conns, j))
    } else {
        None
    }
}

proof fn lemma_first_waiting(q: Seq<usize>, conns: Map<usize, ConnView>, j: int)
    requires
        is_first_waiting(q, conns, j),
    ensures
        first_waiting(q, conns) == Some(j),
{
    let k = choose|k: int| is_first_waiting(q, conns, k);
    assert(is_first_waiting(q, conns, k));
    if k < j {
        assert(!waiting(conns, q[k]));
    } else if j < k {
        assert(!waiting(conns, q[j]));
    }
}

/// Takes tokens from the front of `queue` up to the first whose connection
/// waits.
fn pop_waiting(queue: &mut VecDeque<usize>, connections: &ConnectionSlab) -> (r: Option<usize>)
    requires
        forall|i: int| 0 <= i < old(queue)@.len() ==> old(queue)@[i] >= 1,
    ensures
        match first_waiting(old(queue)@, slab_connections(*connections)) {
            Some(j) => r == Some(old(queue)@[j]) && final(queue)@ == old(queue)@.skip(j + 1),
            None => r is None && final(queue)@ == Seq::<usize>::empty(),
        },
{
    let ghost q0 = queue@;
    let ghost conns = slab_connections(*connections);
    let ghost mut popped: int = 0;
    assert(q0.skip(0) =~= q0);
    while queue.len() > 0
        invariant
            0 <= popped <= q0.len(),
            queue@ == q0.skip(popped),
            q0 == old(queue)@,
            conns == slab_connections(*connections),
            forall|i: int| 0 <= i < q0.len() ==> q0[i] >= 1,
            forall|i: int| 0 <= i < popped ==> !waiting(conns, #[trigger] q0[i]),
        decreases queue@.len(),
    {
        let ghost qa = queue@;
        let token = queue.pop_front().unwrap();
        assert(token == q0[popped]);
        assert(queue@ =~= q0.skip(popped + 1));
        let waits = match connection_at(connections, token - 1) {
            Some(c) => c.blocked,
            None => false,
        };
        if waits {
            proof {
                assert(waiting(conns, q0[popped]));
                assert(is_first_waiting(q0, conns, popped));
                lemma_first_waiting(q0, conns, popped);
            }
            return Some(token);
        }
        proof {
            popped = popped + 1;
        }
    }
    assert(popped == q0.len());
    assert forall|j: int| !is_first_waiting(q0, conns, j) by {}
    None
}

/// What waking a connection for `key` writes to it: the key and the
/// list's first item.
pub open spec fn wake_reply(key: Seq<u8>, item: Seq<u8>) -> Seq<u8> {
    array_header(2) + bulk(key) + bulk(item)
}

/// What `wake_client` does for `key`: the tokens waiting on it leave the
/// queue up to the first whose connection waits; that connection waits no
/// more and gets the list's first item, where the list has one.
pub open spec fn wakes(
    key: Seq<u8>,
    db0: Map<Seq<u8>, Entry>,
    db1: Map<Seq<u8>, Entry>,
    bq0: Map<Seq<u8>, Seq<usize>>,
    bq1: Map<Seq<u8>, Seq<usize>>,
    conns0: Map<usize, ConnView>,
    conns1: Map<usize, ConnView>,
    r: Option<usize>,
) -> bool {
    if !bq0.contains_key(key) {
        db1 == db0 && bq1 == bq0 && conns1 == conns0 && r is None
    } else {
        let q = bq0[key];
        match first_waiting(q, conns0) {
            None => db1 == db0 && bq1 == bq0.insert(key, Seq::empty()) && conns1 == conns0 && r is None,
            Some(j) => {
                let t = q[j];
                let c = conns0[(t - 1) as usize];
                &&& bq1 == bq0.insert(key, q.skip(j + 1))
                &&& if list_at(db0, key) is Some && list_at(db0, key)->0.len() > 0 {
                    let l = list_at(db0, key)->0;
                    &&& changed_only_at(db0, db1, key)
                    &&& holds_list(db1[key], l.skip(1), db0[key].expiry)
                    &&& conns1 == conns0.insert((t - 1) as usize, released(c, wake_reply(key, l[0])))
                    &&& r == if c.write_buffer.len() == 0 { Some(t) } else { None }
                } else {
                    &&& db1 == db0
                    &&& conns1 == conns0.insert((t - 1) as usize, released(c, Seq::empty()))
                    &&& r is None
                }
            },
        }
    }
}

/// Wakes the first connection that waits on `key`, now that the list there
/// may have grown. Answers the token of the woken connection where its
/// write buffer was empty, for the event loop to watch it for writing.
pub fn wake_client(
    key: &[u8],
    db: &mut Db,
    blocked_queues: &mut BlockedQueues,
    connections: &mut ConnectionSlab,
) -> (r: Option<usize>)
    requires
        db_wf(old(db)),
        old(blocked_queues).wf(),
        old(blocked_queues)@.contains_key(key@) ==> forall|i: int|
            0 <= i < old(blocked_queues)@[key@]@.len() ==> old(blocked_queues)@[key@]@[i] >= 1,
    ensures
        db_wf(final(db)),
        final(blocked_queues).wf(),
        wakes(
            key@,
            old(db)@,
            final(db)@,
            queues_view(old(blocked_queues)@),
            queues_view(final(blocked_queues)@),
            slab_connections(*old(connections)),
            slab_connections(*final(connections)),
            r,
        ),
{
    let ghost bq0 = queues_view(blocked_queues@);
    let ghost db0 = db@;
    let mut queue = match blocked_queues.remove(key) {
        Some(q) => q,
        None => {
            assert(queues_view(blocked_queues@) =~= bq0);
            return None;
        },
    };
    let woken = pop_waiting(&mut queue, connections);
    let ghost q1 = queue@;
    blocked_queues.insert(key, queue);
    assert(queues_view(blocked_queues@) =~= bq0.insert(key@, q1));
    let token = match woken {
        None => {
            return None;
        },
        Some(t) => t,
    };
    let conn = match connection_mut(connections, token - 1) {
        None => {
            return None;
        },
        Some(c) => c,
    };
    conn.blocked = false;
    conn.block_key = None;
    conn.block_deadline = None;
    let mut reg: Option<usize> = None;
    match take_list(db, key) {
        Some((mut list, expiry)) => {
            if list.len() > 0 {
                let ghost l = list_view(list);
                let ghost lq = list@;
                assert(l[0] == lq[0]@);
                let val = list.pop_front().unwrap();
                assert(list_view(list) =~= l.skip(1));
                let was_empty = conn.write_buffer.len() == 0;
                let mut frame = array_two();
                push_bulk(&mut frame, key);
                push_bulk(&mut frame, val.as_slice());
                assert(array_header(2) =~= array_two_msg());
                push_bytes(&mut conn.write_buffer, frame.as_slice());
                if was_empty {
                    reg = Some(token);
                }
                db.insert(key, Entry { value: Value::List(list), expiry });
                assert(db@.remove(key@) =~= db0.remove(key@));
            } else {
                db.insert(key, Entry { value: Value::List(list), expiry });
                assert(db@ =~= db0);
                assert(conn.write_buffer@ =~= conn.write_buffer@ + Seq::<u8>::empty());
            }
        },
        None => {
            assert(conn.write_buffer@ =~= conn.write_buffer@ + Seq::<u8>::empty());
        },
    }
    reg
}

/// `x` leaves the timeout queue no later than `y`: the earlier time first,
/// and of equal times the greater token.
pub open spec fn times_out_before(x: (u128, usize), y: (u128, usize)) -> bool {
    x.0 < y.0 || (x.0 == y.0 && x.1 >= y.1)
}

/// `e` is the entry that leaves the timeout queue `q` next.
pub open spec fn is_next_timeout(q: Multiset<(u128, usize)>, e: (u128, usize)) -> bool {
    &&& q.count(e) > 0
    &&& forall|x: (u128, usize)| q.count(x) > 0 ==> times_out_before(e, x)
}

/// The entry that leaves the timeout queue `q` next.
pub open spec fn next_timeout(q: Multiset<(u128, usize)>) -> (u128, usize) {
    choose|e: (u128, usize)| is_next_timeout(q, e)
}

proof fn lemma_next_timeout(q: Multiset<(u128, usize)>, e: (u128, usize))
    requires
        is_next_timeout(q, e),
    ensures
        next_timeout(q) == e,
{
    let f = next_timeout(q);
    assert(is_next_timeout(q, f));
    assert(times_out_before(e, f) && times_out_before(f, e));
}

/// The timeout queue as a multiset: its order is that of
/// `times_out_before`.
pub open spec fn timeout_queue(v: Seq<(u128, usize)>) -> Multiset<(u128, usize)> {
    v.to_multiset()
}

/// The connections after the wait of `token` ran out, and the tokens whose
/// write buffer this made non-empty: a connection that still waits gets a
/// null reply and waits no more.
pub open spec fn time_out(conns: Map<usize, ConnView>, token: usize) -> (Map<usize, ConnView>, Seq<usize>) {
    if waiting(conns, token) {
        let c = conns[(token - 1) as usize];
        (
            conns.insert((token - 1) as usize, released(c, null_array_msg())),
            if c.write_buffer.len() == 0 { seq![token] } else { Seq::empty() },
        )
    } else {
        (conns, Seq::empty())
    }
}

/// The connections, the timeout queue and the tokens to watch for writing
/// after the waits that ran out by `now` were answered, in the queue's
/// order.
pub open spec fn expire_waits(
    conns: Map<usize, ConnView>,
    q: Multiset<(u128, usize)>,
    now: u128,
) -> (Map<usize, ConnView>, Multiset<(u128, usize)>, Seq<usize>)
    decreases q.len(),
{
    let e = next_timeout(q);
    if q.len() == 0 || q.count(e) == 0 || e.0 > now {
        (conns, q, Seq::empty())
    } else {
        proof {
            broadcast use vstd::multiset::group_multiset_axioms;
        }
        let step = time_out(conns, e.1);
        let rest = expire_waits(step.0, q.remove(e), now);
        (rest.0, rest.1, step.1 + rest.2)
    }
}

/// The position of the entry that leaves the timeout queue next.
fn next_timeout_index(v: &BlockedTimeouts) -> (r: usize)
    requires
        v@.len() > 0,
    ensures
        r < v@.len(),
        next_timeout(timeout_queue(v@)) == v@[r as int],
{
    let mut best: usize = 0;
    let mut j: usize = 1;
    while j < v.len()
        invariant
            1 <= j <= v@.len(),
            best < j,
            forall|m: int| 0 <= m < j ==> times_out_before(v@[best as int], #[trigger] v@[m]),
        decreases v@.len() - j,
    {
        let (tj, kj) = v[j];
        let (tb, kb) = v[best];
        if tj < tb || (tj == tb && kj > kb) {
            best = j;
        }
        j = j + 1;
    }
    proof {
        let q = timeout_queue(v@);
        assert(q.count(v@[best as int]) > 0) by {
            assert(v@.contains(v@[best as int]));
        }
        assert forall|x: (u128, usize)| q.count(x) > 0 implies times_out_before(v@[best as int], x) by {
            assert(v@.contains(x));
            let m = choose|m: int| 0 <= m < v@.len() && v@[m] == x;
            assert(times_out_before(v@[best as int], v@[m]));
        }
        lemma_next_timeout(q, v@[best as int]);
    }
    best
}

/// Every token of the timeout queue names a connection.
pub open spec fn timeout_tokens_valid(v: Seq<(u128, usize)>) -> bool {
    forall|i: int| 0 <= i < v.len() ==> (#[trigger] v[i]).1 >= 1
}

/// Answers the waiting connections whose time ran out by `now`, in the
/// order of their times: each that still waits gets a null reply and waits
/// no more. Answers the tokens whose write buffer this made non-empty, for
/// the event loop to watch them for writing.
pub fn cleanup_blocked(
    connections: &mut ConnectionSlab,
    blocked_timeouts: &mut BlockedTimeouts,
    now: u128,
) -> (r: Vec<usize>)
    requires
        timeout_tokens_valid(old(blocked_timeouts)@),
    ensures
        timeout_tokens_valid(final(blocked_timeouts)@),
        expire_waits(slab_connections(*old(connections)), timeout_queue(old(blocked_timeouts)@), now) == (
            slab_connections(*final(connections)),
            timeout_queue(final(blocked_timeouts)@),
            r@,
        ),
{
    let ghost goal = expire_waits(slab_connections(*connections), timeout_queue(blocked_timeouts@), now);
    let mut woke: Vec<usize> = Vec::new();
    loop
        invariant
            timeout_tokens_valid(blocked_timeouts@),
            goal == ({
                let rest = expire_waits(slab_connections(*connections), timeout_queue(blocked_timeouts@), now);
                (rest.0, rest.1, woke@ + rest.2)
            }),
        ensures
            timeout_tokens_valid(blocked_timeouts@),
            goal == (slab_connections(*connections), timeout_queue(blocked_timeouts@), woke@),
        decreases blocked_timeouts@.len(),
    {
        let ghost c0 = slab_connections(*connections);
        let ghost q0 = timeout_queue(blocked_timeouts@);
        if blocked_timeouts.len() == 0 {
            assert(woke@ + Seq::<usize>::empty() =~= woke@);
            break;
        }
        let i = next_timeout_index(blocked_timeouts);
        let (t, token) = blocked_timeouts[i];
        if t > now {
            assert(woke@ + Seq::<usize>::empty() =~= woke@);
            break;
        }
        let ghost e = blocked_timeouts@[i as int];
        let ghost v0 = blocked_timeouts@;
        blocked_timeouts.remove(i);
        proof {
            vstd::seq_lib::to_multiset_remove(v0, i as int);
            assert(q0.count(e) > 0) by {
                assert(v0.contains(e));
            }
            assert forall|k: int| 0 <= k < blocked_timeouts@.len() implies (#[trigger] blocked_timeouts@[k]).1 >= 1 by {
                if k < i {
                    assert(blocked_timeouts@[k] == v0[k]);
                } else {
                    assert(blocked_timeouts@[k] == v0[k + 1]);
                }
            }
        }
        let ghost w0 = woke@;
        match connection_mut(connections, token - 1) {
            Some(conn) => {
                if conn.blocked {
                    conn.blocked = false;
                    conn.block_key = None;
                    conn.block_deadline = None;
                    let was_empty = conn.write_buffer.len() == 0;
                    let reply = null_array();
                    push_bytes(&mut conn.write_buffer, reply.as_slice());
                    if was_empty {
                        woke.push(token);
                    }
                }
            },
            None => {},
        }
        proof {
            let step = time_out(c0, token);
            assert(slab_connections(*connections) == step.0);
            assert(woke@ == w0 + step.1);
            let rest = expire_waits(step.0, q0.remove(e), now);
            assert(w0 + (step.1 + rest.2) =~= woke@ + rest.2);
        }
    }
    woke
}

/// The tokens waiting on `key`, none where no queue is kept for it.
pub open spec fn waiters(bq: Map<Seq<u8>, Seq<usize>>, key: Seq<u8>) -> Seq<usize> {
    if bq.contains_key(key) {
        bq[key]
    } else {
        Seq::empty()
    }
}

/// Makes the connection `token` wait on `key`: it joins the key's queue,
/// and, where it has a deadline, the timeout queue.
pub fn block_connection(
    conn: &mut Connection,
    key: &[u8],
    token: usize,
    deadline: Option<u128>,
    blocked_queues: &mut BlockedQueues,
    blocked_timeouts: &mut BlockedTimeouts,
)
    requires
        old(blocked_queues).wf(),
    ensures
        final(blocked_queues).wf(),
        final(conn)@ == (ConnView {
            blocked: true,
            block_key: Some(key@),
            block_deadline: match deadline {
                Some(d) => Some(d),
                None => old(conn)@.block_deadline,
            },
            ..old(conn)@
        }),
        queues_view(final(blocked_queues)@) == queues_view(old(blocked_queues)@).insert(
            key@,
            waiters(queues_view(old(blocked_queues)@), key@).push(token),
        ),
        timeout_queue(final(blocked_timeouts)@) == match deadline {
            Some(d) => timeout_queue(old(blocked_timeouts)@).insert((d, token)),
            None => timeout_queue(old(blocked_timeouts)@),
        },
        final(blocked_timeouts)@ == match deadline {
            Some(d) => old(blocked_timeouts)@.push((d, token)),
            None => old(blocked_timeouts)@,
        },
{
    conn.blocked = true;
    conn.block_key = Some(copy_bytes(key));
    if let Some(d) = deadline {
        conn.block_deadline = Some(d);
        let ghost v0 = blocked_timeouts@;
        blocked_timeouts.push((d, token));
        proof {
            vstd::seq_lib::to_multiset_build(v0, (d, token));
        }
    }
    let ghost bq0 = queues_view(blocked_queues@);
    let mut queue: VecDeque<usize> = match blocked_queues.remove(key) {
        Some(q) => q,
        None => VecDeque::new(),
    };
    assert(queue@ == waiters(bq0, key@));
    queue.push_back(token);
    blocked_queues.insert(key, queue);
    assert(queues_view(blocked_queues@) =~= bq0.insert(key@, waiters(bq0, key@).push(token)));
}

/// The time in nanoseconds at which a wait of `millis` milliseconds that
/// begins at `now` runs out.
pub fn wait_deadline(now: u128, millis: u64) -> (r: u128)
    requires
        now < crate::commands::duration_nanos_limit(),
    ensures
        r == now + millis * 1_000_000,
{
    assert(millis * 1_000_000 <= u64::MAX * 1_000_000) by (nonlinear_arith);
    now + (millis as u128) * 1_000_000
}

/// How long the event loop may wait for events at time `now`: until the
/// first wait runs out, not at all where one ran out already, without
/// bound where no connection waits with a deadline.
pub fn poll_timeout(blocked_timeouts: &BlockedTimeouts, now: u128) -> (r: Option<u128>)
    ensures
        blocked_timeouts@.len() == 0 ==> r is None,
        blocked_timeouts@.len() > 0 ==> ({
            let t = next_timeout(timeout_queue(blocked_timeouts@)).0;
            r == Some(if t <= now { 0 } else { (t - now) as u128 })
        }),
{
    if blocked_timeouts.len() == 0 {
        return None;
    }
    let i = next_timeout_index(blocked_timeouts);
    let t = blocked_timeouts[i].0;
    if t <= now {
        Some(0)
    } else {
        Some(t - now)
    }
}

/// A queue that is not empty has a next entry.
pub proof fn lemma_next_timeout_exists(q: Multiset<(u128, usize)>)
    requires
        q.len() > 0,
    ensures
        is_next_timeout(q, next_timeout(q)),
    decreases q.len(),
{
    broadcast use vstd::multiset::group_multiset_axioms;

    let x = q.choose();
    let r = q.remove(x);
    assert(q.count(x) > 0);
    assert(r.len() == q.len() - 1);
    if r.len() == 0 {
        assert forall|y: (u128, usize)| q.count(y) > 0 implies times_out_before(x, y) by {
            if y != x {
                assert(r.count(y) == q.count(y));
            }
        }
        assert(is_next_timeout(q, x));
    } else {
        lemma_next_timeout_exists(r);
        let m = next_timeout(r);
        let best = if times_out_before(x, m) { x } else { m };
        assert forall|y: (u128, usize)| q.count(y) > 0 implies times_out_before(best, y) by {
            if y != x {
                assert(r.count(y) == q.count(y));
                assert(r.count(y) > 0);
                assert(times_out_before(m, y));
            }
        }
        assert(q.count(best) > 0) by {
            if best == m && m != x {
                assert(r.count(m) == q.count(m));
            }
        }
        assert(is_next_timeout(q, best));
    }
}

proof fn lemma_released_stays_released(
    conns: Map<usize, ConnView>,
    q: Multiset<(u128, usize)>,
    now: u128,
    t: usize,
)
    requires
        !waiting(conns, t),
    ensures
        !waiting(expire_waits(conns, q, now).0, t),
    decreases q.len(),
{
    let e = next_timeout(q);
    if !(q.len() == 0 || q.count(e) == 0 || e.0 > now) {
        broadcast use vstd::multiset::group_multiset_axioms;

        let step = time_out(conns, e.1);
        assert(!waiting(step.0, t));
        lemma_released_stays_released(step.0, q.remove(e), now, t);
    }
}

/// No connection waits past its deadline: once the time of an entry of the
/// timeout queue has come, its connection no longer waits after the
/// cleanup.
pub proof fn lemma_no_wait_outlives_deadline(
    conns: Map<usize, ConnView>,
    q: Multiset<(u128, usize)>,
    now: u128,
    d: u128,
    t: usize,
)
    requires
        q.count((d, t)) > 0,
        d <= now,
    ensures
        !waiting(expire_waits(conns, q, now).0, t),
    decreases q.len(),
{
    broadcast use vstd::multiset::group_multiset_axioms;

    assert(q.len() > 0);
    lemma_next_timeout_exists(q);
    let e = next_timeout(q);
    assert(times_out_before(e, (d, t)));
    let step = time_out(conns, e.1);
    assert(q.remove(e).len() == q.len() - 1);
    if e == (d, t) {
        assert(!waiting(step.0, t));
        lemma_released_stays_released(step.0, q.remove(e), now, t);
    } else {
        assert(q.remove(e).count((d, t)) == q.count((d, t)));
        lemma_no_wait_outlives_deadline(step.0, q.remove(e), now, d, t);
    }
}

/// Waiting connections are woken in the order they began to wait: a token
/// that joins the back of a key's queue, as `block_connection` puts it,
/// leaves the first waiting token of the queue first; where no queued
/// token's connection waits any more, the newcomer is the first, if its own
/// connection waits.
pub proof fn lemma_woken_in_order(q: Seq<usize>, conns: Map<usize, ConnView>, t: usize)
    ensures
        first_waiting(q, conns) is Some ==> first_waiting(q.push(t), conns) == first_waiting(q, conns),
        first_waiting(q, conns) is None && waiting(conns, t) ==> first_waiting(q.push(t), conns) == Some(
            q.len() as int,
        ),
        first_waiting(q, conns) is None && !waiting(conns, t) ==> first_waiting(q.push(t), conns) is None,
{
    let q1 = q.push(t);
    if first_waiting(q, conns) is Some {
        let j = choose|j: int| is_first_waiting(q, conns, j);
        assert(is_first_waiting(q1, conns, j)) by {
            assert forall|i: int| 0 <= i < j implies !waiting(conns, #[trigger] q1[i]) by {
                assert(q1[i] == q[i]);
            }
            assert(q1[j] == q[j]);
        }
        lemma_first_waiting(q1, conns, j);
    } else {
        assert forall|i: int| 0 <= i < q.len() implies !waiting(conns, #[trigger] q[i]) by {
            if waiting(conns, q[i]) {
                lemma_least_waiting(q, conns, i);
            }
        }
        if waiting(conns, t) {
            assert(is_first_waiting(q1, conns, q.len() as int)) by {
                assert forall|i: int| 0 <= i < q.len() implies !waiting(conns, #[trigger] q1[i]) by {
                    assert(q1[i] == q[i]);
                }
            }
            lemma_first_waiting(q1, conns, q.len() as int);
        } else {
            assert forall|j: int| !is_first_waiting(q1, conns, j) by {
                if 0 <= j < q.len() {
                    assert(q1[j] == q[j]);
                }
            }
        }
    }
}

/// Where some token of `q` up to `i` waits, one of them is the first that
/// waits.
proof fn lemma_least_waiting(q: Seq<usize>, conns: Map<usize, ConnView>, i: int)
    requires
        0 <= i < q.len(),
        waiting(conns, q[i]),
    ensures
        first_waiting(q, conns) is Some,
    decreases i,
{
    if exists|k: int| 0 <= k < i && waiting(conns, #[trigger] q[k]) {
        let k = choose|k: int| 0 <= k < i && waiting(conns, #[trigger] q[k]);
        lemma_least_waiting(q, conns, k);
    } else {
        assert(is_first_waiting(q, conns, i));
    }
}

} // verus!
