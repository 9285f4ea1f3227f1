use slab::Slab;

use redrumdb::commands::{Action, Context};
use redrumdb::server::admission::request_admissible;
use redrumdb::server::blocking::{
    block_connection, cleanup_blocked, poll_timeout, wait_deadline, wake_client, BlockedQueues,
    BlockedTimeouts,
};
use redrumdb::server::connection::{Connection, ConnectionSlab};
use redrumdb::server::event::{answer_request, deliver_actions, Step};
use redrumdb::server::expiry::{bytes_less, cleanup_expired};
use redrumdb::data_structures::stream::{Stream, StreamID};
use redrumdb::types::{ByteMap, Db, Entry, Expiries, PubSub, Value};

fn string_entry(v: &[u8], expiry: Option<u128>) -> Entry {
    Entry { value: Value::String(v.to_vec()), expiry }
}

#[test]
fn bytes_less_is_byte_order() {
    assert!(bytes_less(b"a", b"b"));
    assert!(bytes_less(b"ab", b"abc"));
    assert!(!bytes_less(b"abc", b"ab"));
    assert!(!bytes_less(b"x", b"x"));
    assert!(bytes_less(b"", b"a"));
}

#[test]
fn cleanup_removes_due_keys() {
    let mut db: Db = ByteMap::new();
    db.insert(b"a", string_entry(b"1", Some(10)));
    db.insert(b"b", string_entry(b"2", Some(20)));
    db.insert(b"c", string_entry(b"3", Some(30)));
    let mut expiries: Expiries = vec![(30, b"c".to_vec()), (10, b"a".to_vec()), (20, b"b".to_vec())];
    cleanup_expired(&mut db, &mut expiries, 20);
    assert!(db.get(b"a").is_none());
    assert!(db.get(b"b").is_none());
    assert!(db.get(b"c").is_some());
    assert_eq!(expiries, vec![(30u128, b"c".to_vec())]);
}

#[test]
fn cleanup_skips_keys_set_again() {
    let mut db: Db = ByteMap::new();
    db.insert(b"a", string_entry(b"new", None));
    let mut expiries: Expiries = vec![(5, b"a".to_vec())];
    cleanup_expired(&mut db, &mut expiries, 100);
    assert!(db.get(b"a").is_some());
    assert!(expiries.is_empty());
}

#[test]
fn cleanup_is_bounded() {
    let mut db: Db = ByteMap::new();
    let mut expiries: Expiries = Vec::new();
    for i in 0..200u32 {
        let key = format!("k{}", i).into_bytes();
        db.insert(&key, string_entry(b"v", Some(1)));
        expiries.push((1, key));
    }
    cleanup_expired(&mut db, &mut expiries, 5);
    assert_eq!(expiries.len(), 30);
    let mut left = 0;
    for i in 0..200u32 {
        let key = format!("k{}", i).into_bytes();
        if db.get(&key).is_some() {
            left += 1;
        }
    }
    assert_eq!(left, 30);
}

#[test]
fn cleanup_takes_greater_key_first_on_ties() {
    let mut db: Db = ByteMap::new();
    let mut expiries: Expiries = Vec::new();
    for i in 0..171u32 {
        let key = format!("k{:03}", i).into_bytes();
        db.insert(&key, string_entry(b"v", Some(1)));
        expiries.push((1, key));
    }
    cleanup_expired(&mut db, &mut expiries, 1);
    assert_eq!(expiries, vec![(1u128, b"k000".to_vec())]);
    assert!(db.get(b"k000").is_some());
    assert!(db.get(b"k170").is_none());
}

#[test]
fn connection_starts_idle() {
    let c = Connection::new();
    assert!(c.read_buffer.is_empty());
    assert!(c.write_buffer.is_empty());
    assert!(!c.blocked);
    assert!(c.block_key.is_none());
    assert!(c.block_deadline.is_none());
    assert!(c.subscriptions.is_empty());
    assert!(!c.is_pubsub);
}

#[test]
fn block_then_wake_with_item() {
    let mut slab: ConnectionSlab = Slab::new();
    let idx = slab.insert(Connection::new());
    let token = idx + 1;
    let mut queues: BlockedQueues = ByteMap::new();
    let mut timeouts: BlockedTimeouts = Vec::new();
    block_connection(&mut slab[idx], b"l", token, Some(500), &mut queues, &mut timeouts);
    assert!(slab[idx].blocked);
    assert_eq!(slab[idx].block_key, Some(b"l".to_vec()));
    assert_eq!(slab[idx].block_deadline, Some(500));
    assert_eq!(timeouts, vec![(500u128, token)]);

    let mut db: Db = ByteMap::new();
    db.insert(b"l", Entry { value: Value::List(vec![b"x".to_vec()].into_iter().collect()), expiry: None });
    let woke = wake_client(b"l", &mut db, &mut queues, &mut slab);
    assert_eq!(woke, Some(token));
    assert!(!slab[idx].blocked);
    assert_eq!(slab[idx].write_buffer, b"*2\r\n$1\r\nl\r\n$1\r\nx\r\n".to_vec());
    match db.get(b"l") {
        Some(Entry { value: Value::List(l), .. }) => assert!(l.is_empty()),
        _ => panic!("list gone"),
    }
    assert_eq!(queues.get(b"l").map(|q| q.len()), Some(0));
}

#[test]
fn wake_skips_gone_connections_and_fills_in_order() {
    let mut slab: ConnectionSlab = Slab::new();
    let a = slab.insert(Connection::new());
    let b = slab.insert(Connection::new());
    let mut queues: BlockedQueues = ByteMap::new();
    let mut timeouts: BlockedTimeouts = Vec::new();
    block_connection(&mut slab[a], b"l", a + 1, None, &mut queues, &mut timeouts);
    block_connection(&mut slab[b], b"l", b + 1, None, &mut queues, &mut timeouts);
    assert!(timeouts.is_empty());
    slab[a].blocked = false;
    let mut db: Db = ByteMap::new();
    let woke = wake_client(b"l", &mut db, &mut queues, &mut slab);
    assert_eq!(woke, None);
    assert!(!slab[b].blocked);
    assert!(slab[b].write_buffer.is_empty());
    assert_eq!(queues.get(b"l").map(|q| q.len()), Some(0));
}

#[test]
fn wake_without_queue_does_nothing() {
    let mut slab: ConnectionSlab = Slab::new();
    let mut queues: BlockedQueues = ByteMap::new();
    let mut db: Db = ByteMap::new();
    assert_eq!(wake_client(b"l", &mut db, &mut queues, &mut slab), None);
}

#[test]
fn timed_out_waits_get_null() {
    let mut slab: ConnectionSlab = Slab::new();
    let a = slab.insert(Connection::new());
    let b = slab.insert(Connection::new());
    let mut queues: BlockedQueues = ByteMap::new();
    let mut timeouts: BlockedTimeouts = Vec::new();
    block_connection(&mut slab[a], b"l", a + 1, Some(100), &mut queues, &mut timeouts);
    block_connection(&mut slab[b], b"m", b + 1, Some(300), &mut queues, &mut timeouts);
    assert_eq!(poll_timeout(&timeouts, 40), Some(60));
    let woke = cleanup_blocked(&mut slab, &mut timeouts, 200);
    assert_eq!(woke, vec![a + 1]);
    assert_eq!(slab[a].write_buffer, b"*-1\r\n".to_vec());
    assert!(!slab[a].blocked);
    assert!(slab[b].blocked);
    assert_eq!(timeouts, vec![(300u128, b + 1)]);
    assert_eq!(poll_timeout(&timeouts, 400), Some(0));
    assert_eq!(poll_timeout(&Vec::new(), 400), None);
}

#[test]
fn wait_deadline_counts_milliseconds() {
    assert_eq!(wait_deadline(5, 2), 2_000_005);
}

fn answer(db: &mut Db, pubsub: &mut PubSub, actions: &mut Vec<Action>, conn: &mut Connection, req: &[u8]) -> Step {
    let mut expiries: Expiries = Vec::new();
    conn.read_buffer.extend_from_slice(req);
    let mut ctx = Context {
        db,
        expiries: &mut expiries,
        pubsub,
        subscriptions: &mut conn.subscriptions,
        is_pubsub: &mut conn.is_pubsub,
        token: 1,
        actions,
        now: 0,
        wall_ms: Some(0),
    };
    answer_request(&mut conn.read_buffer, &mut conn.write_buffer, &mut ctx)
}

#[test]
fn answer_request_runs_handlers() {
    let mut db: Db = ByteMap::new();
    let mut pubsub: PubSub = ByteMap::new();
    let mut actions: Vec<Action> = Vec::new();
    let mut conn = Connection::new();
    let step = answer(&mut db, &mut pubsub, &mut actions, &mut conn, b"*3\r\n$3\r\nset\r\n$1\r\nk\r\n$1\r\nv\r\n");
    assert!(matches!(step, Step::Answered { wake: None }));
    assert_eq!(conn.write_buffer, b"+OK\r\n".to_vec());
    assert!(conn.read_buffer.is_empty());
    let step = answer(&mut db, &mut pubsub, &mut actions, &mut conn, b"*3\r\n$5\r\nRPUSH\r\n$1\r\nl\r\n$1\r\na\r\n");
    match step {
        Step::Answered { wake } => assert_eq!(wake, Some(b"l".to_vec())),
        _ => panic!("blocked"),
    }
    assert_eq!(conn.write_buffer, b"+OK\r\n:1\r\n".to_vec());
}

#[test]
fn answer_request_errors() {
    let mut db: Db = ByteMap::new();
    let mut pubsub: PubSub = ByteMap::new();
    let mut actions: Vec<Action> = Vec::new();
    let mut conn = Connection::new();
    answer(&mut db, &mut pubsub, &mut actions, &mut conn, b"hello");
    assert_eq!(conn.write_buffer, b"-ERR invalid RESP\r\n".to_vec());
    conn.write_buffer.clear();
    answer(&mut db, &mut pubsub, &mut actions, &mut conn, b"*1\r\n$4\r\nNOPE\r\n");
    assert_eq!(conn.write_buffer, b"-ERR unknown command\r\n".to_vec());
    conn.write_buffer.clear();
    answer(&mut db, &mut pubsub, &mut actions, &mut conn, b"*1\r\n$4\r\necho\r\n");
    assert_eq!(conn.write_buffer, b"-ERR wrong number of arguments\r\n".to_vec());
}

#[test]
fn answer_request_blocks() {
    let mut db: Db = ByteMap::new();
    let mut pubsub: PubSub = ByteMap::new();
    let mut actions: Vec<Action> = Vec::new();
    let mut conn = Connection::new();
    let req = b"*3\r\n$5\r\nBLPOP\r\n$1\r\nq\r\n$3\r\n1.5\r\n";
    let step = answer(&mut db, &mut pubsub, &mut actions, &mut conn, req);
    match step {
        Step::Block { key, timeout } => {
            assert_eq!(key, b"q".to_vec());
            assert_eq!(timeout, b"1.5".to_vec());
        }
        _ => panic!("answered"),
    }
    assert!(conn.write_buffer.is_empty());
    assert_eq!(conn.read_buffer, req.to_vec());
}

#[test]
fn published_messages_reach_subscribers() {
    let mut slab: ConnectionSlab = Slab::new();
    let a = slab.insert(Connection::new());
    let b = slab.insert(Connection::new());
    slab[b].write_buffer.extend_from_slice(b"pending");
    let mut pubsub: PubSub = ByteMap::new();
    pubsub.insert(b"c", vec![a + 1, b + 1, 99]);
    let mut actions = vec![Action::Publish { channel: b"c".to_vec(), message: b"hi".to_vec() }];
    let watch = deliver_actions(&mut actions, &pubsub, &mut slab);
    assert!(actions.is_empty());
    assert_eq!(watch, vec![a + 1]);
    assert_eq!(slab[a].write_buffer, b"*3\r\n$7\r\nmessage\r\n$1\r\nc\r\n$2\r\nhi\r\n".to_vec());
    assert_eq!(slab[b].write_buffer, b"pending*3\r\n$7\r\nmessage\r\n$1\r\nc\r\n$2\r\nhi\r\n".to_vec());
}

fn admissible(db: &mut Db, req: &[u8]) -> bool {
    admissible_at(db, req, Some(0))
}

fn admissible_at(db: &mut Db, req: &[u8], wall_ms: Option<u64>) -> bool {
    let mut expiries: Expiries = Vec::new();
    let mut pubsub: PubSub = ByteMap::new();
    let mut subs: Vec<Vec<u8>> = Vec::new();
    let mut is_pubsub = false;
    let mut actions: Vec<Action> = Vec::new();
    let ctx = Context {
        db,
        expiries: &mut expiries,
        pubsub: &mut pubsub,
        subscriptions: &mut subs,
        is_pubsub: &mut is_pubsub,
        token: 1,
        actions: &mut actions,
        now: 0,
        wall_ms,
    };
    request_admissible(req, &ctx)
}

#[test]
fn admission_of_requests() {
    let mut db: Db = ByteMap::new();
    assert!(admissible(&mut db, b"*3\r\n$3\r\nSET\r\n$1\r\nk\r\n$1\r\nv\r\n"));
    assert!(admissible(&mut db, b"garbage"));
    assert!(admissible(&mut db, b"*1\r\n$7\r\nUNKNOWN\r\n"));
    assert!(!admissible(&mut db, b"*4\r\n$3\r\nSET\r\n$1\r\nk\r\n$1\r\nv\r\n$2\r\n\xff\xff\r\n"));
    assert!(!admissible(&mut db, b"*5\r\n$3\r\nSET\r\n$1\r\nk\r\n$1\r\nv\r\n$2\r\nEX\r\n$1\r\n\xff\r\n"));
    let long = format!("*1\r\n$33\r\n{}\r\n", "A".repeat(33));
    assert!(!admissible(&mut db, long.as_bytes()));
    assert!(!admissible(&mut db, b"*0\r\n$4\r\nPING\r\n"));
}

#[test]
fn admission_of_numbers_depends_on_the_key() {
    let mut db: Db = ByteMap::new();
    let lrange = b"*4\r\n$6\r\nLRANGE\r\n$1\r\nl\r\n$1\r\nx\r\n$1\r\n1\r\n";
    assert!(admissible(&mut db, lrange));
    db.insert(b"l", Entry { value: Value::List(vec![b"a".to_vec()].into_iter().collect()), expiry: None });
    assert!(!admissible(&mut db, lrange));
    assert!(!admissible(&mut db, b"*3\r\n$4\r\nLPOP\r\n$1\r\nl\r\n$2\r\n-1\r\n"));
    assert!(admissible(&mut db, b"*3\r\n$4\r\nLPOP\r\n$1\r\nl\r\n$1\r\n2\r\n"));
}

#[test]
fn admission_of_stream_ids() {
    let mut db: Db = ByteMap::new();
    assert!(admissible(&mut db, b"*5\r\n$4\r\nXADD\r\n$1\r\ns\r\n$3\r\n1-1\r\n$1\r\nf\r\n$1\r\nv\r\n"));
    assert!(!admissible(&mut db, b"*3\r\n$4\r\nXADD\r\n$1\r\ns\r\n$22\r\n99999999999999999999-1\r\n"));
    assert!(admissible(&mut db, b"*3\r\n$4\r\nXADD\r\n$1\r\ns\r\n$3\r\nx-1\r\n"));
}

#[test]
fn first_to_block_is_first_woken() {
    let mut slab: ConnectionSlab = Slab::new();
    let a = slab.insert(Connection::new());
    let b = slab.insert(Connection::new());
    let mut queues: BlockedQueues = ByteMap::new();
    let mut timeouts: BlockedTimeouts = Vec::new();
    block_connection(&mut slab[b], b"l", b + 1, None, &mut queues, &mut timeouts);
    block_connection(&mut slab[a], b"l", a + 1, None, &mut queues, &mut timeouts);
    let mut db: Db = ByteMap::new();
    db.insert(
        b"l",
        Entry { value: Value::List(vec![b"x".to_vec(), b"y".to_vec()].into_iter().collect()), expiry: None },
    );
    assert_eq!(wake_client(b"l", &mut db, &mut queues, &mut slab), Some(b + 1));
    assert!(slab[a].blocked);
    assert_eq!(slab[b].write_buffer, b"*2\r\n$1\r\nl\r\n$1\r\nx\r\n".to_vec());
    assert_eq!(wake_client(b"l", &mut db, &mut queues, &mut slab), Some(a + 1));
    assert_eq!(slab[a].write_buffer, b"*2\r\n$1\r\nl\r\n$1\r\ny\r\n".to_vec());
}

#[test]
fn admission_of_clock_ids_depends_on_the_clock() {
    let mut db: Db = ByteMap::new();
    let mut st = Stream::new();
    let f: Vec<(&[u8], &[u8])> = vec![(b"k", b"v")];
    st.add(StreamID { ms: 5, seq: u64::MAX }, &f).unwrap();
    db.insert(b"s", Entry { value: Value::Stream(st), expiry: None });
    let req = b"*5\r\n$4\r\nXADD\r\n$1\r\ns\r\n$1\r\n*\r\n$1\r\nf\r\n$1\r\nv\r\n";
    assert!(!admissible_at(&mut db, req, Some(5)));
    assert!(admissible_at(&mut db, req, Some(6)));
    assert!(admissible_at(&mut db, req, None));
}
