use std::collections::VecDeque;

use redrumdb::commands::handlers::general::{echo, ping, typee};
use redrumdb::commands::handlers::lists::{blpop, llen, lpop, lpush, lrange, rpush};
use redrumdb::commands::handlers::pubsub::{publish, subscribe, unsubscribe};
use redrumdb::commands::handlers::streams::xadd;
use redrumdb::commands::handlers::strings::get;
use redrumdb::commands::handlers::execute;
use redrumdb::commands::{Action, CommandKind, Context};
use redrumdb::data_structures::listpack::ListpackValueRef;
use redrumdb::data_structures::stream::StreamID;
use redrumdb::types::{ByteMap, Db, Entry, Expiries, PubSub, Value};

type Handler = fn(&[&[u8]], &mut Context) -> Result<Vec<u8>, Vec<u8>>;

struct World {
    db: Db,
    expiries: Expiries,
    pubsub: PubSub,
    subscriptions: Vec<Vec<u8>>,
    is_pubsub: bool,
    actions: Vec<Action>,
    token: usize,
    wall_ms: Option<u64>,
}

impl World {
    fn new() -> Self {
        World {
            db: ByteMap::new(),
            expiries: Vec::new(),
            pubsub: ByteMap::new(),
            subscriptions: Vec::new(),
            is_pubsub: false,
            actions: Vec::new(),
            token: 1,
            wall_ms: Some(1_700_000_000_000),
        }
    }

    fn run_at(&mut self, h: Handler, args: &[&[u8]], now: u128) -> Result<Vec<u8>, Vec<u8>> {
        let mut ctx = Context {
            db: &mut self.db,
            expiries: &mut self.expiries,
            pubsub: &mut self.pubsub,
            subscriptions: &mut self.subscriptions,
            is_pubsub: &mut self.is_pubsub,
            token: self.token,
            actions: &mut self.actions,
            now,
            wall_ms: self.wall_ms,
        };
        h(args, &mut ctx)
    }

    fn run(&mut self, h: Handler, args: &[&[u8]]) -> Result<Vec<u8>, Vec<u8>> {
        self.run_at(h, args, 1_000)
    }
}

fn ok(s: &[u8]) -> Result<Vec<u8>, Vec<u8>> {
    Ok(s.to_vec())
}

fn err(s: &[u8]) -> Result<Vec<u8>, Vec<u8>> {
    Err(s.to_vec())
}

#[test]
fn ping_answers_pong() {
    let mut w = World::new();
    assert_eq!(w.run(ping, &[]), ok(b"+PONG\r\n"));
    assert_eq!(w.run(ping, &[b"hi"]), ok(b"$2\r\nhi\r\n"));
}

#[test]
fn ping_in_subscribed_mode() {
    let mut w = World::new();
    w.is_pubsub = true;
    assert_eq!(w.run(ping, &[]), ok(b"*2\r\n$4\r\npong\r\n$0\r\n\r\n"));
    assert_eq!(w.run(ping, &[b"x"]), ok(b"*2\r\n$4\r\npong\r\n$1\r\nx\r\n"));
}

#[test]
fn echo_answers_argument() {
    let mut w = World::new();
    assert_eq!(w.run(echo, &[b"hello"]), ok(b"$5\r\nhello\r\n"));
    assert_eq!(w.run(echo, &[]), err(b"-ERR wrong number of arguments\r\n"));
}

#[test]
fn set_then_get() {
    let mut w = World::new();
    assert_eq!(w.run(redrumdb::commands::handlers::strings::set, &[b"k", b"v1"]), ok(b"+OK\r\n"));
    assert_eq!(w.run(get, &[b"k"]), ok(b"$2\r\nv1\r\n"));
    assert_eq!(w.run(redrumdb::commands::handlers::strings::set, &[b"k", b"v2"]), ok(b"+OK\r\n"));
    assert_eq!(w.run(get, &[b"k"]), ok(b"$2\r\nv2\r\n"));
    assert!(w.expiries.is_empty());
}

#[test]
fn get_missing_key_is_nil() {
    let mut w = World::new();
    assert_eq!(w.run(get, &[b"nope"]), ok(b"$-1\r\n"));
}

#[test]
fn set_and_get_argument_errors() {
    let mut w = World::new();
    assert_eq!(w.run(redrumdb::commands::handlers::strings::set, &[]), err(b"-ERR missing key"));
    assert_eq!(w.run(redrumdb::commands::handlers::strings::set, &[b"k"]), err(b"-ERR missing value"));
    assert_eq!(w.run(redrumdb::commands::handlers::strings::set, &[b"k", b"v", b"EX"]), err(b"-ERR missing EX value"));
    assert_eq!(w.run(redrumdb::commands::handlers::strings::set, &[b"k", b"v", b"px", b"ten"]), err(b"-ERR invalid EX/PX value"));
    assert_eq!(w.run(redrumdb::commands::handlers::strings::set, &[b"k", b"v", b"EX", b"-1"]), err(b"-ERR invalid EX/PX value"));
    assert_eq!(w.run(get, &[]), err(b"-ERR missing key"));
    assert_eq!(w.run(get, &[b"k"]), ok(b"$-1\r\n"));
}

#[test]
fn set_with_ex_expires() {
    let mut w = World::new();
    assert_eq!(w.run_at(redrumdb::commands::handlers::strings::set, &[b"k", b"v", b"ex", b"2"], 1_000), ok(b"+OK\r\n"));
    assert_eq!(w.expiries, vec![(2_000_001_000u128, b"k".to_vec())]);
    assert_eq!(w.run_at(get, &[b"k"], 2_000_000_999), ok(b"$1\r\nv\r\n"));
    assert_eq!(w.run_at(get, &[b"k"], 2_000_001_000), ok(b"$-1\r\n"));
    assert!(w.db.get(b"k").is_none());
}

#[test]
fn set_with_px_counts_milliseconds() {
    let mut w = World::new();
    assert_eq!(w.run_at(redrumdb::commands::handlers::strings::set, &[b"k", b"v", b"PX", b"+15"], 0), ok(b"+OK\r\n"));
    assert_eq!(w.expiries, vec![(15_000_000u128, b"k".to_vec())]);
    match w.db.get(b"k") {
        Some(Entry { value: Value::String(v), expiry }) => {
            assert_eq!(v, &b"v".to_vec());
            assert_eq!(*expiry, Some(15_000_000));
        }
        _ => panic!("no string stored"),
    }
}

#[test]
fn set_with_other_option_stores_without_expiry() {
    let mut w = World::new();
    assert_eq!(w.run(redrumdb::commands::handlers::strings::set, &[b"k", b"v", b"NX"]), ok(b"+OK\r\n"));
    assert!(w.expiries.is_empty());
    assert_eq!(w.run_at(get, &[b"k"], u128::MAX), ok(b"$1\r\nv\r\n"));
}

#[test]
fn get_of_list_is_wrong_type() {
    let mut w = World::new();
    w.run(rpush, &[b"l", b"a"]).unwrap();
    assert_eq!(
        w.run(get, &[b"l"]),
        err(b"-WRONGTYPE Operation against a key holding the wrong kind of value\r\n")
    );
}

#[test]
fn rpush_and_lrange() {
    let mut w = World::new();
    assert_eq!(w.run(rpush, &[b"l", b"a", b"b"]), ok(b":2\r\n"));
    assert_eq!(w.run(rpush, &[b"l", b"c"]), ok(b":3\r\n"));
    assert_eq!(w.run(lrange, &[b"l", b"0", b"-1"]), ok(b"*3\r\n$1\r\na\r\n$1\r\nb\r\n$1\r\nc\r\n"));
    assert_eq!(w.run(lrange, &[b"l", b"1", b"1"]), ok(b"*1\r\n$1\r\nb\r\n"));
    assert_eq!(w.run(lrange, &[b"l", b"-2", b"10"]), ok(b"*2\r\n$1\r\nb\r\n$1\r\nc\r\n"));
    assert_eq!(w.run(lrange, &[b"l", b"2", b"1"]), ok(b"*0\r\n"));
    assert_eq!(w.run(lrange, &[b"l", b"5", b"9"]), ok(b"*0\r\n"));
    assert_eq!(w.run(lrange, &[b"l", b"-100", b"0"]), ok(b"*1\r\n$1\r\na\r\n"));
}

#[test]
fn lrange_errors_and_missing_key() {
    let mut w = World::new();
    assert_eq!(w.run(lrange, &[]), err(b"-ERR missing key"));
    assert_eq!(w.run(lrange, &[b"l"]), err(b"-ERR missing start"));
    assert_eq!(w.run(lrange, &[b"l", b"0"]), err(b"-ERR missing stop"));
    assert_eq!(w.run(lrange, &[b"l", b"0", b"1"]), ok(b"*0\r\n"));
    w.run(redrumdb::commands::handlers::strings::set, &[b"s", b"v"]).unwrap();
    assert_eq!(
        w.run(lrange, &[b"s", b"0", b"1"]),
        err(b"-WRONGTYPE Operation against a key holding the wrong kind of value\r\n")
    );
}

#[test]
fn lpush_reverses() {
    let mut w = World::new();
    assert_eq!(w.run(lpush, &[b"l", b"a", b"b", b"c"]), ok(b":3\r\n"));
    assert_eq!(w.run(lrange, &[b"l", b"0", b"-1"]), ok(b"*3\r\n$1\r\nc\r\n$1\r\nb\r\n$1\r\na\r\n"));
}

#[test]
fn push_errors() {
    let mut w = World::new();
    assert_eq!(w.run(rpush, &[]), err(b"-ERR missing key"));
    assert_eq!(w.run(rpush, &[b"l"]), err(b"-ERR wrong number of arguments\r\n"));
    assert_eq!(w.run(lpush, &[b"l"]), err(b"-ERR wrong number of arguments\r\n"));
}

#[test]
fn push_replaces_a_string() {
    let mut w = World::new();
    w.run(redrumdb::commands::handlers::strings::set, &[b"k", b"v"]).unwrap();
    assert_eq!(w.run(rpush, &[b"k", b"x"]), ok(b":1\r\n"));
    assert_eq!(w.run(llen, &[b"k"]), ok(b":1\r\n"));
}

#[test]
fn push_keeps_list_expiry() {
    let mut w = World::new();
    w.run(rpush, &[b"l", b"a"]).unwrap();
    if let Some(e) = w.db.get_mut(b"l") {
        e.expiry = Some(77);
    }
    w.run(rpush, &[b"l", b"b"]).unwrap();
    match w.db.get(b"l") {
        Some(Entry { value: Value::List(l), expiry }) => {
            assert_eq!(*expiry, Some(77));
            let expected: VecDeque<Vec<u8>> = vec![b"a".to_vec(), b"b".to_vec()].into_iter().collect();
            assert_eq!(l, &expected);
        }
        _ => panic!("no list stored"),
    }
}

#[test]
fn llen_cases() {
    let mut w = World::new();
    assert_eq!(w.run(llen, &[b"l"]), ok(b":0\r\n"));
    w.run(rpush, &[b"l", b"a", b"b"]).unwrap();
    assert_eq!(w.run(llen, &[b"l"]), ok(b":2\r\n"));
    assert_eq!(w.run(llen, &[]), err(b"-ERR missing key"));
    w.run(redrumdb::commands::handlers::strings::set, &[b"s", b"v"]).unwrap();
    assert_eq!(
        w.run(llen, &[b"s"]),
        err(b"-WRONGTYPE Operation against a key holding the wrong kind of value\r\n")
    );
}

#[test]
fn lpop_one_and_many() {
    let mut w = World::new();
    w.run(rpush, &[b"l", b"a", b"b", b"c", b"d"]).unwrap();
    assert_eq!(w.run(lpop, &[b"l"]), ok(b"$1\r\na\r\n"));
    assert_eq!(w.run(lpop, &[b"l", b"2"]), ok(b"*2\r\n$1\r\nb\r\n$1\r\nc\r\n"));
    assert_eq!(w.run(lpop, &[b"l", b"1"]), ok(b"$1\r\nd\r\n"));
    assert_eq!(w.run(lpop, &[b"l"]), ok(b"$-1\r\n"));
    assert_eq!(w.run(llen, &[b"l"]), ok(b":0\r\n"));
}

#[test]
fn lpop_count_past_length_and_zero() {
    let mut w = World::new();
    w.run(rpush, &[b"l", b"a", b"b"]).unwrap();
    assert_eq!(w.run(lpop, &[b"l", b"0"]), ok(b"*0\r\n"));
    assert_eq!(w.run(lpop, &[b"l", b"10"]), ok(b"*2\r\n$1\r\na\r\n$1\r\nb\r\n"));
}

#[test]
fn lpop_errors() {
    let mut w = World::new();
    assert_eq!(w.run(lpop, &[]), err(b"-ERR missing key"));
    assert_eq!(w.run(lpop, &[b"none"]), ok(b"$-1\r\n"));
    w.run(redrumdb::commands::handlers::strings::set, &[b"s", b"v"]).unwrap();
    assert_eq!(
        w.run(lpop, &[b"s"]),
        err(b"-WRONGTYPE Operation against a key holding the wrong kind of value\r\n")
    );
}

#[test]
fn blpop_pops_or_blocks() {
    let mut w = World::new();
    assert_eq!(w.run(blpop, &[b"l", b"0"]), err(b"__BLOCK__"));
    w.run(rpush, &[b"l", b"a"]).unwrap();
    assert_eq!(w.run(blpop, &[b"l", b"0"]), ok(b"*2\r\n$1\r\nl\r\n$1\r\na\r\n"));
    assert_eq!(w.run(blpop, &[b"l", b"0"]), err(b"__BLOCK__"));
    assert_eq!(w.run(blpop, &[]), err(b"-ERR missing key"));
    assert_eq!(w.run(blpop, &[b"l"]), err(b"-ERR missing timeout"));
}

#[test]
fn type_reports_kind() {
    let mut w = World::new();
    w.run(redrumdb::commands::handlers::strings::set, &[b"s", b"v"]).unwrap();
    w.run(rpush, &[b"l", b"v"]).unwrap();
    w.run(xadd, &[b"x", b"1-1", b"f", b"v"]).unwrap();
    assert_eq!(w.run(typee, &[b"s"]), ok(b"+string\r\n"));
    assert_eq!(w.run(typee, &[b"l"]), ok(b"+list\r\n"));
    assert_eq!(w.run(typee, &[b"x"]), ok(b"+stream\r\n"));
    assert_eq!(w.run(typee, &[b"n"]), err(b"+none\r\n"));
    assert_eq!(w.run(typee, &[]), err(b"-ERR missing key"));
}

#[test]
fn subscribe_publish_unsubscribe() {
    let mut w = World::new();
    w.token = 3;
    assert_eq!(
        w.run(subscribe, &[b"news"]),
        ok(b"*3\r\n$9\r\nsubscribe\r\n$4\r\nnews\r\n:1\r\n")
    );
    assert!(w.is_pubsub);
    assert_eq!(w.pubsub.get(b"news"), Some(&vec![3usize]));
    assert_eq!(
        w.run(unsubscribe, &[b"news"]),
        ok(b"*3\r\n$11\r\nunsubscribe\r\n$4\r\nnews\r\n:0\r\n")
    );
    assert_eq!(w.pubsub.get(b"news"), Some(&Vec::<usize>::new()));
    assert!(w.subscriptions.is_empty());
    assert!(w.is_pubsub);
}

#[test]
fn publish_counts_subscribers_and_leaves_action() {
    let mut w = World::new();
    w.token = 2;
    w.run(subscribe, &[b"c"]).unwrap();
    let mut other = World::new();
    std::mem::swap(&mut other.pubsub, &mut w.pubsub);
    assert_eq!(other.run(publish, &[b"c", b"hello"]), ok(b":1\r\n"));
    assert_eq!(other.run(publish, &[b"d", b"x"]), ok(b":0\r\n"));
    assert_eq!(other.actions.len(), 2);
    match &other.actions[0] {
        Action::Publish { channel, message } => {
            assert_eq!(channel, &b"c".to_vec());
            assert_eq!(message, &b"hello".to_vec());
        }
    }
    assert_eq!(other.run(publish, &[b"c"]), err(b"-ERR missing key"));
}

#[test]
fn subscribe_and_unsubscribe_errors() {
    let mut w = World::new();
    assert_eq!(w.run(subscribe, &[]), err(b"-ERR missing key"));
    assert_eq!(w.run(unsubscribe, &[b"c"]), ok(b"-Err not in subscribed mode"));
    w.run(subscribe, &[b"c"]).unwrap();
    assert_eq!(w.run(unsubscribe, &[]), err(b"-ERR missing key"));
    assert_eq!(
        w.run(unsubscribe, &[b"other"]),
        ok(b"*3\r\n$11\r\nunsubscribe\r\n$5\r\nother\r\n:1\r\n")
    );
}

#[test]
fn subscribed_mode_refuses_other_commands() {
    let mut w = World::new();
    w.run(subscribe, &[b"c"]).unwrap();
    assert_eq!(
        w.run(get, &[b"k"]),
        err(b"-ERR Can't execute 'get': only (P|S)SUBSCRIBE / (P|S)UNSUBSCRIBE / PING / QUIT / RESET are allowed in this context\r\n")
    );
    assert_eq!(
        w.run(typee, &[b"k"]),
        err(b"-ERR Can't execute 'typee': only (P|S)SUBSCRIBE / (P|S)UNSUBSCRIBE / PING / QUIT / RESET are allowed in this context\r\n")
    );
    assert_eq!(
        w.run(redrumdb::commands::handlers::strings::set, &[b"k", b"v"]),
        err(b"-ERR Can't execute 'set': only (P|S)SUBSCRIBE / (P|S)UNSUBSCRIBE / PING / QUIT / RESET are allowed in this context\r\n")
    );
    assert!(w.db.get(b"k").is_none());
}

#[test]
fn xadd_adds_entries() {
    let mut w = World::new();
    assert_eq!(w.run(xadd, &[b"s", b"1-1", b"f", b"v"]), ok(b"$3\r\n1-1\r\n"));
    assert_eq!(w.run(xadd, &[b"s", b"1-*", b"f", b"v"]), ok(b"$3\r\n1-2\r\n"));
    assert_eq!(w.run(xadd, &[b"s", b"20-*"]), ok(b"$4\r\n20-0\r\n"));
    assert_eq!(
        w.run(xadd, &[b"s", b"20-0", b"f", b"v"]),
        err(b"-ERR The ID specified in XADD is equal or smaller than the target stream top item\r\n")
    );
}

#[test]
fn xadd_errors() {
    let mut w = World::new();
    assert_eq!(w.run(xadd, &[]), err(b"-ERR missing key"));
    assert_eq!(w.run(xadd, &[b"s"]), err(b"-ERR missing entry id"));
    assert_eq!(
        w.run(xadd, &[b"s", b"0-0", b"f", b"v"]),
        err(b"-ERR The ID specified in XADD must be greater than 0-0\r\n")
    );
    assert_eq!(w.run(xadd, &[b"s", b"1-1", b"f"]), err(b"-ERR wrong number of arguments"));
    assert_eq!(w.run(xadd, &[b"s", b"x", b"f", b"v"]), err(b"-ERR invalid stream id"));
    assert!(w.db.get(b"s").is_none());
}

#[test]
fn xadd_star_takes_the_clock() {
    let mut w = World::new();
    assert_eq!(w.run(xadd, &[b"s", b"*", b"f", b"v"]), ok(b"$15\r\n1700000000000-0\r\n"));
    assert_eq!(w.run(xadd, &[b"s", b"*", b"f", b"v"]), ok(b"$15\r\n1700000000000-1\r\n"));
    w.wall_ms = Some(1_700_000_000_001);
    assert_eq!(w.run(xadd, &[b"s", b"*", b"f", b"v"]), ok(b"$15\r\n1700000000001-0\r\n"));
}

#[test]
fn xadd_star_with_clock_before_1970() {
    let mut w = World::new();
    w.wall_ms = None;
    assert_eq!(w.run(xadd, &[b"s", b"*", b"f", b"v"]), err(b"-ERR Time went backwards"));
    assert!(w.db.get(b"s").is_none());
    assert_eq!(w.run(xadd, &[b"s", b"4-2", b"f", b"v"]), ok(b"$3\r\n4-2\r\n"));
}

#[test]
fn xadd_replaces_a_string() {
    let mut w = World::new();
    w.run(redrumdb::commands::handlers::strings::set, &[b"k", b"v"]).unwrap();
    assert_eq!(w.run(xadd, &[b"k", b"3-3", b"a", b"b"]), ok(b"$3\r\n3-3\r\n"));
    assert_eq!(w.run(typee, &[b"k"]), ok(b"+stream\r\n"));
}

#[test]
fn execute_dispatches_by_kind() {
    let mut w = World::new();
    let mut ctx = Context {
        db: &mut w.db,
        expiries: &mut w.expiries,
        pubsub: &mut w.pubsub,
        subscriptions: &mut w.subscriptions,
        is_pubsub: &mut w.is_pubsub,
        token: 1,
        actions: &mut w.actions,
        now: 0,
        wall_ms: Some(0),
    };
    assert_eq!(execute(CommandKind::SetValue, &[b"a", b"1"], &mut ctx), ok(b"+OK\r\n"));
    assert_eq!(execute(CommandKind::Get, &[b"a"], &mut ctx), ok(b"$1\r\n1\r\n"));
    assert_eq!(execute(CommandKind::Ping, &[], &mut ctx), ok(b"+PONG\r\n"));
}

#[test]
fn xadd_entry_is_found_under_its_id() {
    let mut w = World::new();
    assert_eq!(w.run(xadd, &[b"s", b"5-1", b"temp", b"21", b"unit", b"C"]), ok(b"$3\r\n5-1\r\n"));
    assert_eq!(w.run(xadd, &[b"s", b"5-*", b"temp", b"22"]), ok(b"$3\r\n5-2\r\n"));
    match w.db.get_mut(b"s") {
        Some(Entry { value: Value::Stream(st), .. }) => {
            assert_eq!(
                st.get(StreamID { ms: 5, seq: 1 }).unwrap(),
                vec![
                    ListpackValueRef::String(b"temp"),
                    ListpackValueRef::Int(21),
                    ListpackValueRef::String(b"unit"),
                    ListpackValueRef::String(b"C"),
                ]
            );
            assert_eq!(
                st.get(StreamID { ms: 5, seq: 2 }).unwrap(),
                vec![ListpackValueRef::String(b"temp"), ListpackValueRef::Int(22)]
            );
        }
        _ => panic!("no stream"),
    }
}
