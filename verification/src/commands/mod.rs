//! Commands: the request parser, the handlers and the table that finds a
//! handler by the command's name.
pub mod handlers;
pub mod messages;
pub mod parser;

use vstd::prelude::*;
use crate::types::{Db, Expiries, PubSub, Entry, db_wf, expiries_view};
use crate::commands::messages::{blocked_prefix, blocked_suffix, blocked_prefix_msg, blocked_suffix_msg};

pub use parser::{normalize_upper, parse_command, parse_bulk_string, read_line, Command};

verus! {

/// Work a handler leaves to the event loop.
pub enum Action {
    Publish { channel: Vec<u8>, message: Vec<u8> },
}

/// The channel and message of an action.
pub open spec fn action_view(a: Action) -> (Seq<u8>, Seq<u8>) {
    match a {
        Action::Publish { channel, message } => (channel@, message@),
    }
}

/// What a handler works on: the keyspace, the expiry queue, the channels,
/// the state of the connection that sent the command, the time, in
/// nanoseconds on the server's clock, and the wall clock, in milliseconds
/// since the Unix epoch (nothing where it reads before 1970).
pub struct Context<'a> {
    pub db: &'a mut Db,
    pub expiries: &'a mut Expiries,
    pub pubsub: &'a mut PubSub,
    pub subscriptions: &'a mut Vec<Vec<u8>>,
    pub is_pubsub: &'a mut bool,
    pub token: usize,
    pub actions: &'a mut Vec<Action>,
    pub now: u128,
    pub wall_ms: Option<u64>,
}

/// The arguments' contents.
pub open spec fn args_view(args: &[&[u8]]) -> Seq<Seq<u8>> {
    args@.map_values(|a: &[u8]| a@)
}

/// The state a handler can change, and the wall clock it reads.
pub struct CtxState {
    pub wall_ms: Option<u64>,
    pub db: Map<Seq<u8>, Entry>,
    pub expiries: Seq<(u128, Seq<u8>)>,
    pub pubsub: Map<Seq<u8>, Seq<usize>>,
    pub subscriptions: Seq<Seq<u8>>,
    pub is_pubsub: bool,
    pub actions: Seq<(Seq<u8>, Seq<u8>)>,
}

/// The state of a context.
pub open spec fn state(c: &Context) -> CtxState {
    CtxState {
        wall_ms: c.wall_ms,
        db: c.db@,
        expiries: expiries_view(c.expiries@),
        pubsub: c.pubsub@.map_values(|v: Vec<usize>| v@),
        subscriptions: c.subscriptions@.map_values(|v: Vec<u8>| v@),
        is_pubsub: *c.is_pubsub,
        actions: c.actions@.map_values(|a: Action| action_view(a)),
    }
}

/// Nanoseconds that a `Duration` can hold: whole seconds in a `u64`, and
/// less than a second more.
pub open spec fn duration_nanos_limit() -> int {
    (u64::MAX as int + 1) * 1_000_000_000
}

/// The keyspace and the channel table are well formed, and the clock reads
/// a time that a `Duration` can hold.
pub open spec fn ctx_wf(c: &Context) -> bool {
    db_wf(c.db) && c.pubsub.wf() && c.now < duration_nanos_limit()
}

/// The commands the server knows.
#[derive(Clone, Copy, PartialEq, Eq, Structural, Debug)]
pub enum CommandKind {
    Ping,
    Echo,
    SetValue,
    Get,
    Rpush,
    Lrange,
    Lpush,
    Llen,
    Lpop,
    Blpop,
    Subscribe,
    Publish,
    Unsubscribe,
    Type,
    Xadd,
}

/// The name a command is found by, in upper case.
pub open spec fn command_name(k: CommandKind) -> Seq<u8> {
    match k {
        CommandKind::Ping => seq![80u8, 73, 78, 71],
        CommandKind::Echo => seq![69u8, 67, 72, 79],
        CommandKind::SetValue => seq![83u8, 69, 84],
        CommandKind::Get => seq![71u8, 69, 84],
        CommandKind::Rpush => seq![82u8, 80, 85, 83, 72],
        CommandKind::Lrange => seq![76u8, 82, 65, 78, 71, 69],
        CommandKind::Lpush => seq![76u8, 80, 85, 83, 72],
        CommandKind::Llen => seq![76u8, 76, 69, 78],
        CommandKind::Lpop => seq![76u8, 80, 79, 80],
        CommandKind::Blpop => seq![66u8, 76, 80, 79, 80],
        CommandKind::Subscribe => seq![83u8, 85, 66, 83, 67, 82, 73, 66, 69],
        CommandKind::Publish => seq![80u8, 85, 66, 76, 73, 83, 72],
        CommandKind::Unsubscribe => seq![85u8, 78, 83, 85, 66, 83, 67, 82, 73, 66, 69],
        CommandKind::Type => seq![84u8, 89, 80, 69],
        CommandKind::Xadd => seq![88u8, 65, 68, 68],
    }
}

/// Distinct commands have distinct names.
pub proof fn lemma_command_name_injective(a: CommandKind, b: CommandKind)
    requires
        command_name(a) == command_name(b),
    ensures
        a == b,
{
    let s = command_name(a);
    let t = command_name(b);
    assert(s.len() == t.len());
    assert(s[0] == t[0]);
    assert(s[1] == t[1]);
}

/// The command whose name is `name`, if there is one.
pub open spec fn command_named(name: Seq<u8>) -> Option<CommandKind> {
    if exists|k: CommandKind| command_name(k) == name {
        Some(choose|k: CommandKind| command_name(k) == name)
    } else {
        None
    }
}

proof fn lemma_named(k: CommandKind, name: Seq<u8>)
    requires
        command_name(k) == name,
    ensures
        command_named(name) == Some(k),
{
    let c = choose|c: CommandKind| command_name(c) == name;
    lemma_command_name_injective(c, k);
}

/// The table finds each command by its name in capital letters, and by no
/// other name: `PING`, `ECHO`, `SET`, `GET`, `RPUSH`, `LRANGE`, `LPUSH`,
/// `LLEN`, `LPOP`, `BLPOP`, `SUBSCRIBE`, `PUBLISH`, `UNSUBSCRIBE`, `TYPE`
/// and `XADD` name the commands of the same names.
pub proof fn lemma_command_table_names(name: Seq<u8>)
    ensures
        command_named(seq![80u8, 73, 78, 71]) == Some(CommandKind::Ping),
        command_named(seq![69u8, 67, 72, 79]) == Some(CommandKind::Echo),
        command_named(seq![83u8, 69, 84]) == Some(CommandKind::SetValue),
        command_named(seq![71u8, 69, 84]) == Some(CommandKind::Get),
        command_named(seq![82u8, 80, 85, 83, 72]) == Some(CommandKind::Rpush),
        command_named(seq![76u8, 82, 65, 78, 71, 69]) == Some(CommandKind::Lrange),
        command_named(seq![76u8, 80, 85, 83, 72]) == Some(CommandKind::Lpush),
        command_named(seq![76u8, 76, 69, 78]) == Some(CommandKind::Llen),
        command_named(seq![76u8, 80, 79, 80]) == Some(CommandKind::Lpop),
        command_named(seq![66u8, 76, 80, 79, 80]) == Some(CommandKind::Blpop),
        command_named(seq![83u8, 85, 66, 83, 67, 82, 73, 66, 69]) == Some(CommandKind::Subscribe),
        command_named(seq![80u8, 85, 66, 76, 73, 83, 72]) == Some(CommandKind::Publish),
        command_named(seq![85u8, 78, 83, 85, 66, 83, 67, 82, 73, 66, 69]) == Some(CommandKind::Unsubscribe),
        command_named(seq![84u8, 89, 80, 69]) == Some(CommandKind::Type),
        command_named(seq![88u8, 65, 68, 68]) == Some(CommandKind::Xadd),
        command_named(name) is Some ==> {
            ||| name == seq![80u8, 73, 78, 71]
            ||| name == seq![69u8, 67, 72, 79]
            ||| name == seq![83u8, 69, 84]
            ||| name == seq![71u8, 69, 84]
            ||| name == seq![82u8, 80, 85, 83, 72]
            ||| name == seq![76u8, 82, 65, 78, 71, 69]
            ||| name == seq![76u8, 80, 85, 83, 72]
            ||| name == seq![76u8, 76, 69, 78]
            ||| name == seq![76u8, 80, 79, 80]
            ||| name == seq![66u8, 76, 80, 79, 80]
            ||| name == seq![83u8, 85, 66, 83, 67, 82, 73, 66, 69]
            ||| name == seq![80u8, 85, 66, 76, 73, 83, 72]
            ||| name == seq![85u8, 78, 83, 85, 66, 83, 67, 82, 73, 66, 69]
            ||| name == seq![84u8, 89, 80, 69]
            ||| name == seq![88u8, 65, 68, 68]
        },
{
    lemma_named(CommandKind::Ping, seq![80u8, 73, 78, 71]);
    lemma_named(CommandKind::Echo, seq![69u8, 67, 72, 79]);
    lemma_named(CommandKind::SetValue, seq![83u8, 69, 84]);
    lemma_named(CommandKind::Get, seq![71u8, 69, 84]);
    lemma_named(CommandKind::Rpush, seq![82u8, 80, 85, 83, 72]);
    lemma_named(CommandKind::Lrange, seq![76u8, 82, 65, 78, 71, 69]);
    lemma_named(CommandKind::Lpush, seq![76u8, 80, 85, 83, 72]);
    lemma_named(CommandKind::Llen, seq![76u8, 76, 69, 78]);
    lemma_named(CommandKind::Lpop, seq![76u8, 80, 79, 80]);
    lemma_named(CommandKind::Blpop, seq![66u8, 76, 80, 79, 80]);
    lemma_named(CommandKind::Subscribe, seq![83u8, 85, 66, 83, 67, 82, 73, 66, 69]);
    lemma_named(CommandKind::Publish, seq![80u8, 85, 66, 76, 73, 83, 72]);
    lemma_named(CommandKind::Unsubscribe, seq![85u8, 78, 83, 85, 66, 83, 67, 82, 73, 66, 69]);
    lemma_named(CommandKind::Type, seq![84u8, 89, 80, 69]);
    lemma_named(CommandKind::Xadd, seq![88u8, 65, 68, 68]);
    if command_named(name) is Some {
        let k = choose|k: CommandKind| command_name(k) == name;
        assert(command_name(k) == name);
    }
}

/// The handler's own name, as the subscribed-mode refusal spells it.
pub open spec fn handler_name(k: CommandKind) -> Seq<u8> {
    match k {
        CommandKind::Ping => seq![112u8, 105, 110, 103],
        CommandKind::Echo => seq![101u8, 99, 104, 111],
        CommandKind::SetValue => seq![115u8, 101, 116],
        CommandKind::Get => seq![103u8, 101, 116],
        CommandKind::Rpush => seq![114u8, 112, 117, 115, 104],
        CommandKind::Lrange => seq![108u8, 114, 97, 110, 103, 101],
        CommandKind::Lpush => seq![108u8, 112, 117, 115, 104],
        CommandKind::Llen => seq![108u8, 108, 101, 110],
        CommandKind::Lpop => seq![108u8, 112, 111, 112],
        CommandKind::Blpop => seq![98u8, 108, 112, 111, 112],
        CommandKind::Subscribe => seq![115u8, 117, 98, 115, 99, 114, 105, 98, 101],
        CommandKind::Publish => seq![112u8, 117, 98, 108, 105, 115, 104],
        CommandKind::Unsubscribe => seq![117u8, 110, 115, 117, 98, 115, 99, 114, 105, 98, 101],
        CommandKind::Type => seq![116u8, 121, 112, 101, 101],
        CommandKind::Xadd => seq![120u8, 97, 100, 100],
    }
}

/// The handlers that a connection in subscribed mode may run.
pub open spec fn allowed_when_subscribed(k: CommandKind) -> bool {
    k == CommandKind::Ping || k == CommandKind::Subscribe || k == CommandKind::Unsubscribe
}

/// The refusal of a command in subscribed mode.
pub open spec fn blocked_error(k: CommandKind) -> Seq<u8> {
    blocked_prefix_msg() + handler_name(k) + blocked_suffix_msg()
}

/// The handler's own name.
pub fn handler_name_bytes(k: CommandKind) -> (r: Vec<u8>)
    ensures
        r@ == handler_name(k),
{
    let v: Vec<u8> = match k {
        CommandKind::Ping => vec![112u8, 105, 110, 103],
        CommandKind::Echo => vec![101u8, 99, 104, 111],
        CommandKind::SetValue => vec![115u8, 101, 116],
        CommandKind::Get => vec![103u8, 101, 116],
        CommandKind::Rpush => vec![114u8, 112, 117, 115, 104],
        CommandKind::Lrange => vec![108u8, 114, 97, 110, 103, 101],
        CommandKind::Lpush => vec![108u8, 112, 117, 115, 104],
        CommandKind::Llen => vec![108u8, 108, 101, 110],
        CommandKind::Lpop => vec![108u8, 112, 111, 112],
        CommandKind::Blpop => vec![98u8, 108, 112, 111, 112],
        CommandKind::Subscribe => vec![115u8, 117, 98, 115, 99, 114, 105, 98, 101],
        CommandKind::Publish => vec![112u8, 117, 98, 108, 105, 115, 104],
        CommandKind::Unsubscribe => vec![117u8, 110, 115, 117, 98, 115, 99, 114, 105, 98, 101],
        CommandKind::Type => vec![116u8, 121, 112, 101, 101],
        CommandKind::Xadd => vec![120u8, 97, 100, 100],
    };
    assert(v@ == handler_name(k));
    v
}

/// The refusal that a handler answers in subscribed mode, unless it is one
/// that subscribed mode allows.
pub fn subscribed_mode_refusal(k: CommandKind, is_pubsub: bool) -> (r: Option<Vec<u8>>)
    ensures
        match r {
            Some(e) => is_pubsub && !allowed_when_subscribed(k) && e@ == blocked_error(k),
            None => !(is_pubsub && !allowed_when_subscribed(k)),
        },
{
    if is_pubsub && !(k == CommandKind::Ping || k == CommandKind::Subscribe || k == CommandKind::Unsubscribe) {
        let mut res = blocked_prefix();
        let name = handler_name_bytes(k);
        crate::reply::push_bytes(&mut res, name.as_slice());
        let suffix = blocked_suffix();
        crate::reply::push_bytes(&mut res, suffix.as_slice());
        Some(res)
    } else {
        None
    }
}

/// Finds the command named `name` (in upper case).
pub fn lookup_command(name: &[u8]) -> (r: Option<CommandKind>)
    ensures
        r == command_named(name@),
{
    let r = find_command(name);
    proof {
        if let Some(k) = r {
            let c = choose|c: CommandKind| command_name(c) == name@;
            lemma_command_name_injective(c, k);
        }
    }
    r
}

/// Command `k` has an entry in `table`.
pub open spec fn listed(table: Seq<(Vec<u8>, CommandKind)>, k: CommandKind) -> bool {
    exists|i: int| 0 <= i < table.len() && (#[trigger] table[i]).1 == k
}

/// Every command, by its name in upper case.
pub fn command_table() -> (r: Vec<(Vec<u8>, CommandKind)>)
    ensures
        forall|i: int| 0 <= i < r@.len() ==> (#[trigger] r@[i]).0@ == command_name(r@[i].1),
        forall|k: CommandKind| #[trigger] listed(r@, k),
{
    let kinds: [CommandKind; 15] = [
        CommandKind::Ping,
        CommandKind::Echo,
        CommandKind::SetValue,
        CommandKind::Get,
        CommandKind::Rpush,
        CommandKind::Lrange,
        CommandKind::Lpush,
        CommandKind::Llen,
        CommandKind::Lpop,
        CommandKind::Blpop,
        CommandKind::Subscribe,
        CommandKind::Publish,
        CommandKind::Unsubscribe,
        CommandKind::Type,
        CommandKind::Xadd,
    ];
    let mut table: Vec<(Vec<u8>, CommandKind)> = Vec::new();
    let mut i: usize = 0;
    while i < 15
        invariant
            i <= 15,
            table@.len() == i,
            kinds@ == seq![
                CommandKind::Ping,
                CommandKind::Echo,
                CommandKind::SetValue,
                CommandKind::Get,
                CommandKind::Rpush,
                CommandKind::Lrange,
                CommandKind::Lpush,
                CommandKind::Llen,
                CommandKind::Lpop,
                CommandKind::Blpop,
                CommandKind::Subscribe,
                CommandKind::Publish,
                CommandKind::Unsubscribe,
                CommandKind::Type,
                CommandKind::Xadd,
            ],
            forall|j: int| 0 <= j < i ==> (#[trigger] table@[j]).1 == kinds@[j],
            forall|j: int| 0 <= j < i ==> (#[trigger] table@[j]).0@ == command_name(table@[j].1),
        decreases 15 - i,
    {
        let k = kinds[i];
        table.push((command_name_bytes(k), k));
        i = i + 1;
    }
    assert forall|k: CommandKind| #[trigger] listed(table@, k) by {
        match k {
            CommandKind::Ping => assert(table@[0].1 == k),
            CommandKind::Echo => assert(table@[1].1 == k),
            CommandKind::SetValue => assert(table@[2].1 == k),
            CommandKind::Get => assert(table@[3].1 == k),
            CommandKind::Rpush => assert(table@[4].1 == k),
            CommandKind::Lrange => assert(table@[5].1 == k),
            CommandKind::Lpush => assert(table@[6].1 == k),
            CommandKind::Llen => assert(table@[7].1 == k),
            CommandKind::Lpop => assert(table@[8].1 == k),
            CommandKind::Blpop => assert(table@[9].1 == k),
            CommandKind::Subscribe => assert(table@[10].1 == k),
            CommandKind::Publish => assert(table@[11].1 == k),
            CommandKind::Unsubscribe => assert(table@[12].1 == k),
            CommandKind::Type => assert(table@[13].1 == k),
            CommandKind::Xadd => assert(table@[14].1 == k),
        }
    }
    table
}

fn find_command(name: &[u8]) -> (r: Option<CommandKind>)
    ensures
        match r {
            Some(k) => command_name(k) == name@,
            None => forall|k: CommandKind| command_name(k) != name@,
        },
{
    let table = command_table();
    let mut i: usize = 0;
    while i < table.len()
        invariant
            i <= table@.len(),
            forall|j: int| 0 <= j < table@.len() ==> (#[trigger] table@[j]).0@ == command_name(table@[j].1),
            forall|k: CommandKind| #[trigger] listed(table@, k),
            forall|j: int| 0 <= j < i ==> command_name((#[trigger] table@[j]).1) != name@,
        decreases table@.len() - i,
    {
        if crate::types::bytes_eq(table[i].0.as_slice(), name) {
            return Some(table[i].1);
        }
        i = i + 1;
    }
    assert forall|k: CommandKind| command_name(k) != name@ by {
        assert(listed(table@, k));
        let j = choose|j: int| 0 <= j < table@.len() && (#[trigger] table@[j]).1 == k;
        assert(command_name(table@[j].1) != name@);
    }
    None
}

fn command_name_bytes(k: CommandKind) -> (r: Vec<u8>)
    ensures
        r@ == command_name(k),
{
    let v: Vec<u8> = match k {
        CommandKind::Ping => vec![80u8, 73, 78, 71],
        CommandKind::Echo => vec![69u8, 67, 72, 79],
        CommandKind::SetValue => vec![83u8, 69, 84],
        CommandKind::Get => vec![71u8, 69, 84],
        CommandKind::Rpush => vec![82u8, 80, 85, 83, 72],
        CommandKind::Lrange => vec![76u8, 82, 65, 78, 71, 69],
        CommandKind::Lpush => vec![76u8, 80, 85, 83, 72],
        CommandKind::Llen => vec![76u8, 76, 69, 78],
        CommandKind::Lpop => vec![76u8, 80, 79, 80],
        CommandKind::Blpop => vec![66u8, 76, 80, 79, 80],
        CommandKind::Subscribe => vec![83u8, 85, 66, 83, 67, 82, 73, 66, 69],
        CommandKind::Publish => vec![80u8, 85, 66, 76, 73, 83, 72],
        CommandKind::Unsubscribe => vec![85u8, 78, 83, 85, 66, 83, 67, 82, 73, 66, 69],
        CommandKind::Type => vec![84u8, 89, 80, 69],
        CommandKind::Xadd => vec![88u8, 65, 68, 68],
    };
    assert(v@ == command_name(k));
    v
}

} // verus!
