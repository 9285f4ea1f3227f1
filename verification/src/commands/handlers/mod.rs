//! The command handlers. Each takes the command's arguments and the context
//! of the connection that sent it, and answers a reply (`Ok`) or an error
//! (`Err`), both as RESP bytes.
pub mod general;
pub mod lists;
pub mod pubsub;
pub mod streams;
pub mod strings;

use vstd::prelude::*;
use crate::commands::{CommandKind, CtxState, Context, allowed_when_subscribed, state, ctx_wf, args_view};
use crate::commands::handlers::general::{ping, echo, typee, ping_behaves, echo_behaves, type_behaves};
use crate::commands::handlers::strings::{get, set_admits, set_behaves, get_behaves};
use crate::commands::handlers::lists::{rpush, lpush, lrange, llen, lpop, blpop, rpush_behaves,
    lpush_behaves, lrange_admits, lrange_behaves, llen_behaves, lpop_admits, lpop_behaves,
    blpop_behaves};
use crate::commands::handlers::pubsub::{subscribe, publish, unsubscribe, subscribe_behaves,
    publish_behaves, unsubscribe_behaves};
use crate::commands::handlers::streams::{xadd, xadd_admits, xadd_behaves};

verus! {

/// The bytes of a handler's answer.
pub open spec fn reply_view(r: Result<Vec<u8>, Vec<u8>>) -> Result<Seq<u8>, Seq<u8>> {
    match r {
        Ok(v) => Ok(v@),
        Err(e) => Err(e@),
    }
}

/// A connection in subscribed mode may not run handler `k`.
pub open spec fn refused(k: CommandKind, s: CtxState) -> bool {
    s.is_pubsub && !allowed_when_subscribed(k)
}

/// The clocks and the connection's token are as they were.
pub open spec fn same_frame(a: &Context, b: &Context) -> bool {
    a.now == b.now && a.wall_ms == b.wall_ms && a.token == b.token
}

/// Only the keyspace and the expiry queue may differ.
pub open spec fn conn_unchanged(s0: CtxState, s1: CtxState) -> bool {
    &&& s1.pubsub == s0.pubsub
    &&& s1.subscriptions == s0.subscriptions
    &&& s1.is_pubsub == s0.is_pubsub
    &&& s1.actions == s0.actions
}

/// Handler `k` may run on arguments `a` in state `s`: what it reads as a
/// number or as text is one.
pub open spec fn admits(k: CommandKind, a: Seq<Seq<u8>>, s: CtxState) -> bool {
    match k {
        CommandKind::SetValue => set_admits(a, s),
        CommandKind::Lrange => lrange_admits(a, s),
        CommandKind::Lpop => lpop_admits(a, s),
        CommandKind::Xadd => xadd_admits(a, s),
        _ => true,
    }
}

/// What handler `k` does on arguments `a`, from state `s0` to state `s1`,
/// at time `now`, for the connection `token`.
pub open spec fn behaves(
    k: CommandKind,
    a: Seq<Seq<u8>>,
    s0: CtxState,
    s1: CtxState,
    now: u128,
    token: usize,
    reply: Result<Seq<u8>, Seq<u8>>,
) -> bool {
    match k {
        CommandKind::Ping => ping_behaves(a, s0, s1, reply),
        CommandKind::Echo => echo_behaves(a, s0, s1, reply),
        CommandKind::SetValue => set_behaves(a, s0, s1, now, reply),
        CommandKind::Get => get_behaves(a, s0, s1, now, reply),
        CommandKind::Rpush => rpush_behaves(a, s0, s1, reply),
        CommandKind::Lrange => lrange_behaves(a, s0, s1, reply),
        CommandKind::Lpush => lpush_behaves(a, s0, s1, reply),
        CommandKind::Llen => llen_behaves(a, s0, s1, reply),
        CommandKind::Lpop => lpop_behaves(a, s0, s1, reply),
        CommandKind::Blpop => blpop_behaves(a, s0, s1, reply),
        CommandKind::Subscribe => subscribe_behaves(a, s0, s1, token, reply),
        CommandKind::Publish => publish_behaves(a, s0, s1, reply),
        CommandKind::Unsubscribe => unsubscribe_behaves(a, s0, s1, token, reply),
        CommandKind::Type => type_behaves(a, s0, s1, reply),
        CommandKind::Xadd => xadd_behaves(a, s0, s1, reply),
    }
}

/// Runs the handler of `k`.
pub fn execute(k: CommandKind, args: &[&[u8]], ctx: &mut Context) -> (r: Result<Vec<u8>, Vec<u8>>)
    requires
        ctx_wf(&*old(ctx)),
        admits(k, args_view(args), state(&*old(ctx))),
    ensures
        ctx_wf(&*final(ctx)),
        same_frame(&*final(ctx), &*old(ctx)),
        behaves(
            k,
            args_view(args),
            state(&*old(ctx)),
            state(&*final(ctx)),
            old(ctx).now,
            old(ctx).token,
            reply_view(r),
        ),
{
    match k {
        CommandKind::Ping => ping(args, ctx),
        CommandKind::Echo => echo(args, ctx),
        CommandKind::SetValue => crate::commands::handlers::strings::set(args, ctx),
        CommandKind::Get => get(args, ctx),
        CommandKind::Rpush => rpush(args, ctx),
        CommandKind::Lrange => lrange(args, ctx),
        CommandKind::Lpush => lpush(args, ctx),
        CommandKind::Llen => llen(args, ctx),
        CommandKind::Lpop => lpop(args, ctx),
        CommandKind::Blpop => blpop(args, ctx),
        CommandKind::Subscribe => subscribe(args, ctx),
        CommandKind::Publish => publish(args, ctx),
        CommandKind::Unsubscribe => unsubscribe(args, ctx),
        CommandKind::Type => typee(args, ctx),
        CommandKind::Xadd => xadd(args, ctx),
    }
}

/// A connection in subscribed mode runs no command but PING, SUBSCRIBE
/// and UNSUBSCRIBE: any other answers the refusal and changes nothing.
pub proof fn lemma_subscribed_mode_refuses(
    k: CommandKind,
    a: Seq<Seq<u8>>,
    s0: CtxState,
    s1: CtxState,
    now: u128,
    token: usize,
    reply: Result<Seq<u8>, Seq<u8>>,
)
    requires
        s0.is_pubsub,
        !allowed_when_subscribed(k),
        behaves(k, a, s0, s1, now, token, reply),
    ensures
        s1 == s0,
        reply == Err::<Seq<u8>, Seq<u8>>(crate::commands::blocked_error(k)),
{
    assert(refused(k, s0));
}

} // verus!
