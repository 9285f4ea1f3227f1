//! PING, ECHO and TYPE.
use vstd::prelude::*;
use crate::commands::{Context, CommandKind, CtxState, state, ctx_wf, args_view, blocked_error, subscribed_mode_refusal};
use crate::commands::handlers::{reply_view, refused, same_frame};
use crate::commands::messages::{
    pong, pong_msg, pubsub_pong, pubsub_pong_msg, empty_bulk_msg, wrong_args, wrong_args_msg,
    missing_key, missing_key_msg, type_list, type_list_msg, type_string, type_string_msg,
    type_stream, type_stream_msg, type_none, type_none_msg,
};
use crate::reply::{bulk, push_bulk, push_bytes};
use crate::types::Value;

verus! {

/// PING's reply: `PONG`, or its first argument as a bulk string; in
/// subscribed mode both come after a `pong` header.
pub open spec fn ping_reply(args: Seq<Seq<u8>>, is_pubsub: bool) -> Seq<u8> {
    if args.len() > 0 {
        (if is_pubsub { pubsub_pong_msg() } else { Seq::empty() }) + bulk(args[0])
    } else if is_pubsub {
        pubsub_pong_msg() + empty_bulk_msg()
    } else {
        pong_msg()
    }
}

/// What PING does: it answers and changes nothing.
pub open spec fn ping_behaves(a: Seq<Seq<u8>>, s0: CtxState, s1: CtxState, reply: Result<Seq<u8>, Seq<u8>>) -> bool {
    s1 == s0 && reply == Ok::<Seq<u8>, Seq<u8>>(ping_reply(a, s0.is_pubsub))
}

/// PING [message]
pub fn ping(args: &[&[u8]], ctx: &mut Context) -> (r: Result<Vec<u8>, Vec<u8>>)
    requires
        ctx_wf(&*old(ctx)),
    ensures
        ctx_wf(&*final(ctx)),
        same_frame(&*final(ctx), &*old(ctx)),
        ping_behaves(args_view(args), state(&*old(ctx)), state(&*final(ctx)), reply_view(r)),
{
    if args.len() > 0 {
        let arg = args[0];
        let mut res: Vec<u8> = if *ctx.is_pubsub { pubsub_pong() } else { Vec::new() };
        push_bulk(&mut res, arg);
        Ok(res)
    } else if *ctx.is_pubsub {
        let mut res = pubsub_pong();
        push_bytes(&mut res, crate::commands::messages::empty_bulk().as_slice());
        Ok(res)
    } else {
        Ok(pong())
    }
}

/// ECHO's reply: its first argument as a bulk string.
pub open spec fn echo_reply(args: Seq<Seq<u8>>) -> Result<Seq<u8>, Seq<u8>> {
    if args.len() == 0 {
        Err(wrong_args_msg())
    } else {
        Ok(bulk(args[0]))
    }
}

/// What ECHO does: it answers and changes nothing.
pub open spec fn echo_behaves(a: Seq<Seq<u8>>, s0: CtxState, s1: CtxState, reply: Result<Seq<u8>, Seq<u8>>) -> bool {
    &&& s1 == s0
    &&& reply == if refused(CommandKind::Echo, s0) {
        Err(blocked_error(CommandKind::Echo))
    } else {
        echo_reply(a)
    }
}

/// ECHO message
pub fn echo(args: &[&[u8]], ctx: &mut Context) -> (r: Result<Vec<u8>, Vec<u8>>)
    requires
        ctx_wf(&*old(ctx)),
    ensures
        ctx_wf(&*final(ctx)),
        same_frame(&*final(ctx), &*old(ctx)),
        echo_behaves(args_view(args), state(&*old(ctx)), state(&*final(ctx)), reply_view(r)),
{
    if let Some(e) = subscribed_mode_refusal(CommandKind::Echo, *ctx.is_pubsub) {
        return Err(e);
    }
    if args.len() == 0 {
        Err(wrong_args())
    } else {
        Ok(crate::reply::bulk_reply(args[0]))
    }
}

/// TYPE's reply: the kind of value the key holds, `none` where it holds
/// none.
pub open spec fn type_reply(args: Seq<Seq<u8>>, s: CtxState) -> Result<Seq<u8>, Seq<u8>> {
    if args.len() == 0 {
        Err(missing_key_msg())
    } else if s.db.contains_key(args[0]) {
        Ok(match s.db[args[0]].value {
            Value::List(_) => type_list_msg(),
            Value::String(_) => type_string_msg(),
            Value::Stream(_) => type_stream_msg(),
        })
    } else {
        Err(type_none_msg())
    }
}

/// What TYPE does: it answers and changes nothing.
pub open spec fn type_behaves(a: Seq<Seq<u8>>, s0: CtxState, s1: CtxState, reply: Result<Seq<u8>, Seq<u8>>) -> bool {
    &&& s1 == s0
    &&& reply == if refused(CommandKind::Type, s0) {
        Err(blocked_error(CommandKind::Type))
    } else {
        type_reply(a, s0)
    }
}

/// TYPE key
pub fn typee(args: &[&[u8]], ctx: &mut Context) -> (r: Result<Vec<u8>, Vec<u8>>)
    requires
        ctx_wf(&*old(ctx)),
    ensures
        ctx_wf(&*final(ctx)),
        same_frame(&*final(ctx), &*old(ctx)),
        type_behaves(args_view(args), state(&*old(ctx)), state(&*final(ctx)), reply_view(r)),
{
    if let Some(e) = subscribed_mode_refusal(CommandKind::Type, *ctx.is_pubsub) {
        return Err(e);
    }
    if args.len() == 0 {
        return Err(missing_key());
    }
    let key = args[0];
    match ctx.db.get(key) {
        Some(entry) => match &entry.value {
            Value::List(_) => Ok(type_list()),
            Value::String(_) => Ok(type_string()),
            Value::Stream(_) => Ok(type_stream()),
        },
        None => Err(type_none()),
    }
}

} // verus!
