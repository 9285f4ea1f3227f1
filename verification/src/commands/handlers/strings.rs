//! SET and GET.
use vstd::prelude::*;
use crate::commands::{Context, CommandKind, CtxState, state, ctx_wf, args_view, blocked_error,
    subscribed_mode_refusal};
use crate::commands::handlers::{reply_view, refused, same_frame, conn_unchanged};
use crate::commands::messages::{
    missing_key, missing_key_msg, missing_value, missing_value_msg, missing_ex_value,
    missing_ex_value_msg, invalid_ex_value, invalid_ex_value_msg, ok, ok_msg, nil, nil_msg,
    wrong_type, wrong_type_msg,
};
use crate::data_structures::bytes::copy_bytes;
use crate::decimal::{decimal_u64, parse_u64};
use crate::reply::{bulk, bulk_reply};
use crate::types::{Entry, Value, holds_string, changed_only_at, expiries_view};

verus! {

/// Nanoseconds per unit of the option `opt`: `EX` counts seconds, `PX`
/// milliseconds, in any case.
pub open spec fn ttl_unit(opt: Seq<u8>) -> Option<u128> {
    if opt.len() == 2 && (opt[1] == 120 || opt[1] == 88) {
        if opt[0] == 101 || opt[0] == 69 {
            Some(1_000_000_000)
        } else if opt[0] == 112 || opt[0] == 80 {
            Some(1_000_000)
        } else {
            None
        }
    } else {
        None
    }
}

/// SET reads its option, and the number after `EX` or `PX`, as UTF-8 text.
pub open spec fn set_text_valid(args: Seq<Seq<u8>>) -> bool {
    &&& args.len() > 2 ==> vstd::utf8::valid_utf8(args[2])
    &&& args.len() > 3 && ttl_unit(args[2]) is Some ==> vstd::utf8::valid_utf8(args[3])
}

/// What SET does at time `now`: the error it answers, or the time at which
/// the key expires, if it does.
pub open spec fn set_outcome(args: Seq<Seq<u8>>, now: u128) -> Result<Option<u128>, Seq<u8>> {
    if args.len() == 0 {
        Err(missing_key_msg())
    } else if args.len() == 1 {
        Err(missing_value_msg())
    } else if args.len() > 2 && ttl_unit(args[2]) is Some {
        if args.len() == 3 {
            Err(missing_ex_value_msg())
        } else {
            match decimal_u64(args[3]) {
                None => Err(invalid_ex_value_msg()),
                Some(n) => Ok(Some((now + n * ttl_unit(args[2])->0) as u128)),
            }
        }
    } else {
        Ok(None)
    }
}

pub(crate) fn ttl_unit_of(opt: &[u8]) -> (r: Option<u128>)
    ensures
        r == ttl_unit(opt@),
{
    if opt.len() == 2 && (opt[1] == 120u8 || opt[1] == 88u8) {
        if opt[0] == 101u8 || opt[0] == 69u8 {
            Some(1_000_000_000u128)
        } else if opt[0] == 112u8 || opt[0] == 80u8 {
            Some(1_000_000u128)
        } else {
            None
        }
    } else {
        None
    }
}

/// SET may run on these arguments: what it reads as text is text.
pub open spec fn set_admits(a: Seq<Seq<u8>>, s0: CtxState) -> bool {
    !refused(CommandKind::SetValue, s0) ==> set_text_valid(a)
}

/// What SET does at time `now`: it stores the value, with its expiry time
/// if it has one, which also joins the expiry queue.
pub open spec fn set_behaves(
    a: Seq<Seq<u8>>,
    s0: CtxState,
    s1: CtxState,
    now: u128,
    reply: Result<Seq<u8>, Seq<u8>>,
) -> bool {
    if refused(CommandKind::SetValue, s0) {
        s1 == s0 && reply == Err::<Seq<u8>, Seq<u8>>(blocked_error(CommandKind::SetValue))
    } else {
        match set_outcome(a, now) {
            Err(e) => s1 == s0 && reply == Err::<Seq<u8>, Seq<u8>>(e),
            Ok(exp) => {
                &&& reply == Ok::<Seq<u8>, Seq<u8>>(ok_msg())
                &&& changed_only_at(s0.db, s1.db, a[0])
                &&& holds_string(s1.db[a[0]], a[1], exp)
                &&& s1.expiries == match exp {
                    Some(t) => s0.expiries.push((t, a[0])),
                    None => s0.expiries,
                }
                &&& conn_unchanged(s0, s1)
            },
        }
    }
}

/// SET key value [EX seconds | PX milliseconds]
pub fn set(args: &[&[u8]], ctx: &mut Context) -> (r: Result<Vec<u8>, Vec<u8>>)
    requires
        ctx_wf(&*old(ctx)),
        set_admits(args_view(args), state(&*old(ctx))),
    ensures
        ctx_wf(&*final(ctx)),
        same_frame(&*final(ctx), &*old(ctx)),
        set_behaves(args_view(args), state(&*old(ctx)), state(&*final(ctx)), old(ctx).now, reply_view(r)),
{
    if let Some(e) = subscribed_mode_refusal(CommandKind::SetValue, *ctx.is_pubsub) {
        return Err(e);
    }
    if args.len() == 0 {
        return Err(missing_key());
    }
    if args.len() == 1 {
        return Err(missing_value());
    }
    let ghost a = args_view(args);
    let key = args[0];
    let value = args[1];
    assert(key@ == a[0] && value@ == a[1]);
    let mut expiry: Option<u128> = None;
    if args.len() > 2 {
        assert(args[2]@ == a[2]);
        if let Some(unit) = ttl_unit_of(args[2]) {
            if args.len() == 3 {
                return Err(missing_ex_value());
            }
            assert(args[3]@ == a[3]);
            match parse_u64(args[3]) {
                None => {
                    return Err(invalid_ex_value());
                },
                Some(n) => {
                    assert((n as u128) * unit <= (u64::MAX as u128) * 1_000_000_000u128) by (nonlinear_arith)
                        requires
                            unit <= 1_000_000_000u128,
                    ;
                    expiry = Some(ctx.now + (n as u128) * unit);
                },
            }
        }
    }
    assert(set_outcome(a, ctx.now) == Ok::<Option<u128>, Seq<u8>>(expiry));
    if let Some(t) = expiry {
        let ghost e0 = ctx.expiries@;
        ctx.expiries.push((t, copy_bytes(key)));
        assert(expiries_view(ctx.expiries@) =~= expiries_view(e0).push((t, a[0])));
    }
    ctx.db.insert(key, Entry { value: Value::String(copy_bytes(value)), expiry });
    assert(state(&*ctx).db.remove(a[0]) =~= state(&*old(ctx)).db.remove(a[0]));
    Ok(ok())
}

/// GET finds the key expired at time `now`, and removes it.
pub open spec fn get_expires(args: Seq<Seq<u8>>, s: CtxState, now: u128) -> bool {
    &&& args.len() > 0
    &&& s.db.contains_key(args[0])
    &&& s.db[args[0]].expiry matches Some(t) && now >= t
}

/// GET's answer at time `now`.
pub open spec fn get_reply(args: Seq<Seq<u8>>, s: CtxState, now: u128) -> Result<Seq<u8>, Seq<u8>> {
    if args.len() == 0 {
        Err(missing_key_msg())
    } else if !s.db.contains_key(args[0]) || get_expires(args, s, now) {
        Ok(nil_msg())
    } else {
        match s.db[args[0]].value {
            Value::String(v) => Ok(bulk(v@)),
            _ => Err(wrong_type_msg()),
        }
    }
}

/// What GET does at time `now`: it answers, and removes the key where it
/// finds it expired.
pub open spec fn get_behaves(
    a: Seq<Seq<u8>>,
    s0: CtxState,
    s1: CtxState,
    now: u128,
    reply: Result<Seq<u8>, Seq<u8>>,
) -> bool {
    if refused(CommandKind::Get, s0) {
        s1 == s0 && reply == Err::<Seq<u8>, Seq<u8>>(blocked_error(CommandKind::Get))
    } else {
        &&& reply == get_reply(a, s0, now)
        &&& s1.db == if get_expires(a, s0, now) { s0.db.remove(a[0]) } else { s0.db }
        &&& s1.expiries == s0.expiries
        &&& conn_unchanged(s0, s1)
    }
}

/// GET key
pub fn get(args: &[&[u8]], ctx: &mut Context) -> (r: Result<Vec<u8>, Vec<u8>>)
    requires
        ctx_wf(&*old(ctx)),
    ensures
        ctx_wf(&*final(ctx)),
        same_frame(&*final(ctx), &*old(ctx)),
        get_behaves(args_view(args), state(&*old(ctx)), state(&*final(ctx)), old(ctx).now, reply_view(r)),
{
    if let Some(e) = subscribed_mode_refusal(CommandKind::Get, *ctx.is_pubsub) {
        return Err(e);
    }
    if args.len() == 0 {
        return Err(missing_key());
    }
    let key = args[0];
    assert(key@ == args_view(args)[0]);
    let mut expired = false;
    let answer: Result<Vec<u8>, Vec<u8>>;
    match ctx.db.get(key) {
        None => {
            return Ok(nil());
        },
        Some(entry) => {
            if let Some(t) = entry.expiry {
                if ctx.now >= t {
                    expired = true;
                }
            }
            answer = match &entry.value {
                Value::String(v) => Ok(bulk_reply(v.as_slice())),
                _ => Err(wrong_type()),
            };
        },
    }
    if expired {
        ctx.db.remove(key);
        return Ok(nil());
    }
    answer
}

/// A GET of the key that a SET stored answers the stored value, as long
/// as the key has not expired.
pub proof fn lemma_get_after_set(
    a: Seq<Seq<u8>>,
    s0: CtxState,
    s1: CtxState,
    now: u128,
    later: u128,
    reply: Result<Seq<u8>, Seq<u8>>,
)
    requires
        set_behaves(a, s0, s1, now, reply),
        reply is Ok,
        set_outcome(a, now) matches Ok(Some(t)) ==> later < t,
    ensures
        a.len() >= 2,
        get_reply(seq![a[0]], s1, later) == Ok::<Seq<u8>, Seq<u8>>(bulk(a[1])),
{
    assert(!refused(CommandKind::SetValue, s0));
    assert(seq![a[0]][0] == a[0]);
}

/// Once its time has come, a key that SET stored with an expiry is gone to
/// GET: it answers nil and removes the key.
pub proof fn lemma_get_after_expiry(
    a: Seq<Seq<u8>>,
    s0: CtxState,
    s1: CtxState,
    s2: CtxState,
    now: u128,
    later: u128,
    t: u128,
    reply: Result<Seq<u8>, Seq<u8>>,
    reply2: Result<Seq<u8>, Seq<u8>>,
)
    requires
        set_behaves(a, s0, s1, now, reply),
        set_outcome(a, now) == Ok::<Option<u128>, Seq<u8>>(Some(t)),
        !s0.is_pubsub,
        later >= t,
        get_behaves(seq![a[0]], s1, s2, later, reply2),
    ensures
        reply2 == Ok::<Seq<u8>, Seq<u8>>(nil_msg()),
        !s2.db.contains_key(a[0]),
{
    assert(seq![a[0]][0] == a[0]);
    assert(get_expires(seq![a[0]], s1, later));
}

/// The option `EX` in any letter case: `EX`, `Ex`, `eX` or `ex`.
pub open spec fn is_ex_option(opt: Seq<u8>) -> bool {
    opt == seq![69u8, 88] || opt == seq![69u8, 120] || opt == seq![101u8, 88] || opt == seq![101u8, 120]
}

/// The option `PX` in any letter case: `PX`, `Px`, `pX` or `px`.
pub open spec fn is_px_option(opt: Seq<u8>) -> bool {
    opt == seq![80u8, 88] || opt == seq![80u8, 120] || opt == seq![112u8, 88] || opt == seq![112u8, 120]
}

/// SET with `EX n` counts `n` in seconds and with `PX n` in milliseconds,
/// whatever the option's letter case: the key expires `n` times a billion,
/// or a million, nanoseconds after the time of the command. With any other
/// third argument the key does not expire.
pub proof fn lemma_set_expiry_units(
    a: Seq<Seq<u8>>,
    s0: CtxState,
    s1: CtxState,
    now: u128,
    reply: Result<Seq<u8>, Seq<u8>>,
)
    requires
        set_behaves(a, s0, s1, now, reply),
        !refused(CommandKind::SetValue, s0),
        a.len() >= 3,
        now < crate::commands::duration_nanos_limit(),
    ensures
        is_ex_option(a[2]) && a.len() >= 4 && decimal_u64(a[3]) is Some ==> {
            &&& reply == Ok::<Seq<u8>, Seq<u8>>(ok_msg())
            &&& s1.db[a[0]].value matches Value::String(v) && v@ == a[1]
            &&& s1.db[a[0]].expiry matches Some(t) && t == now + decimal_u64(a[3])->0 * 1_000_000_000
        },
        is_px_option(a[2]) && a.len() >= 4 && decimal_u64(a[3]) is Some ==> {
            &&& reply == Ok::<Seq<u8>, Seq<u8>>(ok_msg())
            &&& s1.db[a[0]].value matches Value::String(v) && v@ == a[1]
            &&& s1.db[a[0]].expiry matches Some(t) && t == now + decimal_u64(a[3])->0 * 1_000_000
        },
        !is_ex_option(a[2]) && !is_px_option(a[2]) ==> {
            &&& reply == Ok::<Seq<u8>, Seq<u8>>(ok_msg())
            &&& s1.db[a[0]].value matches Value::String(v) && v@ == a[1]
            &&& s1.db[a[0]].expiry is None
        },
{
    let opt = a[2];
    if is_ex_option(opt) || is_px_option(opt) {
        if a.len() >= 4 && decimal_u64(a[3]) is Some {
            let n = decimal_u64(a[3])->0;
            assert(n * 1_000_000_000 <= u64::MAX as int * 1_000_000_000) by (nonlinear_arith)
                requires
                    n <= u64::MAX,
            ;
        }
    } else {
        if opt.len() == 2 {
            assert(opt =~= seq![opt[0], opt[1]]);
        }
        assert(ttl_unit(opt) is None);
    }
}

} // verus!
