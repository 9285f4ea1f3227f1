//! SUBSCRIBE, PUBLISH and UNSUBSCRIBE.
use vstd::prelude::*;
use crate::commands::{Context, CommandKind, CtxState, Action, state, ctx_wf, args_view,
    blocked_error, subscribed_mode_refusal};
use crate::commands::handlers::{reply_view, refused, same_frame};
use crate::commands::messages::{
    missing_key, missing_key_msg, subscribe_header, subscribe_header_msg, unsubscribe_header,
    unsubscribe_header_msg, not_subscribed, not_subscribed_msg,
};
use crate::data_structures::bytes::copy_bytes;
use crate::reply::{bulk, integer, integer_reply, push_bulk, push_bytes};
use crate::types::bytes_eq;

verus! {

/// `i` is the first position of `x` in `s`.
pub open spec fn is_first_index<A>(s: Seq<A>, x: A, i: int) -> bool {
    &&& 0 <= i < s.len()
    &&& s[i] == x
    &&& forall|j: int| 0 <= j < i ==> s[j] != x
}

/// The first position of `x` in `s`, if `x` occurs.
pub open spec fn first_index<A>(s: Seq<A>, x: A) -> Option<int> {
    if exists|i: int| is_first_index(s, x, i) {
        Some(choose|i: int| is_first_index(s, x, i))
    } else {
        None
    }
}

/// `s` without the first occurrence of `x`.
pub open spec fn remove_first<A>(s: Seq<A>, x: A) -> Seq<A> {
    match first_index(s, x) {
        Some(i) => s.remove(i),
        None => s,
    }
}

/// There is one first position.
pub proof fn lemma_first_index<A>(s: Seq<A>, x: A, i: int)
    requires
        is_first_index(s, x, i),
    ensures
        first_index(s, x) == Some(i),
{
    let j = choose|j: int| is_first_index(s, x, j);
    assert(is_first_index(s, x, j));
    if j < i {
        assert(s[j] != x);
    } else if i < j {
        assert(s[i] != x);
    }
}

/// Where `x` does not occur there is no first position.
pub proof fn lemma_no_first_index<A>(s: Seq<A>, x: A)
    requires
        forall|j: int| 0 <= j < s.len() ==> s[j] != x,
    ensures
        first_index(s, x) is None,
{
}

/// The position of the first channel `x` among `subs`.
fn position_of_channel(subs: &Vec<Vec<u8>>, x: &[u8]) -> (r: Option<usize>)
    ensures
        match r {
            Some(i) => first_index(subs@.map_values(|v: Vec<u8>| v@), x@) == Some(i as int),
            None => first_index(subs@.map_values(|v: Vec<u8>| v@), x@) is None,
        },
{
    let ghost s = subs@.map_values(|v: Vec<u8>| v@);
    let mut i: usize = 0;
    while i < subs.len()
        invariant
            i <= subs@.len(),
            s == subs@.map_values(|v: Vec<u8>| v@),
            forall|j: int| 0 <= j < i ==> s[j] != x@,
        decreases subs@.len() - i,
    {
        if bytes_eq(subs[i].as_slice(), x) {
            proof {
                lemma_first_index(s, x@, i as int);
            }
            return Some(i);
        }
        i = i + 1;
    }
    proof {
        lemma_no_first_index(s, x@);
    }
    None
}

/// The position of the first token `t` among `tokens`.
fn position_of_token(tokens: &Vec<usize>, t: usize) -> (r: Option<usize>)
    ensures
        match r {
            Some(i) => first_index(tokens@, t) == Some(i as int),
            None => first_index(tokens@, t) is None,
        },
{
    let mut i: usize = 0;
    while i < tokens.len()
        invariant
            i <= tokens@.len(),
            forall|j: int| 0 <= j < i ==> tokens@[j] != t,
        decreases tokens@.len() - i,
    {
        if tokens[i] == t {
            proof {
                lemma_first_index(tokens@, t, i as int);
            }
            return Some(i);
        }
        i = i + 1;
    }
    proof {
        lemma_no_first_index(tokens@, t);
    }
    None
}

/// The subscribers of `channel`, none where the channel has no entry.
pub open spec fn subscribers(s: CtxState, channel: Seq<u8>) -> Seq<usize> {
    if s.pubsub.contains_key(channel) {
        s.pubsub[channel]
    } else {
        Seq::empty()
    }
}

/// What SUBSCRIBE does: the connection joins the channel and enters
/// subscribed mode.
pub open spec fn subscribe_behaves(
    a: Seq<Seq<u8>>,
    s0: CtxState,
    s1: CtxState,
    token: usize,
    reply: Result<Seq<u8>, Seq<u8>>,
) -> bool {
    if a.len() == 0 {
        s1 == s0 && reply == Err::<Seq<u8>, Seq<u8>>(missing_key_msg())
    } else {
        &&& s1.subscriptions == s0.subscriptions.push(a[0])
        &&& s1.is_pubsub
        &&& s1.pubsub == s0.pubsub.insert(a[0], subscribers(s0, a[0]).push(token))
        &&& s1.db == s0.db
        &&& s1.expiries == s0.expiries
        &&& s1.actions == s0.actions
        &&& reply == Ok::<Seq<u8>, Seq<u8>>(
            subscribe_header_msg() + bulk(a[0]) + integer(s1.subscriptions.len()),
        )
    }
}

/// SUBSCRIBE channel
pub fn subscribe(args: &[&[u8]], ctx: &mut Context) -> (r: Result<Vec<u8>, Vec<u8>>)
    requires
        ctx_wf(&*old(ctx)),
    ensures
        ctx_wf(&*final(ctx)),
        same_frame(&*final(ctx), &*old(ctx)),
        subscribe_behaves(args_view(args), state(&*old(ctx)), state(&*final(ctx)), old(ctx).token, reply_view(r)),
{
    if args.len() == 0 {
        return Err(missing_key());
    }
    let ghost a = args_view(args);
    let ghost s0 = state(&*ctx);
    let channel = args[0];
    assert(channel@ == a[0]);
    ctx.subscriptions.push(copy_bytes(channel));
    assert(state(&*ctx).subscriptions =~= s0.subscriptions.push(a[0]));
    *ctx.is_pubsub = true;
    let ghost p0 = ctx.pubsub@;
    let mut tokens: Vec<usize> = match ctx.pubsub.remove(channel) {
        Some(v) => v,
        None => Vec::new(),
    };
    assert(tokens@ == subscribers(s0, a[0]));
    tokens.push(ctx.token);
    ctx.pubsub.insert(channel, tokens);
    assert(state(&*ctx).pubsub =~= s0.pubsub.insert(a[0], subscribers(s0, a[0]).push(ctx.token)));
    let mut res = subscribe_header();
    push_bulk(&mut res, channel);
    let n = ctx.subscriptions.len();
    let tail = integer_reply(n as u64);
    push_bytes(&mut res, tail.as_slice());
    Ok(res)
}

/// What PUBLISH does: it leaves the message to the event loop and answers
/// how many connections the channel has.
pub open spec fn publish_behaves(a: Seq<Seq<u8>>, s0: CtxState, s1: CtxState, reply: Result<Seq<u8>, Seq<u8>>) -> bool {
    if refused(CommandKind::Publish, s0) {
        s1 == s0 && reply == Err::<Seq<u8>, Seq<u8>>(blocked_error(CommandKind::Publish))
    } else if a.len() < 2 {
        s1 == s0 && reply == Err::<Seq<u8>, Seq<u8>>(missing_key_msg())
    } else {
        &&& s1 == CtxState { actions: s0.actions.push((a[0], a[1])), ..s0 }
        &&& reply == Ok::<Seq<u8>, Seq<u8>>(integer(subscribers(s0, a[0]).len()))
    }
}

/// PUBLISH channel message
pub fn publish(args: &[&[u8]], ctx: &mut Context) -> (r: Result<Vec<u8>, Vec<u8>>)
    requires
        ctx_wf(&*old(ctx)),
    ensures
        ctx_wf(&*final(ctx)),
        same_frame(&*final(ctx), &*old(ctx)),
        publish_behaves(args_view(args), state(&*old(ctx)), state(&*final(ctx)), reply_view(r)),
{
    if let Some(e) = subscribed_mode_refusal(CommandKind::Publish, *ctx.is_pubsub) {
        return Err(e);
    }
    if args.len() < 2 {
        return Err(missing_key());
    }
    let ghost a = args_view(args);
    let ghost s0 = state(&*ctx);
    let channel = args[0];
    let message = args[1];
    assert(channel@ == a[0] && message@ == a[1]);
    let n: usize = match ctx.pubsub.get(channel) {
        Some(v) => v.len(),
        None => 0,
    };
    ctx.actions.push(Action::Publish { channel: copy_bytes(channel), message: copy_bytes(message) });
    assert(state(&*ctx).actions =~= s0.actions.push((a[0], a[1])));
    Ok(integer_reply(n as u64))
}

/// UNSUBSCRIBE finds the channel among the connection's subscriptions.
pub open spec fn unsubscribe_finds(args: Seq<Seq<u8>>, s: CtxState) -> bool {
    first_index(s.subscriptions, args[0]) is Some
}

/// What UNSUBSCRIBE does: the connection leaves the channel, where it
/// had joined it.
pub open spec fn unsubscribe_behaves(
    a: Seq<Seq<u8>>,
    s0: CtxState,
    s1: CtxState,
    token: usize,
    reply: Result<Seq<u8>, Seq<u8>>,
) -> bool {
    if !s0.is_pubsub {
        s1 == s0 && reply == Ok::<Seq<u8>, Seq<u8>>(not_subscribed_msg())
    } else if a.len() == 0 {
        s1 == s0 && reply == Err::<Seq<u8>, Seq<u8>>(missing_key_msg())
    } else {
        &&& s1.subscriptions == remove_first(s0.subscriptions, a[0])
        &&& s1.pubsub == if unsubscribe_finds(a, s0) && s0.pubsub.contains_key(a[0]) {
            s0.pubsub.insert(a[0], remove_first(s0.pubsub[a[0]], token))
        } else {
            s0.pubsub
        }
        &&& s1.is_pubsub == s0.is_pubsub
        &&& s1.db == s0.db
        &&& s1.expiries == s0.expiries
        &&& s1.actions == s0.actions
        &&& reply == Ok::<Seq<u8>, Seq<u8>>(
            unsubscribe_header_msg() + bulk(a[0]) + integer(s1.subscriptions.len()),
        )
    }
}

/// UNSUBSCRIBE channel
pub fn unsubscribe(args: &[&[u8]], ctx: &mut Context) -> (r: Result<Vec<u8>, Vec<u8>>)
    requires
        ctx_wf(&*old(ctx)),
    ensures
        ctx_wf(&*final(ctx)),
        same_frame(&*final(ctx), &*old(ctx)),
        unsubscribe_behaves(args_view(args), state(&*old(ctx)), state(&*final(ctx)), old(ctx).token, reply_view(r)),
{
    if !*ctx.is_pubsub {
        return Ok(not_subscribed());
    }
    if args.len() == 0 {
        return Err(missing_key());
    }
    let ghost a = args_view(args);
    let ghost s0 = state(&*ctx);
    let channel = args[0];
    assert(channel@ == a[0]);
    match position_of_channel(ctx.subscriptions, channel) {
        Some(i) => {
            let ghost subs0 = ctx.subscriptions@;
            ctx.subscriptions.remove(i);
            assert(state(&*ctx).subscriptions =~= s0.subscriptions.remove(i as int));
            match ctx.pubsub.remove(channel) {
                Some(tokens) => {
                    let mut tokens = tokens;
                    let ghost t0 = tokens@;
                    match position_of_token(&tokens, ctx.token) {
                        Some(j) => {
                            tokens.remove(j);
                        },
                        None => {},
                    }
                    assert(tokens@ == remove_first(t0, ctx.token));
                    ctx.pubsub.insert(channel, tokens);
                    assert(state(&*ctx).pubsub =~= s0.pubsub.insert(
                        a[0],
                        remove_first(s0.pubsub[a[0]], ctx.token),
                    ));
                },
                None => {
                    assert(state(&*ctx).pubsub =~= s0.pubsub);
                },
            }
        },
        None => {},
    }
    let mut res = unsubscribe_header();
    push_bulk(&mut res, channel);
    let n = ctx.subscriptions.len();
    let tail = integer_reply(n as u64);
    push_bytes(&mut res, tail.as_slice());
    Ok(res)
}

/// UNSUBSCRIBE undoes SUBSCRIBE: after joining a channel it had not
/// joined, a connection that leaves it again has the subscriptions it had,
/// and the channel the subscribers it had.
pub proof fn lemma_unsubscribe_undoes_subscribe(
    a: Seq<Seq<u8>>,
    s0: CtxState,
    s1: CtxState,
    s2: CtxState,
    token: usize,
    r1: Result<Seq<u8>, Seq<u8>>,
    r2: Result<Seq<u8>, Seq<u8>>,
)
    requires
        a.len() > 0,
        subscribe_behaves(a, s0, s1, token, r1),
        unsubscribe_behaves(a, s1, s2, token, r2),
        !s0.subscriptions.contains(a[0]),
        !subscribers(s0, a[0]).contains(token),
    ensures
        s2.subscriptions == s0.subscriptions,
        subscribers(s2, a[0]) == subscribers(s0, a[0]),
        s2.db == s0.db,
{
    let subs = s0.subscriptions.push(a[0]);
    let n = s0.subscriptions.len() as int;
    assert(is_first_index(subs, a[0], n)) by {
        assert forall|j: int| 0 <= j < n implies subs[j] != a[0] by {
            assert(subs[j] == s0.subscriptions[j]);
        }
    }
    lemma_first_index(subs, a[0], n);
    assert(subs.remove(n) =~= s0.subscriptions);
    let toks = subscribers(s0, a[0]).push(token);
    let m = subscribers(s0, a[0]).len() as int;
    assert(is_first_index(toks, token, m)) by {
        assert forall|j: int| 0 <= j < m implies toks[j] != token by {
            assert(toks[j] == subscribers(s0, a[0])[j]);
        }
    }
    lemma_first_index(toks, token, m);
    assert(toks.remove(m) =~= subscribers(s0, a[0]));
}

} // verus!
