//! RPUSH, LPUSH, LRANGE, LLEN, LPOP and BLPOP.
use std::collections::VecDeque;
use vstd::prelude::*;
use crate::commands::{Context, CommandKind, CtxState, state, ctx_wf, args_view, blocked_error,
    subscribed_mode_refusal};
use crate::commands::handlers::{reply_view, refused, same_frame, conn_unchanged};
use crate::commands::messages::{
    missing_key, missing_key_msg, wrong_args, wrong_args_msg, wrong_type, wrong_type_msg,
    zero, zero_msg, missing_start, missing_start_msg, missing_stop, missing_stop_msg,
    empty_array, empty_array_msg, nil, nil_msg, missing_timeout, missing_timeout_msg, block,
    block_msg,
};
use crate::decimal::{decimal_isize, decimal_usize, parse_isize, parse_usize, all_digits, digits_value, unsigned_digits};
use crate::data_structures::bytes::copy_bytes;
use crate::reply::{integer, integer_reply, array_header, bulk, bulks, push_array_header, push_bulk, push_bytes, bulk_reply};
use crate::types::{Entry, Value, holds_list, changed_only_at, list_at, list_view, take_list};

verus! {

/// The error RPUSH and LPUSH answer, if any: they need a key and a value.
pub open spec fn push_error(args: Seq<Seq<u8>>) -> Option<Seq<u8>> {
    if args.len() == 0 {
        Some(missing_key_msg())
    } else if args.len() < 2 {
        Some(wrong_args_msg())
    } else {
        None
    }
}

/// The list under `args[0]` before a push, empty where none is stored.
pub open spec fn list_before(args: Seq<Seq<u8>>, s: CtxState) -> Seq<Seq<u8>> {
    match list_at(s.db, args[0]) {
        Some(l) => l,
        None => Seq::empty(),
    }
}

/// The expiry a pushed list keeps: the old list's, none for a new list.
pub open spec fn list_expiry(args: Seq<Seq<u8>>, s: CtxState) -> Option<u128> {
    if list_at(s.db, args[0]) is Some {
        s.db[args[0]].expiry
    } else {
        None
    }
}

/// A handler that pushes onto the list under `args[0]` behaves so: it
/// leaves a list `items` there and answers its length.
pub open spec fn pushed(
    k: CommandKind,
    args: Seq<Seq<u8>>,
    s0: CtxState,
    s1: CtxState,
    reply: Result<Seq<u8>, Seq<u8>>,
    items: Seq<Seq<u8>>,
) -> bool {
    if refused(k, s0) {
        s1 == s0 && reply == Err::<Seq<u8>, Seq<u8>>(blocked_error(k))
    } else {
        match push_error(args) {
            Some(e) => s1 == s0 && reply == Err::<Seq<u8>, Seq<u8>>(e),
            None => {
                &&& reply == Ok::<Seq<u8>, Seq<u8>>(integer(items.len()))
                &&& changed_only_at(s0.db, s1.db, args[0])
                &&& holds_list(s1.db[args[0]], items, list_expiry(args, s0))
                &&& s1.expiries == s0.expiries
                &&& conn_unchanged(s0, s1)
            },
        }
    }
}

/// What RPUSH does: it appends the values to the list.
pub open spec fn rpush_behaves(a: Seq<Seq<u8>>, s0: CtxState, s1: CtxState, reply: Result<Seq<u8>, Seq<u8>>) -> bool {
    pushed(CommandKind::Rpush, a, s0, s1, reply, list_before(a, s0) + a.skip(1))
}

/// RPUSH key value [value ...]
pub fn rpush(args: &[&[u8]], ctx: &mut Context) -> (r: Result<Vec<u8>, Vec<u8>>)
    requires
        ctx_wf(&*old(ctx)),
    ensures
        ctx_wf(&*final(ctx)),
        same_frame(&*final(ctx), &*old(ctx)),
        rpush_behaves(args_view(args), state(&*old(ctx)), state(&*final(ctx)), reply_view(r)),
{
    if let Some(e) = subscribed_mode_refusal(CommandKind::Rpush, *ctx.is_pubsub) {
        return Err(e);
    }
    if args.len() == 0 {
        return Err(missing_key());
    }
    if args.len() < 2 {
        return Err(wrong_args());
    }
    let ghost a = args_view(args);
    let ghost s0 = state(&*ctx);
    let key = args[0];
    assert(key@ == a[0]);
    let (mut list, expiry) = match take_list(ctx.db, key) {
        Some(p) => p,
        None => (VecDeque::new(), None),
    };
    assert(list_view(list) == list_before(a, s0));
    let mut i: usize = 1;
    while i < args.len()
        invariant
            1 <= i <= args@.len(),
            a == args_view(args),
            list_view(list) == list_before(a, s0) + a.subrange(1, i as int),
        decreases args@.len() - i,
    {
        let ghost l0 = list_view(list);
        list.push_back(copy_bytes(args[i]));
        assert(list_view(list) =~= l0.push(a[i as int]));
        assert(a.subrange(1, i + 1) =~= a.subrange(1, i as int).push(a[i as int]));
        i = i + 1;
    }
    assert(a.subrange(1, a.len() as int) =~= a.skip(1));
    let n = list.len();
    ctx.db.insert(key, Entry { value: Value::List(list), expiry });
    assert(state(&*ctx).db.remove(a[0]) =~= s0.db.remove(a[0]));
    Ok(integer_reply(n as u64))
}

/// What LPUSH does: it puts the values in front of the list, one after
/// another, so that the last comes first.
pub open spec fn lpush_behaves(a: Seq<Seq<u8>>, s0: CtxState, s1: CtxState, reply: Result<Seq<u8>, Seq<u8>>) -> bool {
    pushed(CommandKind::Lpush, a, s0, s1, reply, a.skip(1).reverse() + list_before(a, s0))
}

/// LPUSH key value [value ...]
pub fn lpush(args: &[&[u8]], ctx: &mut Context) -> (r: Result<Vec<u8>, Vec<u8>>)
    requires
        ctx_wf(&*old(ctx)),
    ensures
        ctx_wf(&*final(ctx)),
        same_frame(&*final(ctx), &*old(ctx)),
        lpush_behaves(args_view(args), state(&*old(ctx)), state(&*final(ctx)), reply_view(r)),
{
    if let Some(e) = subscribed_mode_refusal(CommandKind::Lpush, *ctx.is_pubsub) {
        return Err(e);
    }
    if args.len() == 0 {
        return Err(missing_key());
    }
    if args.len() < 2 {
        return Err(wrong_args());
    }
    let ghost a = args_view(args);
    let ghost s0 = state(&*ctx);
    let key = args[0];
    assert(key@ == a[0]);
    let (mut list, expiry) = match take_list(ctx.db, key) {
        Some(p) => p,
        None => (VecDeque::new(), None),
    };
    assert(a.subrange(1, 1).reverse() =~= Seq::<Seq<u8>>::empty());
    assert(list_view(list) =~= a.subrange(1, 1).reverse() + list_before(a, s0));
    let mut i: usize = 1;
    while i < args.len()
        invariant
            1 <= i <= args@.len(),
            a == args_view(args),
            list_view(list) == a.subrange(1, i as int).reverse() + list_before(a, s0),
        decreases args@.len() - i,
    {
        let ghost l0 = list_view(list);
        list.push_front(copy_bytes(args[i]));
        assert(list_view(list) =~= seq![a[i as int]] + l0);
        assert(a.subrange(1, i + 1).reverse() =~= seq![a[i as int]] + a.subrange(1, i as int).reverse());
        i = i + 1;
    }
    assert(a.subrange(1, a.len() as int) =~= a.skip(1));
    let n = list.len();
    ctx.db.insert(key, Entry { value: Value::List(list), expiry });
    assert(state(&*ctx).db.remove(a[0]) =~= s0.db.remove(a[0]));
    Ok(integer_reply(n as u64))
}

/// LLEN's answer.
pub open spec fn llen_reply(args: Seq<Seq<u8>>, s: CtxState) -> Result<Seq<u8>, Seq<u8>> {
    if args.len() == 0 {
        Err(missing_key_msg())
    } else if !s.db.contains_key(args[0]) {
        Ok(zero_msg())
    } else {
        match list_at(s.db, args[0]) {
            Some(l) => Ok(integer(l.len())),
            None => Err(wrong_type_msg()),
        }
    }
}

/// What LLEN does: it answers and changes nothing.
pub open spec fn llen_behaves(a: Seq<Seq<u8>>, s0: CtxState, s1: CtxState, reply: Result<Seq<u8>, Seq<u8>>) -> bool {
    &&& s1 == s0
    &&& reply == if refused(CommandKind::Llen, s0) {
        Err(blocked_error(CommandKind::Llen))
    } else {
        llen_reply(a, s0)
    }
}

/// LLEN key
pub fn llen(args: &[&[u8]], ctx: &mut Context) -> (r: Result<Vec<u8>, Vec<u8>>)
    requires
        ctx_wf(&*old(ctx)),
    ensures
        ctx_wf(&*final(ctx)),
        same_frame(&*final(ctx), &*old(ctx)),
        llen_behaves(args_view(args), state(&*old(ctx)), state(&*final(ctx)), reply_view(r)),
{
    if let Some(e) = subscribed_mode_refusal(CommandKind::Llen, *ctx.is_pubsub) {
        return Err(e);
    }
    if args.len() == 0 {
        return Err(missing_key());
    }
    let key = args[0];
    assert(key@ == args_view(args)[0]);
    match ctx.db.get(key) {
        None => Ok(zero()),
        Some(entry) => match &entry.value {
            Value::List(list) => Ok(integer_reply(list.len() as u64)),
            _ => Err(wrong_type()),
        },
    }
}

/// LRANGE reads its two indices as numbers where the key holds a list.
pub open spec fn lrange_text_valid(args: Seq<Seq<u8>>, s: CtxState) -> bool {
    args.len() >= 3 && list_at(s.db, args[0]) is Some ==> {
        &&& decimal_isize(args[1]) is Some
        &&& decimal_isize(args[2]) is Some
    }
}

/// The first index and the number of the items that LRANGE answers for a
/// list of `len` items: negative indices count from the end, and the range
/// is cut to the list.
pub open spec fn range_window(len: int, start: int, stop: int) -> Option<(int, int)> {
    let a = if start < 0 { len + start } else { start };
    let b = if stop < 0 { len + stop } else { stop };
    let a = if a < 0 { 0 } else { a };
    let b = if b >= len { len - 1 } else { b };
    if a > b || a >= len {
        None
    } else {
        Some((a, b - a + 1))
    }
}

/// LRANGE's answer.
pub open spec fn lrange_reply(args: Seq<Seq<u8>>, s: CtxState) -> Result<Seq<u8>, Seq<u8>> {
    if args.len() == 0 {
        Err(missing_key_msg())
    } else if args.len() == 1 {
        Err(missing_start_msg())
    } else if args.len() == 2 {
        Err(missing_stop_msg())
    } else if !s.db.contains_key(args[0]) {
        Ok(empty_array_msg())
    } else {
        match list_at(s.db, args[0]) {
            None => Err(wrong_type_msg()),
            Some(l) => match range_window(
                l.len() as int,
                decimal_isize(args[1])->0 as int,
                decimal_isize(args[2])->0 as int,
            ) {
                None => Ok(empty_array_msg()),
                Some((f, c)) => Ok(array_header(c as nat) + bulks(l.subrange(f, f + c))),
            },
        }
    }
}

/// LRANGE may run on these arguments: it reads its indices as numbers.
pub open spec fn lrange_admits(a: Seq<Seq<u8>>, s0: CtxState) -> bool {
    !refused(CommandKind::Lrange, s0) ==> lrange_text_valid(a, s0)
}

/// What LRANGE does: it answers and changes nothing.
pub open spec fn lrange_behaves(a: Seq<Seq<u8>>, s0: CtxState, s1: CtxState, reply: Result<Seq<u8>, Seq<u8>>) -> bool {
    &&& s1 == s0
    &&& reply == if refused(CommandKind::Lrange, s0) {
        Err(blocked_error(CommandKind::Lrange))
    } else {
        lrange_reply(a, s0)
    }
}

/// LRANGE key start stop
pub fn lrange(args: &[&[u8]], ctx: &mut Context) -> (r: Result<Vec<u8>, Vec<u8>>)
    requires
        ctx_wf(&*old(ctx)),
        lrange_admits(args_view(args), state(&*old(ctx))),
    ensures
        ctx_wf(&*final(ctx)),
        same_frame(&*final(ctx), &*old(ctx)),
        lrange_behaves(args_view(args), state(&*old(ctx)), state(&*final(ctx)), reply_view(r)),
{
    if let Some(e) = subscribed_mode_refusal(CommandKind::Lrange, *ctx.is_pubsub) {
        return Err(e);
    }
    if args.len() == 0 {
        return Err(missing_key());
    }
    if args.len() == 1 {
        return Err(missing_start());
    }
    if args.len() == 2 {
        return Err(missing_stop());
    }
    let ghost a = args_view(args);
    let key = args[0];
    assert(key@ == a[0] && args[1]@ == a[1] && args[2]@ == a[2]);
    match ctx.db.get(key) {
        None => Ok(empty_array()),
        Some(entry) => match &entry.value {
            Value::List(list) => {
                let ghost l = list_view(*list);
                let start = parse_isize(args[1]).unwrap();
                let stop = parse_isize(args[2]).unwrap();
                let len = list.len() as i128;
                let mut first: i128 = if start < 0 { len + start as i128 } else { start as i128 };
                let mut last: i128 = if stop < 0 { len + stop as i128 } else { stop as i128 };
                if first < 0 {
                    first = 0;
                }
                if last >= len {
                    last = len - 1;
                }
                if first > last || first >= len {
                    return Ok(empty_array());
                }
                let f = first as usize;
                let count = (last - first + 1) as usize;
                let mut res: Vec<u8> = Vec::new();
                push_array_header(&mut res, count as u64);
                let end = f + count;
                let mut i: usize = f;
                assert(l.subrange(f as int, f as int) =~= Seq::<Seq<u8>>::empty());
                while i < end
                    invariant
                        f <= i <= end,
                        end == f + count,
                        end <= list@.len(),
                        l == list_view(*list),
                        res@ == array_header(count as nat) + bulks(l.subrange(f as int, i as int)),
                    decreases end - i,
                {
                    let item = &list[i];
                    push_bulk(&mut res, item.as_slice());
                    assert(l.subrange(f as int, i + 1).drop_last() =~= l.subrange(f as int, i as int));
                    i = i + 1;
                }
                Ok(res)
            },
            _ => Err(wrong_type()),
        },
    }
}

/// LPOP reads its count as a number where the key holds a list that is not
/// empty.
pub open spec fn lpop_text_valid(args: Seq<Seq<u8>>, s: CtxState) -> bool {
    (args.len() > 1 && (list_at(s.db, args[0]) matches Some(l) && l.len() > 0)) ==> decimal_usize(args[1]) is Some
}

/// How many items LPOP asks for: its count, one where none is given.
pub open spec fn lpop_count(args: Seq<Seq<u8>>) -> nat {
    if args.len() > 1 {
        decimal_usize(args[1])->0 as nat
    } else {
        1
    }
}

/// How many items LPOP takes from a list of `len` items.
pub open spec fn lpop_taken(args: Seq<Seq<u8>>, len: nat) -> nat {
    if lpop_count(args) < len {
        lpop_count(args)
    } else {
        len
    }
}

/// LPOP takes items: the key holds a list that is not empty.
pub open spec fn lpop_pops(args: Seq<Seq<u8>>, s: CtxState) -> bool {
    args.len() > 0 && (list_at(s.db, args[0]) matches Some(l) && l.len() > 0)
}

/// LPOP's answer.
pub open spec fn lpop_reply(args: Seq<Seq<u8>>, s: CtxState) -> Result<Seq<u8>, Seq<u8>> {
    if args.len() == 0 {
        Err(missing_key_msg())
    } else if !s.db.contains_key(args[0]) {
        Ok(nil_msg())
    } else {
        match list_at(s.db, args[0]) {
            None => Err(wrong_type_msg()),
            Some(l) => if l.len() == 0 {
                Ok(nil_msg())
            } else if lpop_count(args) == 1 {
                Ok(bulk(l[0]))
            } else if lpop_taken(args, l.len()) == 0 {
                Ok(empty_array_msg())
            } else {
                Ok(array_header(lpop_taken(args, l.len())) + bulks(l.take(lpop_taken(args, l.len()) as int)))
            },
        }
    }
}

/// LPOP may run on these arguments: it reads its count as a number.
pub open spec fn lpop_admits(a: Seq<Seq<u8>>, s0: CtxState) -> bool {
    !refused(CommandKind::Lpop, s0) ==> lpop_text_valid(a, s0)
}

/// What LPOP does: it takes items from the front of the list.
pub open spec fn lpop_behaves(a: Seq<Seq<u8>>, s0: CtxState, s1: CtxState, reply: Result<Seq<u8>, Seq<u8>>) -> bool {
    if refused(CommandKind::Lpop, s0) {
        s1 == s0 && reply == Err::<Seq<u8>, Seq<u8>>(blocked_error(CommandKind::Lpop))
    } else {
        &&& reply == lpop_reply(a, s0)
        &&& if lpop_pops(a, s0) {
            let l = list_at(s0.db, a[0])->0;
            &&& changed_only_at(s0.db, s1.db, a[0])
            &&& holds_list(s1.db[a[0]], l.skip(lpop_taken(a, l.len()) as int), s0.db[a[0]].expiry)
            &&& s1.expiries == s0.expiries
            &&& conn_unchanged(s0, s1)
        } else {
            s1 == s0
        }
    }
}

/// LPOP key [count]
pub fn lpop(args: &[&[u8]], ctx: &mut Context) -> (r: Result<Vec<u8>, Vec<u8>>)
    requires
        ctx_wf(&*old(ctx)),
        lpop_admits(args_view(args), state(&*old(ctx))),
    ensures
        ctx_wf(&*final(ctx)),
        same_frame(&*final(ctx), &*old(ctx)),
        lpop_behaves(args_view(args), state(&*old(ctx)), state(&*final(ctx)), reply_view(r)),
{
    if let Some(e) = subscribed_mode_refusal(CommandKind::Lpop, *ctx.is_pubsub) {
        return Err(e);
    }
    if args.len() == 0 {
        return Err(missing_key());
    }
    let ghost a = args_view(args);
    let ghost s0 = state(&*ctx);
    let key = args[0];
    assert(key@ == a[0]);
    if ctx.db.get(key).is_none() {
        return Ok(nil());
    }
    let (mut list, expiry) = match take_list(ctx.db, key) {
        Some(p) => p,
        None => {
            return Err(wrong_type());
        },
    };
    let ghost l = list_view(list);
    if list.len() == 0 {
        ctx.db.insert(key, Entry { value: Value::List(list), expiry });
        assert(state(&*ctx).db =~= s0.db);
        return Ok(nil());
    }
    let count: usize = if args.len() > 1 {
        assert(args[1]@ == a[1]);
        parse_usize(args[1]).unwrap()
    } else {
        1
    };
    assert(count == lpop_count(a));
    if count == 1 {
        let item = list.pop_front().unwrap();
        assert(list_view(list) =~= l.skip(1));
        ctx.db.insert(key, Entry { value: Value::List(list), expiry });
        assert(state(&*ctx).db.remove(a[0]) =~= s0.db.remove(a[0]));
        return Ok(bulk_reply(item.as_slice()));
    }
    let k: usize = if count < list.len() { count } else { list.len() };
    let mut items: Vec<u8> = Vec::new();
    let mut j: usize = 0;
    assert(l.skip(0) =~= l);
    assert(l.take(0) =~= Seq::<Seq<u8>>::empty());
    while j < k
        invariant
            j <= k <= l.len(),
            list_view(list) == l.skip(j as int),
            items@ == bulks(l.take(j as int)),
        decreases k - j,
    {
        let ghost lq = list@;
        assert(list_view(list).len() == lq.len());
        assert(list_view(list)[0] == lq[0]@);
        let item = list.pop_front().unwrap();
        assert(item@ == l[j as int]);
        push_bulk(&mut items, item.as_slice());
        assert forall|i: int| 0 <= i < list_view(list).len() implies list_view(list)[i] == l.skip(
            j + 1,
        )[i] by {
            assert(list@[i] == lq[i + 1]);
            assert(l.skip(j as int)[i + 1] == lq[i + 1]@);
        }
        assert(list_view(list) =~= l.skip(j + 1));
        assert(l.take(j + 1).drop_last() =~= l.take(j as int));
        j = j + 1;
    }
    ctx.db.insert(key, Entry { value: Value::List(list), expiry });
    assert(state(&*ctx).db.remove(a[0]) =~= s0.db.remove(a[0]));
    if k == 0 {
        return Ok(empty_array());
    }
    let mut res: Vec<u8> = Vec::new();
    push_array_header(&mut res, k as u64);
    push_bytes(&mut res, items.as_slice());
    Ok(res)
}

/// BLPOP pops at once: the key holds a list that is not empty.
pub open spec fn blpop_pops(args: Seq<Seq<u8>>, s: CtxState) -> bool {
    args.len() > 1 && (list_at(s.db, args[0]) matches Some(l) && l.len() > 0)
}

/// BLPOP's answer: the key and the first item, or the word that tells the
/// event loop to block the connection.
pub open spec fn blpop_reply(args: Seq<Seq<u8>>, s: CtxState) -> Result<Seq<u8>, Seq<u8>> {
    if args.len() == 0 {
        Err(missing_key_msg())
    } else if args.len() == 1 {
        Err(missing_timeout_msg())
    } else if blpop_pops(args, s) {
        Ok(array_header(2) + bulk(args[0]) + bulk(list_at(s.db, args[0])->0[0]))
    } else {
        Err(block_msg())
    }
}

/// What BLPOP does: it takes the first item where there is one, else asks
/// the event loop to block the connection.
pub open spec fn blpop_behaves(a: Seq<Seq<u8>>, s0: CtxState, s1: CtxState, reply: Result<Seq<u8>, Seq<u8>>) -> bool {
    if refused(CommandKind::Blpop, s0) {
        s1 == s0 && reply == Err::<Seq<u8>, Seq<u8>>(blocked_error(CommandKind::Blpop))
    } else {
        &&& reply == blpop_reply(a, s0)
        &&& if blpop_pops(a, s0) {
            &&& changed_only_at(s0.db, s1.db, a[0])
            &&& holds_list(s1.db[a[0]], list_at(s0.db, a[0])->0.skip(1), s0.db[a[0]].expiry)
            &&& s1.expiries == s0.expiries
            &&& conn_unchanged(s0, s1)
        } else {
            s1 == s0
        }
    }
}

/// BLPOP key timeout
pub fn blpop(args: &[&[u8]], ctx: &mut Context) -> (r: Result<Vec<u8>, Vec<u8>>)
    requires
        ctx_wf(&*old(ctx)),
    ensures
        ctx_wf(&*final(ctx)),
        same_frame(&*final(ctx), &*old(ctx)),
        blpop_behaves(args_view(args), state(&*old(ctx)), state(&*final(ctx)), reply_view(r)),
{
    if let Some(e) = subscribed_mode_refusal(CommandKind::Blpop, *ctx.is_pubsub) {
        return Err(e);
    }
    if args.len() == 0 {
        return Err(missing_key());
    }
    if args.len() == 1 {
        return Err(missing_timeout());
    }
    let ghost a = args_view(args);
    let ghost s0 = state(&*ctx);
    let key = args[0];
    assert(key@ == a[0]);
    match take_list(ctx.db, key) {
        Some((mut list, expiry)) => {
            let ghost l = list_view(list);
            if list.len() == 0 {
                ctx.db.insert(key, Entry { value: Value::List(list), expiry });
                assert(state(&*ctx).db =~= s0.db);
                return Err(block());
            }
            let ghost lq = list@;
            assert(l[0] == lq[0]@);
            match list.pop_front() {
                Some(val) => {
                    assert(list_view(list) =~= l.skip(1));
                    ctx.db.insert(key, Entry { value: Value::List(list), expiry });
                    assert(state(&*ctx).db.remove(a[0]) =~= s0.db.remove(a[0]));
                    let mut res = crate::commands::messages::array_two();
                    push_bulk(&mut res, key);
                    push_bulk(&mut res, val.as_slice());
                    assert(array_header(2) =~= crate::commands::messages::array_two_msg());
                    Ok(res)
                },
                None => Err(block()),
            }
        },
        None => Err(block()),
    }
}

/// LRANGE from `0` to `-1` answers the whole list that RPUSH left.
pub proof fn lemma_lrange_after_rpush(
    a: Seq<Seq<u8>>,
    s0: CtxState,
    s1: CtxState,
    reply: Result<Seq<u8>, Seq<u8>>,
)
    requires
        rpush_behaves(a, s0, s1, reply),
        reply is Ok,
    ensures
        a.len() >= 2,
        lrange_reply(seq![a[0], seq![48u8], seq![45u8, 49u8]], s1) == Ok::<Seq<u8>, Seq<u8>>(
            array_header((list_before(a, s0) + a.skip(1)).len()) + bulks(list_before(a, s0) + a.skip(1)),
        ),
{
    let b = seq![a[0], seq![48u8], seq![45u8, 49u8]];
    let items = list_before(a, s0) + a.skip(1);
    assert(!refused(CommandKind::Rpush, s0));
    assert(push_error(a) is None);
    assert(b[0] == a[0]);
    assert(list_at(s1.db, a[0]) == Some(items));
    assert(decimal_isize(seq![48u8]) == Some(0isize)) by {
        let d = seq![48u8];
        assert(d.drop_last() =~= Seq::<u8>::empty());
        assert(all_digits(d));
        assert(digits_value(d.drop_last()) == 0);
        assert(digits_value(d) == 0);
        assert(unsigned_digits(d) == Some(0nat));
    }
    assert(decimal_isize(seq![45u8, 49u8]) == Some(-1isize)) by {
        let d = seq![45u8, 49u8].drop_first();
        assert(d =~= seq![49u8]);
        assert(d.drop_last() =~= Seq::<u8>::empty());
        assert(all_digits(d));
        assert(digits_value(d.drop_last()) == 0);
        assert(digits_value(d) == 1);
    }
    assert(items.subrange(0, items.len() as int) =~= items);
}

/// LPOP on a key that RPUSH created answers the first value pushed.
pub proof fn lemma_lpop_after_rpush(
    a: Seq<Seq<u8>>,
    s0: CtxState,
    s1: CtxState,
    reply: Result<Seq<u8>, Seq<u8>>,
)
    requires
        rpush_behaves(a, s0, s1, reply),
        reply is Ok,
        !s0.db.contains_key(a[0]),
    ensures
        lpop_reply(seq![a[0]], s1) == Ok::<Seq<u8>, Seq<u8>>(bulk(a[1])),
{
    assert(!refused(CommandKind::Rpush, s0));
    assert(push_error(a) is None);
    assert(seq![a[0]][0] == a[0]);
    assert(list_before(a, s0) == Seq::<Seq<u8>>::empty());
    assert((list_before(a, s0) + a.skip(1))[0] == a[1]);
}

/// LLEN after RPUSH or LPUSH answers the length that the push answered.
pub proof fn lemma_llen_after_push(
    k: CommandKind,
    a: Seq<Seq<u8>>,
    s0: CtxState,
    s1: CtxState,
    reply: Result<Seq<u8>, Seq<u8>>,
    items: Seq<Seq<u8>>,
)
    requires
        pushed(k, a, s0, s1, reply, items),
        reply is Ok,
    ensures
        llen_reply(seq![a[0]], s1) == reply,
{
    assert(seq![a[0]][0] == a[0]);
}

/// LRANGE answers the items from `start` to `stop`, both included, where a
/// negative index counts from the end (`-1` is the last item): the range is
/// cut to the list, and an empty range answers an empty array.
pub proof fn lemma_lrange_window(
    a: Seq<Seq<u8>>,
    s0: CtxState,
    s1: CtxState,
    reply: Result<Seq<u8>, Seq<u8>>,
    l: Seq<Seq<u8>>,
    start: isize,
    stop: isize,
)
    requires
        lrange_behaves(a, s0, s1, reply),
        !refused(CommandKind::Lrange, s0),
        a.len() >= 3,
        list_at(s0.db, a[0]) == Some(l),
        decimal_isize(a[1]) == Some(start),
        decimal_isize(a[2]) == Some(stop),
    ensures
        s1 == s0,
        ({
            let n = l.len() as int;
            let first = if start < 0 { n + start } else { start as int };
            let last = if stop < 0 { n + stop } else { stop as int };
            let lo = if first < 0 { 0 } else { first };
            let hi = if last > n - 1 { n - 1 } else { last };
            if lo <= hi {
                reply == Ok::<Seq<u8>, Seq<u8>>(array_header((hi - lo + 1) as nat) + bulks(l.subrange(lo, hi + 1)))
            } else {
                reply == Ok::<Seq<u8>, Seq<u8>>(array_header(0) + bulks(Seq::empty()))
            }
        }),
{
    assert(array_header(0) + bulks(Seq::<Seq<u8>>::empty()) =~= empty_array_msg()) by {
        reveal_with_fuel(crate::reply::dec, 1);
    }
}

/// LRANGE from `0` to `-k`, with `k` from `1` to the list's length, answers
/// every item but the last `k - 1`: the items up to the `k`-th from the end.
pub proof fn lemma_lrange_negative_stop(
    a: Seq<Seq<u8>>,
    s0: CtxState,
    s1: CtxState,
    reply: Result<Seq<u8>, Seq<u8>>,
    l: Seq<Seq<u8>>,
    k: isize,
)
    requires
        lrange_behaves(a, s0, s1, reply),
        !refused(CommandKind::Lrange, s0),
        a.len() >= 3,
        list_at(s0.db, a[0]) == Some(l),
        decimal_isize(a[1]) == Some(0isize),
        decimal_isize(a[2]) == Some((-k) as isize),
        1 <= k <= l.len(),
    ensures
        reply == Ok::<Seq<u8>, Seq<u8>>(
            array_header((l.len() - k + 1) as nat) + bulks(l.take(l.len() - k + 1)),
        ),
{
    lemma_lrange_window(a, s0, s1, reply, l, 0, (-k) as isize);
    assert(l.subrange(0, l.len() - k + 1) =~= l.take(l.len() - k + 1));
}

/// LPOP with a count `n` takes `n` items from the front of the list, or all
/// of them where it holds fewer: it answers them (a single bulk string for a
/// count of one, else an array) and leaves the rest. A count of zero answers
/// an empty array and takes nothing.
pub proof fn lemma_lpop_takes_front(
    a: Seq<Seq<u8>>,
    s0: CtxState,
    s1: CtxState,
    reply: Result<Seq<u8>, Seq<u8>>,
    l: Seq<Seq<u8>>,
    n: usize,
)
    requires
        lpop_behaves(a, s0, s1, reply),
        !refused(CommandKind::Lpop, s0),
        a.len() >= 2,
        list_at(s0.db, a[0]) == Some(l),
        l.len() > 0,
        decimal_usize(a[1]) == Some(n),
    ensures
        ({
            let m: int = if n < l.len() { n as int } else { l.len() as int };
            &&& reply == if n == 1 {
                Ok::<Seq<u8>, Seq<u8>>(bulk(l[0]))
            } else {
                Ok::<Seq<u8>, Seq<u8>>(array_header(m as nat) + bulks(l.take(m)))
            }
            &&& list_at(s1.db, a[0]) == Some(l.skip(m))
            &&& s1.db[a[0]].expiry == s0.db[a[0]].expiry
            &&& forall|k: Seq<u8>| k != a[0] ==> #[trigger] s1.db.contains_key(k) == s0.db.contains_key(k)
                && (s0.db.contains_key(k) ==> s1.db[k] == s0.db[k])
        }),
{
    let m: int = if n < l.len() { n as int } else { l.len() as int };
    assert(lpop_taken(a, l.len()) == m);
    if n == 0 {
        assert(l.take(0) =~= Seq::<Seq<u8>>::empty());
        assert(array_header(0) + bulks(Seq::<Seq<u8>>::empty()) =~= empty_array_msg()) by {
            reveal_with_fuel(crate::reply::dec, 1);
        }
    }
    assert forall|k: Seq<u8>| k != a[0] implies #[trigger] s1.db.contains_key(k) == s0.db.contains_key(k)
        && (s0.db.contains_key(k) ==> s1.db[k] == s0.db[k]) by {
        assert(s1.db.remove(a[0]).contains_key(k) == s0.db.remove(a[0]).contains_key(k));
        if s0.db.contains_key(k) {
            assert(s1.db.remove(a[0])[k] == s0.db.remove(a[0])[k]);
        }
    }
}

/// RPUSH puts the values at the back of the list, in the order given, and
/// LPUSH at the front, one after another, so that the last value given
/// comes first; both answer the new length and keep the items already
/// there in their order.
pub proof fn lemma_push_positions(
    k: CommandKind,
    a: Seq<Seq<u8>>,
    s0: CtxState,
    s1: CtxState,
    reply: Result<Seq<u8>, Seq<u8>>,
)
    requires
        k == CommandKind::Rpush || k == CommandKind::Lpush,
        k == CommandKind::Rpush ==> rpush_behaves(a, s0, s1, reply),
        k == CommandKind::Lpush ==> lpush_behaves(a, s0, s1, reply),
        !refused(k, s0),
        a.len() >= 2,
    ensures
        ({
            let old_l = list_before(a, s0);
            let m = a.len() - 1;
            &&& list_at(s1.db, a[0]) matches Some(l) && {
                &&& l.len() == old_l.len() + m
                &&& reply == Ok::<Seq<u8>, Seq<u8>>(integer(l.len()))
                &&& k == CommandKind::Rpush ==> {
                    &&& forall|i: int| 0 <= i < old_l.len() ==> #[trigger] l[i] == old_l[i]
                    &&& forall|j: int| 0 <= j < m ==> #[trigger] l[old_l.len() + j] == a[1 + j]
                }
                &&& k == CommandKind::Lpush ==> {
                    &&& forall|j: int| 0 <= j < m ==> #[trigger] l[j] == a[m - j]
                    &&& forall|i: int| 0 <= i < old_l.len() ==> #[trigger] l[m + i] == old_l[i]
                }
            }
        }),
{
    let old_l = list_before(a, s0);
    let m = a.len() - 1;
    if k == CommandKind::Rpush {
        let items = old_l + a.skip(1);
        assert(list_at(s1.db, a[0]) == Some(items));
        assert forall|j: int| 0 <= j < m implies #[trigger] items[old_l.len() + j] == a[1 + j] by {
            assert(a.skip(1)[j] == a[1 + j]);
        }
    } else {
        let items = a.skip(1).reverse() + old_l;
        assert(list_at(s1.db, a[0]) == Some(items));
        assert forall|j: int| 0 <= j < m implies #[trigger] items[j] == a[m - j] by {
            assert(a.skip(1).reverse()[j] == a.skip(1)[m - 1 - j]);
        }
    }
}

} // verus!
