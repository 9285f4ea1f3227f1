//! XADD.
use vstd::prelude::*;
use crate::commands::{Context, CommandKind, CtxState, state, ctx_wf, args_view, blocked_error,
    subscribed_mode_refusal};
use crate::commands::handlers::{reply_view, refused, same_frame, conn_unchanged};
use crate::commands::messages::{
    missing_key, missing_key_msg, missing_entry_id, missing_entry_id_msg, xadd_zero_id,
    xadd_zero_id_msg, wrong_args_bare, wrong_args_bare_msg, zero_zero, zero_zero_msg,
};
use crate::data_structures::listpack::ListpackValue;
use crate::data_structures::stream::{Stream, StreamID, StreamNode, star, spec_parse_id,
    parse_id_overflows, entry_values, fields_view, fits, added, refuses, id_too_small_error,
    is_star, clock_behind, clock_behind_error,
    pair_values, id_as_text, readable_nodes,
    lemma_add_keeps_readable, lemma_get_after_add};
use crate::reply::{bulk, dec, bulk_reply, push_decimal};
use crate::types::{Entry, Value, changed_only_at, stream_at, take_stream, bytes_eq};

verus! {

/// The field-value pairs of the arguments after the ID.
pub open spec fn arg_pairs(kv: Seq<Seq<u8>>) -> Seq<(Seq<u8>, Seq<u8>)> {
    Seq::new(kv.len() / 2, |i: int| (kv[2 * i], kv[2 * i + 1]))
}

/// The ID as XADD answers it: `<ms>-<seq>`.
pub open spec fn id_text(id: StreamID) -> Seq<u8> {
    dec(id.ms as nat) + seq![45u8] + dec(id.seq as nat)
}

/// The error XADD answers before it reads the ID, if any.
pub open spec fn xadd_arg_error(args: Seq<Seq<u8>>) -> Option<Seq<u8>> {
    if args.len() == 0 {
        Some(missing_key_msg())
    } else if args.len() == 1 {
        Some(missing_entry_id_msg())
    } else if args[1] == zero_zero_msg() {
        Some(xadd_zero_id_msg())
    } else if (args.len() - 2) % 2 != 0 {
        Some(wrong_args_bare_msg())
    } else {
        None
    }
}

/// The ID that XADD reads the new ID after: the stream's last, else `0-0`.
pub open spec fn xadd_last(args: Seq<Seq<u8>>, s: CtxState) -> StreamID {
    match stream_at(s.db, args[0]) {
        Some(st) => match st.last() {
            Some(l) => l,
            None => StreamID { ms: 0, seq: 0 },
        },
        None => StreamID { ms: 0, seq: 0 },
    }
}

/// The wall clock's milliseconds as the ID `input` reads them: those of
/// `clock` for `*`, none for other IDs, which do not read the clock.
pub open spec fn id_clock(input: Seq<u8>, clock: Option<u64>) -> u64 {
    if input == star() {
        match clock {
            Some(now) => now,
            None => 0,
        }
    } else {
        0
    }
}

/// The ID that XADD reads for `input` after `last`, with the wall clock
/// at `clock`: `*` takes the clock's time, and fails where the clock reads
/// before 1970; other IDs read as `StreamID::parse` reads them.
pub open spec fn xadd_parsed(input: Seq<u8>, last: StreamID, clock: Option<u64>) -> Result<StreamID, Seq<u8>> {
    if input == star() && clock is None {
        Err(clock_behind_error())
    } else {
        spec_parse_id(input, last, id_clock(input, clock))
    }
}

/// The elements that XADD stores for the entry `id`.
pub open spec fn xadd_values(args: Seq<Seq<u8>>, id: StreamID) -> Seq<ListpackValue> {
    entry_values(id, arg_pairs(args.skip(2)))
}

/// XADD stays within the machine's numbers: the ID's numbers fit in `u64`,
/// and the entry fits in the listpack it joins.
pub open spec fn xadd_in_range(args: Seq<Seq<u8>>, s: CtxState) -> bool {
    let last = xadd_last(args, s);
    &&& !parse_id_overflows(args[1], last, id_clock(args[1], s.wall_ms))
    &&& xadd_parsed(args[1], last, s.wall_ms) matches Ok(id) ==> match stream_at(s.db, args[0]) {
        Some(st) => !st.add_overflows(id, xadd_values(args, id)),
        None => fits(7, xadd_values(args, id)),
    }
}

/// XADD added the entry `id`: to the stream stored under the key, which
/// keeps its expiry, else to a new stream that replaces what was there.
pub open spec fn xadd_done(
    args: Seq<Seq<u8>>,
    s0: CtxState,
    s1: CtxState,
    reply: Result<Seq<u8>, Seq<u8>>,
    id: StreamID,
) -> bool {
    let base = stream_at(s0.db, args[0]);
    if base matches Some(st) && refuses(st.last(), id) {
        s1 == s0 && reply == Err::<Seq<u8>, Seq<u8>>(id_too_small_error())
    } else {
        &&& reply == Ok::<Seq<u8>, Seq<u8>>(bulk(id_text(id)))
        &&& changed_only_at(s0.db, s1.db, args[0])
        &&& s1.db[args[0]].value matches Value::Stream(st1) && match base {
            Some(st) => added(st.nodes(), st.first_ids(), st.last(), st1, id, xadd_values(args, id)),
            None => added(
                Map::<Seq<u8>, StreamNode>::empty(),
                Seq::<StreamID>::empty(),
                None,
                st1,
                id,
                xadd_values(args, id),
            ),
        }
        &&& s1.db[args[0]].expiry == match base {
            Some(_) => s0.db[args[0]].expiry,
            None => None,
        }
        &&& s1.expiries == s0.expiries
        &&& conn_unchanged(s0, s1)
    }
}

fn zero_id() -> (r: StreamID)
    ensures
        r == (StreamID { ms: 0, seq: 0 }),
{
    StreamID { ms: 0, seq: 0 }
}

fn id_reply(id: StreamID) -> (r: Vec<u8>)
    ensures
        r@ == bulk(id_text(id)),
{
    let mut text: Vec<u8> = Vec::new();
    push_decimal(&mut text, id.ms);
    text.push(45u8);
    push_decimal(&mut text, id.seq);
    assert(text@ =~= id_text(id));
    bulk_reply(text.as_slice())
}

/// XADD may run on these arguments: its numbers stay in range.
pub open spec fn xadd_admits(a: Seq<Seq<u8>>, s0: CtxState) -> bool {
    !refused(CommandKind::Xadd, s0) && xadd_arg_error(a) is None ==> xadd_in_range(a, s0)
}

/// The field-value pairs of XADD's arguments after the ID.
pub(crate) fn arg_fields<'a>(args: &[&'a [u8]]) -> (r: Vec<(&'a [u8], &'a [u8])>)
    requires
        args@.len() >= 2,
        (args@.len() - 2) % 2 == 0,
    ensures
        fields_view(r@) == arg_pairs(args_view(args).skip(2)),
{
    let ghost a = args_view(args);
    let mut fields: Vec<(&[u8], &[u8])> = Vec::new();
    let mut i: usize = 2;
    while i < args.len()
        invariant
            2 <= i <= args@.len(),
            (args@.len() - i) % 2 == 0,
            a == args_view(args),
            i == 2 + 2 * fields@.len(),
            forall|j: int| 0 <= j < fields@.len() ==> (#[trigger] fields@[j]).0@ == a[2 + 2 * j]
                && fields@[j].1@ == a[3 + 2 * j],
        decreases args@.len() - i,
    {
        fields.push((args[i], args[i + 1]));
        i = i + 2;
    }
    assert(fields_view(fields@) =~= arg_pairs(a.skip(2)));
    fields
}

/// What XADD does: it reads the ID after the stream's last and adds the
/// entry.
pub open spec fn xadd_behaves(a: Seq<Seq<u8>>, s0: CtxState, s1: CtxState, reply: Result<Seq<u8>, Seq<u8>>) -> bool {
    if refused(CommandKind::Xadd, s0) {
        s1 == s0 && reply == Err::<Seq<u8>, Seq<u8>>(blocked_error(CommandKind::Xadd))
    } else {
        match xadd_arg_error(a) {
            Some(e) => s1 == s0 && reply == Err::<Seq<u8>, Seq<u8>>(e),
            None => match xadd_parsed(a[1], xadd_last(a, s0), s0.wall_ms) {
                Err(e) => s1 == s0 && reply == Err::<Seq<u8>, Seq<u8>>(e),
                Ok(id) => xadd_done(a, s0, s1, reply, id),
            },
        }
    }
}

/// Reads the ID of an XADD after `last`, with the wall clock at `clock`.
pub(crate) fn read_id(input: &[u8], last: StreamID, clock: Option<u64>) -> (r: Result<StreamID, Vec<u8>>)
    requires
        !parse_id_overflows(input@, last, id_clock(input@, clock)),
    ensures
        match r {
            Ok(id) => xadd_parsed(input@, last, clock) == Ok::<StreamID, Seq<u8>>(id),
            Err(e) => xadd_parsed(input@, last, clock) == Err::<StreamID, Seq<u8>>(e@),
        },
{
    if is_star(input) {
        match clock {
            Some(now) => StreamID::parse_at(input, last, now),
            None => Err(clock_behind()),
        }
    } else {
        StreamID::parse_at(input, last, 0)
    }
}

/// XADD key id field value [field value ...]
pub fn xadd(args: &[&[u8]], ctx: &mut Context) -> (r: Result<Vec<u8>, Vec<u8>>)
    requires
        ctx_wf(&*old(ctx)),
        xadd_admits(args_view(args), state(&*old(ctx))),
    ensures
        ctx_wf(&*final(ctx)),
        same_frame(&*final(ctx), &*old(ctx)),
        xadd_behaves(args_view(args), state(&*old(ctx)), state(&*final(ctx)), reply_view(r)),
{
    if let Some(e) = subscribed_mode_refusal(CommandKind::Xadd, *ctx.is_pubsub) {
        return Err(e);
    }
    if args.len() == 0 {
        return Err(missing_key());
    }
    if args.len() == 1 {
        return Err(missing_entry_id());
    }
    let ghost a = args_view(args);
    let ghost s0 = state(&*ctx);
    let key = args[0];
    let entry_id = args[1];
    assert(key@ == a[0] && entry_id@ == a[1]);
    if bytes_eq(entry_id, zero_zero().as_slice()) {
        return Err(xadd_zero_id());
    }
    if (args.len() - 2) % 2 != 0 {
        return Err(wrong_args_bare());
    }
    let fields = arg_fields(args);
    let ghost last = xadd_last(a, s0);
    match take_stream(ctx.db, key) {
        Some((mut stream, expiry)) => {
            let last_id = match stream.last_entry() {
                Some(l) => l,
                None => zero_id(),
            };
            assert(last_id == last);
            match read_id(entry_id, last_id, ctx.wall_ms) {
                Err(e) => {
                    ctx.db.insert(key, Entry { value: Value::Stream(stream), expiry });
                    assert(state(&*ctx).db =~= s0.db);
                    Err(e)
                },
                Ok(id) => {
                    match stream.add(id, fields.as_slice()) {
                        Err(e) => {
                            ctx.db.insert(key, Entry { value: Value::Stream(stream), expiry });
                            assert(state(&*ctx).db =~= s0.db);
                            assert(xadd_done(a, s0, state(&*ctx), Err::<Seq<u8>, Seq<u8>>(e@), id));
                            Err(e)
                        },
                        Ok(()) => {
                            ctx.db.insert(key, Entry { value: Value::Stream(stream), expiry });
                            assert(state(&*ctx).db.remove(a[0]) =~= s0.db.remove(a[0]));
                            let res = id_reply(id);
                            assert(xadd_done(a, s0, state(&*ctx), Ok::<Seq<u8>, Seq<u8>>(res@), id));
                            Ok(res)
                        },
                    }
                },
            }
        },
        None => {
            let mut stream = Stream::new();
            match read_id(entry_id, zero_id(), ctx.wall_ms) {
                Err(e) => Err(e),
                Ok(id) => {
                    match stream.add(id, fields.as_slice()) {
                        Err(e) => {
                            // A new stream has no last entry and refuses no ID.
                            assert(false);
                            Err(e)
                        },
                        Ok(()) => {
                            ctx.db.insert(key, Entry { value: Value::Stream(stream), expiry: None });
                            assert(state(&*ctx).db.remove(a[0]) =~= s0.db.remove(a[0]));
                            let res = id_reply(id);
                            assert(xadd_done(a, s0, state(&*ctx), Ok::<Seq<u8>, Seq<u8>>(res@), id));
                            Ok(res)
                        },
                    }
                },
            }
        },
    }
}

/// A read gives back what XADD wrote: after an XADD that answers with the
/// ID `id`, to a stream whose entries could all be read back, or to a new
/// one, the stream under the key finds under `id` the fields and values it
/// was given, and all its entries can still be read back, where the parts of
/// `id` are kept as strings.
pub proof fn lemma_xadd_then_lookup(
    a: Seq<Seq<u8>>,
    s0: CtxState,
    s1: CtxState,
    reply: Result<Seq<u8>, Seq<u8>>,
    id: StreamID,
)
    requires
        reply is Ok,
        xadd_done(a, s0, s1, reply, id),
        stream_at(s0.db, a[0]) matches Some(st) ==> st.readable(),
        id_as_text(id),
        arg_pairs(a.skip(2)).len() <= u32::MAX,
    ensures
        stream_at(s1.db, a[0]) matches Some(st1) && st1.lookup(id) == Some(pair_values(arg_pairs(a.skip(2))))
            && st1.readable(),
{
    let fields = arg_pairs(a.skip(2));
    let st1 = s1.db[a[0]].value->Stream_0;
    match stream_at(s0.db, a[0]) {
        Some(st) => {
            lemma_get_after_add(st.nodes(), st.first_ids(), st.last(), st1, id, fields);
            lemma_add_keeps_readable(st.nodes(), st.first_ids(), st.last(), st1, id, fields);
        },
        None => {
            let nodes = Map::<Seq<u8>, StreamNode>::empty();
            let first = Seq::<StreamID>::empty();
            assert(readable_nodes(nodes, None));
            lemma_get_after_add(nodes, first, None, st1, id, fields);
            lemma_add_keeps_readable(nodes, first, None, st1, id, fields);
        },
    }
}

} // verus!
