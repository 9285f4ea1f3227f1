//! A connection's request: parsing it, running its handler, and writing the
//! answer; then the messages that PUBLISH left for other connections.
use vstd::prelude::*;
use crate::commands::{Action, Context, CommandKind, CtxState, action_view, args_view,
    command_named, lookup_command, state, ctx_wf};
use crate::commands::parser::{parse_command, normalize_upper, spec_parse_command, command_panics,
    ascii_upper};
use crate::commands::handlers::{admits, behaves, execute, same_frame};
use crate::commands::messages::{invalid_resp, invalid_resp_msg, unknown_command,
    unknown_command_msg, block_msg, message_header, message_header_msg};
use crate::data_structures::bytes::copy_bytes;
use crate::reply::{bulk, push_bulk, push_bytes};
use crate::server::connection::{ConnView, ConnectionSlab, slab_connections, connection_mut};
use crate::types::{PubSub, bytes_eq};

verus! {

/// What the event loop does once a request was answered.
pub enum Step {
    /// The answer is in the connection's write buffer; `wake` is the key
    /// whose list an RPUSH or LPUSH may have grown.
    Answered { wake: Option<Vec<u8>> },
    /// BLPOP found no item: the connection is to wait on `key`, for as many
    /// seconds as `timeout` spells.
    Block { key: Vec<u8>, timeout: Vec<u8> },
}

/// The contents of a step.
pub enum StepView {
    Answered(Option<Seq<u8>>),
    Block(Seq<u8>, Seq<u8>),
}

/// The contents of step `s`.
pub open spec fn step_view(s: Step) -> StepView {
    match s {
        Step::Answered { wake } => StepView::Answered(
            match wake {
                Some(k) => Some(k@),
                None => None,
            },
        ),
        Step::Block { key, timeout } => StepView::Block(key@, timeout@),
    }
}

/// A command's name in upper case.
pub open spec fn upper(name: Seq<u8>) -> Seq<u8> {
    name.map_values(|b: u8| ascii_upper(b))
}

/// The server takes the request in `buf`: parsing it stays within the
/// machine's numbers, the command's name has at most thirty-two bytes, and
/// the handler may run on the arguments.
pub open spec fn request_admitted(buf: Seq<u8>, s: CtxState) -> bool {
    &&& !command_panics(buf)
    &&& (spec_parse_command(buf) matches Ok((name, args)) ==> {
        &&& name.len() <= 32
        &&& (command_named(upper(name)) matches Some(k) ==> admits(k, args, s))
    })
}

/// `out` was written, and the request left the read buffer.
pub open spec fn written(rb1: Seq<u8>, wb0: Seq<u8>, wb1: Seq<u8>, out: Seq<u8>) -> bool {
    rb1 == Seq::<u8>::empty() && wb1 == wb0 + out
}

/// The request in the read buffer `rb0` of connection `token` was
/// answered at time `now`: an unparsable request gets `-ERR invalid RESP`,
/// an unknown command `-ERR unknown command`; else the handler runs and its
/// answer, reply or error, is written, but for BLPOP's word to block, which
/// leaves both buffers as they were.
pub open spec fn answered(
    rb0: Seq<u8>,
    rb1: Seq<u8>,
    wb0: Seq<u8>,
    wb1: Seq<u8>,
    s0: CtxState,
    s1: CtxState,
    now: u128,
    token: usize,
    step: StepView,
) -> bool {
    match spec_parse_command(rb0) {
        Err(_) => s1 == s0 && written(rb1, wb0, wb1, invalid_resp_msg()) && step == StepView::Answered(None),
        Ok((name, args)) => match command_named(upper(name)) {
            None => s1 == s0 && written(rb1, wb0, wb1, unknown_command_msg()) && step == StepView::Answered(None),
            Some(k) => exists|reply: Result<Seq<u8>, Seq<u8>>| #[trigger] behaves(k, args, s0, s1, now, token, reply)
                && match reply {
                Ok(out) => written(rb1, wb0, wb1, out) && step == StepView::Answered(
                    if (k == CommandKind::Lpush || k == CommandKind::Rpush) && args.len() > 0 {
                        Some(args[0])
                    } else {
                        None
                    },
                ),
                Err(e) => if k == CommandKind::Blpop && e == block_msg() && args.len() >= 2 {
                    rb1 == rb0 && wb1 == wb0 && step == StepView::Block(args[0], args[1])
                } else {
                    written(rb1, wb0, wb1, e) && step == StepView::Answered(None)
                },
            },
        },
    }
}

/// Answers the request in the read buffer at the time and for the
/// connection of `ctx`: parses it, runs its handler on `ctx`, and writes the
/// answer to the write buffer.
pub fn answer_request(read_buffer: &mut Vec<u8>, write_buffer: &mut Vec<u8>, ctx: &mut Context) -> (r: Step)
    requires
        ctx_wf(&*old(ctx)),
        request_admitted(old(read_buffer)@, state(&*old(ctx))),
    ensures
        ctx_wf(&*final(ctx)),
        same_frame(&*final(ctx), &*old(ctx)),
        answered(
            old(read_buffer)@,
            final(read_buffer)@,
            old(write_buffer)@,
            final(write_buffer)@,
            state(&*old(ctx)),
            state(&*final(ctx)),
            old(ctx).now,
            old(ctx).token,
            step_view(r),
        ),
{
    let parsed = parse_command(read_buffer.as_slice());
    match parsed {
        Err(_) => {
            let msg = invalid_resp();
            push_bytes(write_buffer, msg.as_slice());
            read_buffer.clear();
            proof {
                assert(read_buffer@ =~= Seq::<u8>::empty());
            }
            Step::Answered { wake: None }
        },
        Ok(command) => {
            let ghost args = command.args_view();
            let mut temp: [u8; 32] = [0u8; 32];
            let name = normalize_upper(command.name, &mut temp);
            match lookup_command(name) {
                None => {
                    let msg = unknown_command();
                    push_bytes(write_buffer, msg.as_slice());
                    read_buffer.clear();
                    proof {
                        assert(read_buffer@ =~= Seq::<u8>::empty());
                    }
                    Step::Answered { wake: None }
                },
                Some(k) => {
                    let argv = command.args.as_slice();
                    assert(args_view(argv) =~= args);
                    let res = execute(k, argv, ctx);
                    match res {
                        Ok(out) => {
                            push_bytes(write_buffer, out.as_slice());
                            let wake: Option<Vec<u8>> = if (k == CommandKind::Lpush || k == CommandKind::Rpush)
                                && argv.len() > 0 {
                                Some(copy_bytes(argv[0]))
                            } else {
                                None
                            };
                            read_buffer.clear();
                            proof {
                                assert(read_buffer@ =~= Seq::<u8>::empty());
                            }
                            Step::Answered { wake }
                        },
                        Err(e) => {
                            let word = block_msg_bytes();
                            if k == CommandKind::Blpop && bytes_eq(e.as_slice(), word.as_slice())
                                && argv.len() >= 2 {
                                let key = copy_bytes(argv[0]);
                                let timeout = copy_bytes(argv[1]);
                                Step::Block { key, timeout }
                            } else {
                                push_bytes(write_buffer, e.as_slice());
                                read_buffer.clear();
                                proof {
                                    assert(read_buffer@ =~= Seq::<u8>::empty());
                                }
                                Step::Answered { wake: None }
                            }
                        },
                    }
                },
            }
        },
    }
}

/// What a subscriber of `channel` gets for `message`.
pub open spec fn message_frame(channel: Seq<u8>, message: Seq<u8>) -> Seq<u8> {
    message_header_msg() + bulk(channel) + bulk(message)
}

/// The connections after `frame` was written to those of the tokens `subs`
/// that the slab holds, and the tokens whose write buffer this made
/// non-empty.
pub open spec fn deliver(
    conns: Map<usize, ConnView>,
    subs: Seq<usize>,
    frame: Seq<u8>,
) -> (Map<usize, ConnView>, Seq<usize>)
    decreases subs.len(),
{
    if subs.len() == 0 {
        (conns, Seq::empty())
    } else {
        let d = deliver(conns, subs.drop_last(), frame);
        let t = subs.last();
        if t >= 1 && d.0.contains_key((t - 1) as usize) {
            let c = d.0[(t - 1) as usize];
            (
                d.0.insert((t - 1) as usize, ConnView { write_buffer: c.write_buffer + frame, ..c }),
                d.1 + if c.write_buffer.len() == 0 { seq![t] } else { Seq::empty() },
            )
        } else {
            d
        }
    }
}

/// The connections after the published messages `acts` reached the
/// subscribers of their channels, the last message first, and the tokens
/// whose write buffer this made non-empty.
pub open spec fn publish_all(
    conns: Map<usize, ConnView>,
    pubsub: Map<Seq<u8>, Seq<usize>>,
    acts: Seq<(Seq<u8>, Seq<u8>)>,
) -> (Map<usize, ConnView>, Seq<usize>)
    decreases acts.len(),
{
    if acts.len() == 0 {
        (conns, Seq::empty())
    } else {
        let a = acts.last();
        let subs = if pubsub.contains_key(a.0) { pubsub[a.0] } else { Seq::empty() };
        let d = deliver(conns, subs, message_frame(a.0, a.1));
        let rest = publish_all(d.0, pubsub, acts.drop_last());
        (rest.0, d.1 + rest.1)
    }
}

/// Writes the messages that PUBLISH left, the last first, to the
/// connections subscribed to their channels, and empties the list. Answers
/// the tokens whose write buffer this made non-empty, for the event loop to
/// watch them for writing.
pub fn deliver_actions(
    actions: &mut Vec<Action>,
    pubsub: &PubSub,
    connections: &mut ConnectionSlab,
) -> (watch: Vec<usize>)
    requires
        pubsub.wf(),
    ensures
        final(actions)@.len() == 0,
        publish_all(
            slab_connections(*old(connections)),
            pubsub@.map_values(|v: Vec<usize>| v@),
            old(actions)@.map_values(|a: Action| action_view(a)),
        ) == (slab_connections(*final(connections)), watch@),
{
    let ghost pv = pubsub@.map_values(|v: Vec<usize>| v@);
    let ghost goal = publish_all(
        slab_connections(*connections),
        pv,
        actions@.map_values(|a: Action| action_view(a)),
    );
    let mut watch: Vec<usize> = Vec::new();
    while actions.len() > 0
        invariant
            pubsub.wf(),
            pv == pubsub@.map_values(|v: Vec<usize>| v@),
            goal == ({
                let rest = publish_all(
                    slab_connections(*connections),
                    pv,
                    actions@.map_values(|a: Action| action_view(a)),
                );
                (rest.0, watch@ + rest.1)
            }),
        decreases actions@.len(),
    {
        let ghost acts0 = actions@.map_values(|a: Action| action_view(a));
        let ghost c0 = slab_connections(*connections);
        let ghost w0 = watch@;
        let action = actions.pop().unwrap();
        assert(actions@.map_values(|a: Action| action_view(a)) =~= acts0.drop_last());
        let Action::Publish { channel, message } = action;
        assert(acts0.last() == (channel@, message@));
        let mut frame = message_header();
        push_bulk(&mut frame, channel.as_slice());
        push_bulk(&mut frame, message.as_slice());
        assert(frame@ =~= message_frame(channel@, message@));
        let ghost subs_v: Seq<usize> = if pv.contains_key(channel@) { pv[channel@] } else { Seq::empty() };
        match pubsub.get(channel.as_slice()) {
            Some(subs) => {
                let mut i: usize = 0;
                assert(subs@.take(0) =~= Seq::<usize>::empty());
                while i < subs.len()
                    invariant
                        i <= subs@.len(),
                        subs@ == subs_v,
                        ({
                            let d = deliver(c0, subs@.take(i as int), frame@);
                            slab_connections(*connections) == d.0 && watch@ == w0 + d.1
                        }),
                    decreases subs@.len() - i,
                {
                    let t = subs[i];
                    assert(subs@.take(i + 1).drop_last() =~= subs@.take(i as int));
                    assert(subs@.take(i + 1).last() == t);
                    let ghost w1 = watch@;
                    if t >= 1 {
                        match connection_mut(connections, t - 1) {
                            Some(c) => {
                                let was_empty = c.write_buffer.len() == 0;
                                push_bytes(&mut c.write_buffer, frame.as_slice());
                                if was_empty {
                                    watch.push(t);
                                }
                            },
                            None => {},
                        }
                    }
                    proof {
                        let d = deliver(c0, subs@.take(i as int), frame@);
                        assert(w1 == w0 + d.1);
                        assert(watch@ =~= w0 + deliver(c0, subs@.take(i + 1), frame@).1);
                    }
                    i = i + 1;
                }
                assert(subs@.take(subs@.len() as int) =~= subs@);
            },
            None => {
                assert(watch@ =~= w0 + Seq::<usize>::empty());
            },
        }
        proof {
            let d = deliver(c0, subs_v, message_frame(channel@, message@));
            let rest = publish_all(d.0, pv, acts0.drop_last());
            assert(w0 + (d.1 + rest.1) =~= watch@ + rest.1);
        }
    }
    assert(actions@.map_values(|a: Action| action_view(a)) =~= Seq::<(Seq<u8>, Seq<u8>)>::empty());
    assert(watch@ + Seq::<usize>::empty() =~= watch@);
    watch
}

fn block_msg_bytes() -> (r: Vec<u8>)
    ensures
        r@ == block_msg(),
{
    crate::commands::messages::block()
}

proof fn lemma_deliver_skips(conns: Map<usize, ConnView>, subs: Seq<usize>, frame: Seq<u8>, t: usize)
    requires
        t >= 1,
        !subs.contains(t),
    ensures
        deliver(conns, subs, frame).0.contains_key((t - 1) as usize) == conns.contains_key((t - 1) as usize),
        conns.contains_key((t - 1) as usize) ==> deliver(conns, subs, frame).0[(t - 1) as usize]
            == conns[(t - 1) as usize],
    decreases subs.len(),
{
    if subs.len() > 0 {
        assert(!subs.drop_last().contains(t)) by {
            if subs.drop_last().contains(t) {
                let i = choose|i: int| 0 <= i < subs.drop_last().len() && subs.drop_last()[i] == t;
                assert(subs[i] == t);
            }
        }
        assert(subs.last() != t) by {
            assert(subs[subs.len() - 1] == subs.last());
        }
        lemma_deliver_skips(conns, subs.drop_last(), frame, t);
    }
}

/// A subscriber listed once for a channel gets the frame once.
pub proof fn lemma_subscriber_gets_frame(conns: Map<usize, ConnView>, subs: Seq<usize>, frame: Seq<u8>, t: usize)
    requires
        t >= 1,
        conns.contains_key((t - 1) as usize),
        subs.contains(t),
        forall|i: int, j: int| 0 <= i < subs.len() && 0 <= j < subs.len() && subs[i] == t && subs[j] == t ==> i == j,
    ensures
        deliver(conns, subs, frame).0.contains_key((t - 1) as usize),
        deliver(conns, subs, frame).0[(t - 1) as usize].write_buffer == conns[(t - 1) as usize].write_buffer + frame,
    decreases subs.len(),
{
    let k = (t - 1) as usize;
    let init = subs.drop_last();
    let last = subs.last();
    assert(last == subs[subs.len() - 1]);
    if last == t {
        assert(!init.contains(t)) by {
            if init.contains(t) {
                let i = choose|i: int| 0 <= i < init.len() && init[i] == t;
                assert(subs[i] == t);
            }
        }
        lemma_deliver_skips(conns, init, frame, t);
    } else {
        assert(init.contains(t)) by {
            let i = choose|i: int| 0 <= i < subs.len() && subs[i] == t;
            assert(i < subs.len() - 1);
            assert(init[i] == t);
        }
        assert forall|i: int, j: int| 0 <= i < init.len() && 0 <= j < init.len() && init[i] == t && init[j] == t
            implies i == j by {
            assert(subs[i] == t && subs[j] == t);
        }
        lemma_subscriber_gets_frame(conns, init, frame, t);
    }
}

/// A message published on a channel reaches each connection subscribed to
/// it once: its write buffer grows by the message's frame.
pub proof fn lemma_published_message_reaches_subscriber(
    conns: Map<usize, ConnView>,
    pubsub: Map<Seq<u8>, Seq<usize>>,
    channel: Seq<u8>,
    message: Seq<u8>,
    t: usize,
)
    requires
        t >= 1,
        conns.contains_key((t - 1) as usize),
        pubsub.contains_key(channel),
        pubsub[channel].contains(t),
        forall|i: int, j: int| 0 <= i < pubsub[channel].len() && 0 <= j < pubsub[channel].len()
            && pubsub[channel][i] == t && pubsub[channel][j] == t ==> i == j,
    ensures
        publish_all(conns, pubsub, seq![(channel, message)]).0[(t - 1) as usize].write_buffer
            == conns[(t - 1) as usize].write_buffer + message_frame(channel, message),
{
    let acts = seq![(channel, message)];
    assert(acts.last() == (channel, message));
    assert(acts.drop_last() =~= Seq::<(Seq<u8>, Seq<u8>)>::empty());
    lemma_subscriber_gets_frame(conns, pubsub[channel], message_frame(channel, message), t);
    let d = deliver(conns, pubsub[channel], message_frame(channel, message));
    assert(publish_all(d.0, pubsub, acts.drop_last()).0 == d.0);
    assert(publish_all(conns, pubsub, acts).0 == d.0);
}

} // verus!
