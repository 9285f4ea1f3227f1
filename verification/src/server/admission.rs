//! Whether the server takes a request: parsing it and running its handler
//! stay within the machine's numbers, and what the handler reads as text or
//! as a number is text or a number.
use vstd::prelude::*;
use crate::commands::{Context, CommandKind, state, ctx_wf, args_view, lookup_command,
    allowed_when_subscribed};
use crate::commands::parser::{parse_command, parse_bulk_string, normalize_upper, read_line,
    command_panics, bulk_overflows, args_overflow};
use crate::commands::handlers::{admits, refused};
use crate::commands::handlers::strings::ttl_unit_of;
use crate::commands::handlers::streams::{xadd_arg_error, xadd_last, xadd_in_range, read_id, arg_fields};
use crate::data_structures::stream::{StreamID, id_overflows, is_star, entry_fits};
use crate::decimal::{parse_isize, parse_usize};
use crate::server::event::request_admitted;
use crate::types::{Value, bytes_eq};

verus! {

fn bulk_overflow_at(buf: &[u8], p: usize) -> (r: bool)
    ensures
        r == bulk_overflows(buf@, p as int),
{
    if p >= buf.len() || buf[p] != 36u8 {
        return false;
    }
    let (a, e) = match read_line(buf, p + 1) {
        Some(x) => x,
        None => {
            return false;
        },
    };
    match parse_usize(&buf[a..e - 2]) {
        Some(n) => (e as u128) + (n as u128) + 2 > usize::MAX as u128,
        None => false,
    }
}

/// Whether parsing the request in `buf` would overflow.
pub fn command_overflows(buf: &[u8]) -> (r: bool)
    ensures
        r == command_panics(buf@),
{
    if buf.len() == 0 || buf[0] != 42u8 {
        return false;
    }
    let (a, e) = match read_line(buf, 1) {
        Some(x) => x,
        None => {
            return false;
        },
    };
    let c = match parse_usize(&buf[a..e - 2]) {
        Some(c) => c,
        None => {
            return false;
        },
    };
    if bulk_overflow_at(buf, e) {
        return true;
    }
    let q = match parse_bulk_string(buf, e) {
        Some((_, q)) => q,
        None => {
            return false;
        },
    };
    if c == 0 {
        return true;
    }
    let remaining = c - 1;
    let mut pos = q;
    let mut k: usize = 0;
    while k < remaining
        invariant
            k <= remaining,
            command_panics(buf@) == args_overflow(buf@, pos as int, (remaining - k) as nat),
        decreases remaining - k,
    {
        if bulk_overflow_at(buf, pos) {
            return true;
        }
        let next = match parse_bulk_string(buf, pos) {
            Some((_, n)) => n,
            None => {
                return false;
            },
        };
        pos = next;
        k = k + 1;
    }
    false
}

fn utf8_valid(b: &[u8]) -> (r: bool)
    ensures
        r == vstd::utf8::valid_utf8(b@),
{
    crate::resp::utf8_text(b).is_some()
}

fn is_pubsub_refused(k: CommandKind, is_pubsub: bool) -> (r: bool)
    ensures
        r == (is_pubsub && !allowed_when_subscribed(k)),
{
    is_pubsub && !(k == CommandKind::Ping || k == CommandKind::Subscribe || k == CommandKind::Unsubscribe)
}

fn xadd_admissible(args: &[&[u8]], ctx: &Context) -> (r: bool)
    requires
        ctx_wf(ctx),
        !refused(CommandKind::Xadd, state(ctx)),
        xadd_arg_error(args_view(args)) is None,
    ensures
        r == xadd_in_range(args_view(args), state(ctx)),
{
    let ghost a = args_view(args);
    let ghost s = state(ctx);
    assert(args[0]@ == a[0] && args[1]@ == a[1]);
    let zero = StreamID { ms: 0, seq: 0 };
    let last = match ctx.db.get(args[0]) {
        Some(e) => match &e.value {
            Value::Stream(st) => match st.last_entry() {
                Some(l) => l,
                None => zero,
            },
            _ => zero,
        },
        None => zero,
    };
    assert(last == xadd_last(a, s));
    let id = args[1];
    let clock: u64 = if is_star(id) {
        match ctx.wall_ms {
            Some(now) => now,
            None => 0,
        }
    } else {
        0
    };
    if id_overflows(id, last, clock) {
        return false;
    }
    match read_id(id, last, ctx.wall_ms) {
        Err(_) => true,
        Ok(nid) => {
            let fields = arg_fields(args);
            match ctx.db.get(args[0]) {
                Some(e) => match &e.value {
                    Value::Stream(st) => !st.add_would_overflow(nid, fields.as_slice()),
                    _ => entry_fits(7, nid, fields.as_slice()),
                },
                None => entry_fits(7, nid, fields.as_slice()),
            }
        },
    }
}

fn handler_admissible(k: CommandKind, args: &[&[u8]], ctx: &Context) -> (r: bool)
    requires
        ctx_wf(ctx),
    ensures
        r == admits(k, args_view(args), state(ctx)),
{
    let ghost a = args_view(args);
    let ghost s = state(ctx);
    if is_pubsub_refused(k, *ctx.is_pubsub) {
        return true;
    }
    match k {
        CommandKind::SetValue => {
            if args.len() > 2 {
                assert(args[2]@ == a[2]);
                if !utf8_valid(args[2]) {
                    return false;
                }
                if args.len() > 3 && ttl_unit_of(args[2]).is_some() {
                    assert(args[3]@ == a[3]);
                    return utf8_valid(args[3]);
                }
            }
            true
        },
        CommandKind::Lrange => {
            if args.len() < 3 {
                return true;
            }
            assert(args[0]@ == a[0] && args[1]@ == a[1] && args[2]@ == a[2]);
            match ctx.db.get(args[0]) {
                Some(e) => match &e.value {
                    Value::List(_) => parse_isize(args[1]).is_some() && parse_isize(args[2]).is_some(),
                    _ => true,
                },
                None => true,
            }
        },
        CommandKind::Lpop => {
            if args.len() <= 1 {
                return true;
            }
            assert(args[0]@ == a[0] && args[1]@ == a[1]);
            match ctx.db.get(args[0]) {
                Some(e) => match &e.value {
                    Value::List(l) => l.len() == 0 || parse_usize(args[1]).is_some(),
                    _ => true,
                },
                None => true,
            }
        },
        CommandKind::Xadd => {
            if args.len() < 2 {
                return true;
            }
            assert(args[1]@ == a[1]);
            let zz: Vec<u8> = vec![48u8, 45, 48];
            assert(zz@ == crate::commands::messages::zero_zero_msg());
            if bytes_eq(args[1], zz.as_slice()) {
                return true;
            }
            if (args.len() - 2) % 2 != 0 {
                return true;
            }
            xadd_admissible(args, ctx)
        },
        _ => true,
    }
}

/// Whether the server takes the request in `buf` from the connection of
/// `ctx`: it parses within the machine's numbers, names its command in at
/// most thirty-two bytes and gives its handler what the handler reads.
pub fn request_admissible(buf: &[u8], ctx: &Context) -> (r: bool)
    requires
        ctx_wf(ctx),
    ensures
        r == request_admitted(buf@, state(ctx)),
{
    if command_overflows(buf) {
        return false;
    }
    match parse_command(buf) {
        Err(_) => true,
        Ok(command) => {
            if command.name.len() > 32 {
                return false;
            }
            let mut temp: [u8; 32] = [0u8; 32];
            let name = normalize_upper(command.name, &mut temp);
            match lookup_command(name) {
                None => true,
                Some(k) => {
                    let argv = command.args.as_slice();
                    assert(args_view(argv) =~= command.args_view());
                    handler_admissible(k, argv, ctx)
                },
            }
        },
    }
}

} // verus!
