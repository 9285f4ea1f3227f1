//! The RESP request parser: a request is an array header `*<count>\r\n`
//! followed by bulk strings `$<len>\r\n<bytes>\r\n`, the first of them the
//! command's name.
use vstd::prelude::*;
use crate::decimal::{decimal_usize, parse_usize, all_digits, digits_value, is_digit};
use crate::reply::{dec, bulk, bulks, array_header};

verus! {

/// A line ends at `i`: `\r\n` stands at `i` and `i + 1`.
pub open spec fn crlf_at(s: Seq<u8>, i: int) -> bool {
    0 <= i && i + 1 < s.len() && s[i] == 13 && s[i + 1] == 10
}

/// The first position at or after `i` where a line ends.
pub open spec fn find_crlf(s: Seq<u8>, i: int) -> Option<int>
    decreases s.len() - i,
{
    if i < 0 || i + 1 >= s.len() {
        None
    } else if crlf_at(s, i) {
        Some(i)
    } else {
        find_crlf(s, i + 1)
    }
}

/// What `read_line` finds: the line's start and the position just after its
/// `\r\n`.
pub open spec fn spec_read_line(s: Seq<u8>, start: int) -> Option<(int, int)> {
    match find_crlf(s, start) {
        Some(i) => Some((start, i + 2)),
        None => None,
    }
}

/// The header of a bulk string at `start`: where its data begins and the
/// length it announces.
pub open spec fn bulk_header(s: Seq<u8>, start: int) -> Option<(int, nat)> {
    if 0 <= start < s.len() && s[start] == 36 {
        match find_crlf(s, start + 1) {
            Some(i) => match decimal_usize(s.subrange(start + 1, i)) {
                Some(n) => Some((i + 2, n as nat)),
                None => None,
            },
            None => None,
        }
    } else {
        None
    }
}

/// The bulk string at `start`: where its data begins and ends, and where the
/// next element begins.
pub open spec fn spec_parse_bulk(s: Seq<u8>, start: int) -> Option<(int, int, int)> {
    match bulk_header(s, start) {
        Some((d, n)) => if d + n + 2 <= s.len() {
            Some((d, d + n, d + n + 2))
        } else {
            None
        },
        None => None,
    }
}

/// The bulk string at `start` announces a length whose end position does not
/// fit in `usize`: the parser's arithmetic would overflow.
pub open spec fn bulk_overflows(s: Seq<u8>, start: int) -> bool {
    match bulk_header(s, start) {
        Some((d, n)) => d + n + 2 > usize::MAX,
        None => false,
    }
}

/// `n` bulk strings one after the other from `pos`: their contents and the
/// position after the last.
pub open spec fn spec_parse_args(s: Seq<u8>, pos: int, n: nat) -> Option<(Seq<Seq<u8>>, int)>
    decreases n,
{
    if n == 0 {
        Some((Seq::empty(), pos))
    } else {
        match spec_parse_bulk(s, pos) {
            Some((a, b, c)) => match spec_parse_args(s, c, (n - 1) as nat) {
                Some((rest, e)) => Some((seq![s.subrange(a, b)] + rest, e)),
                None => None,
            },
            None => None,
        }
    }
}

/// Reading `n` bulk strings from `pos` reaches one whose length overflows
/// before any of them fails to parse.
pub open spec fn args_overflow(s: Seq<u8>, pos: int, n: nat) -> bool
    decreases n,
{
    if n == 0 {
        false
    } else if bulk_overflows(s, pos) {
        true
    } else {
        match spec_parse_bulk(s, pos) {
            Some((_a, _b, c)) => args_overflow(s, c, (n - 1) as nat),
            None => false,
        }
    }
}

/// The array header of a request: the element count and where the first
/// element begins.
pub open spec fn command_header(s: Seq<u8>) -> Option<(nat, int)> {
    if s.len() > 0 && s[0] == 42 {
        match find_crlf(s, 1) {
            Some(i) => match decimal_usize(s.subrange(1, i)) {
                Some(c) => Some((c as nat, i + 2)),
                None => None,
            },
            None => None,
        }
    } else {
        None
    }
}

/// The inputs on which the parser's arithmetic would fail: a length that
/// overflows, or an array that announces no elements although a name
/// follows.
pub open spec fn command_panics(s: Seq<u8>) -> bool {
    match command_header(s) {
        Some((c, p)) => bulk_overflows(s, p) || match spec_parse_bulk(s, p) {
            Some((_a, _b, q)) => c == 0 || args_overflow(s, q, (c - 1) as nat),
            None => false,
        },
        None => false,
    }
}

/// `No Command`
pub open spec fn no_command_error() -> Seq<u8> {
    seq![78u8, 111, 32, 67, 111, 109, 109, 97, 110, 100]
}

/// `Invalid`
pub open spec fn invalid_error() -> Seq<u8> {
    seq![73u8, 110, 118, 97, 108, 105, 100]
}

/// What a request parses to: the command's name and its arguments, or the
/// error that the parser answers.
pub open spec fn spec_parse_command(s: Seq<u8>) -> Result<(Seq<u8>, Seq<Seq<u8>>), Seq<u8>> {
    if !(s.len() > 0 && s[0] == 42) {
        Err(no_command_error())
    } else {
        match command_header(s) {
            Some((c, p)) => match spec_parse_bulk(s, p) {
                Some((a, b, q)) => match spec_parse_args(s, q, (c - 1) as nat) {
                    Some((args, _e)) => Ok((s.subrange(a, b), args)),
                    None => Err(invalid_error()),
                },
                None => Err(invalid_error()),
            },
            None => Err(invalid_error()),
        }
    }
}

/// A line end found from `i` lies at or after `i`.
pub proof fn lemma_find_crlf(s: Seq<u8>, i: int)
    ensures
        find_crlf(s, i) matches Some(j) ==> i <= j && crlf_at(s, j),
    decreases s.len() - i,
{
    if !(i < 0 || i + 1 >= s.len()) && !crlf_at(s, i) {
        lemma_find_crlf(s, i + 1);
    }
}

/// Finds the end of the line that starts at `start`: returns `start` and the
/// position just after the first `\r\n` at or after `start`.
pub fn read_line(buf: &[u8], start: usize) -> (r: Option<(usize, usize)>)
    requires
        buf@.len() >= 1,
    ensures
        match r {
            Some((a, e)) => spec_read_line(buf@, start as int) == Some((a as int, e as int)),
            None => spec_read_line(buf@, start as int) is None,
        },
        r matches Some((a, e)) ==> a == start && start + 2 <= e <= buf@.len(),
{
    proof { lemma_find_crlf(buf@, start as int); }
    let end = buf.len() - 1;
    let mut i = start;
    while i < end
        invariant
            end == buf@.len() - 1,
            start <= i,
            i < end ==> find_crlf(buf@, start as int) == find_crlf(buf@, i as int),
            i >= end ==> find_crlf(buf@, start as int) is None,
        decreases end - i,
    {
        if buf[i] == 13u8 && buf[i + 1] == 10u8 {
            return Some((start, i + 2));
        }
        i = i + 1;
    }
    None
}

/// Parses the bulk string `$<len>\r\n<bytes>\r\n` at `start`: returns its
/// bytes and the position of the element after it.
pub fn parse_bulk_string(buf: &[u8], start: usize) -> (r: Option<(&[u8], usize)>)
    requires
        !bulk_overflows(buf@, start as int),
    ensures
        match r {
            Some((d, next)) => match spec_parse_bulk(buf@, start as int) {
                Some((a, b, c)) => d@ == buf@.subrange(a, b) && next == c,
                None => false,
            },
            None => spec_parse_bulk(buf@, start as int) is None,
        },
{
    if start >= buf.len() || buf[start] != 36u8 {
        return None;
    }
    let (len_start, len_end) = match read_line(buf, start + 1) {
        Some(p) => p,
        None => return None,
    };
    let len = match parse_usize(&buf[len_start..len_end - 2]) {
        Some(n) => n,
        None => return None,
    };
    let data_start = len_end;
    let data_end = data_start + len;
    if data_end + 2 > buf.len() {
        return None;
    }
    Some((&buf[data_start..data_end], data_end + 2))
}

/// Writes the ASCII upper case of `cmd` into the front of `buf` and returns
/// that part of `buf`.
pub fn normalize_upper<'a>(cmd: &[u8], buf: &'a mut [u8]) -> (r: &'a [u8])
    requires
        cmd@.len() <= old(buf)@.len(),
    ensures
        r@ == cmd@.map_values(|b: u8| ascii_upper(b)),
        final(buf)@.len() == old(buf)@.len(),
        final(buf)@.subrange(0, cmd@.len() as int) == cmd@.map_values(|b: u8| ascii_upper(b)),
        final(buf)@.subrange(cmd@.len() as int, old(buf)@.len() as int)
            == old(buf)@.subrange(cmd@.len() as int, old(buf)@.len() as int),
{
    let n = cmd.len();
    let mut i: usize = 0;
    while i < n
        invariant
            n == cmd@.len(),
            i <= n,
            n <= buf@.len(),
            buf@.len() == old(buf)@.len(),
            forall|j: int| 0 <= j < i ==> buf@[j] == ascii_upper(cmd@[j]),
            forall|j: int| n <= j < buf@.len() ==> buf@[j] == old(buf)@[j],
        decreases n - i,
    {
        buf[i] = to_ascii_upper(cmd[i]);
        i = i + 1;
    }
    assert(buf@.subrange(0, n as int) =~= cmd@.map_values(|b: u8| ascii_upper(b)));
    assert(buf@.subrange(n as int, buf@.len() as int) =~= old(buf)@.subrange(n as int, buf@.len() as int));
    &buf[0..n]
}

/// The ASCII upper case of a byte: `a`..`z` become `A`..`Z`, every other byte
/// stays.
pub open spec fn ascii_upper(b: u8) -> u8 {
    if 97 <= b <= 122 { (b - 32) as u8 } else { b }
}

fn to_ascii_upper(b: u8) -> (r: u8)
    ensures
        r == ascii_upper(b),
{
    if 97u8 <= b && b <= 122u8 { b - 32 } else { b }
}

/// A parsed request: the command's name and its arguments, each a slice of
/// the request buffer.
pub struct Command<'a> {
    pub name: &'a [u8],
    pub args: Vec<&'a [u8]>,
}

impl<'a> Command<'a> {
    /// The arguments' contents.
    pub open spec fn args_view(&self) -> Seq<Seq<u8>> {
        self.args@.map_values(|a: &[u8]| a@)
    }
}

/// Parses a request `*<count>\r\n` followed by `count` bulk strings, the first
/// of them the command's name.
pub fn parse_command(buf: &[u8]) -> (r: Result<Command<'_>, Vec<u8>>)
    requires
        !command_panics(buf@),
    ensures
        match r {
            Ok(c) => spec_parse_command(buf@) == Ok::<(Seq<u8>, Seq<Seq<u8>>), Seq<u8>>((c.name@, c.args_view())),
            Err(e) => spec_parse_command(buf@) == Err::<(Seq<u8>, Seq<Seq<u8>>), Seq<u8>>(e@),
        },
{
    if buf.len() == 0 || buf[0] != 42u8 {
        let e: Vec<u8> = vec![78u8, 111, 32, 67, 111, 109, 109, 97, 110, 100];
        assert(e@ == no_command_error());
        return Err(e);
    }
    let (count_start, count_end) = match read_line(buf, 1) {
        Some(p) => p,
        None => return Err(invalid()),
    };
    let count = match parse_usize(&buf[count_start..count_end - 2]) {
        Some(c) => c,
        None => return Err(invalid()),
    };
    let mut pos = count_end;
    let (cmd_bytes, new_pos) = match parse_bulk_string(buf, pos) {
        Some(p) => p,
        None => return Err(invalid()),
    };
    pos = new_pos;
    let ghost first: int = pos as int;
    let remaining = count - 1;
    let mut args: Vec<&[u8]> = Vec::new();
    let mut k: usize = 0;
    while k < remaining
        invariant
            k <= remaining,
            spec_parse_command(buf@) == (match spec_parse_args(buf@, first, remaining as nat) {
                Some((a, _e)) => Ok::<(Seq<u8>, Seq<Seq<u8>>), Seq<u8>>((cmd_bytes@, a)),
                None => Err(invalid_error()),
            }),
            !args_overflow(buf@, pos as int, (remaining - k) as nat),
            args@.len() == k,
            match spec_parse_args(buf@, pos as int, (remaining - k) as nat) {
                Some((rest, e)) => spec_parse_args(buf@, first, remaining as nat) == Some(
                    (args@.map_values(|a: &[u8]| a@) + rest, e),
                ),
                None => spec_parse_args(buf@, first, remaining as nat) is None,
            },
        decreases remaining - k,
    {
        let (arg, next) = match parse_bulk_string(buf, pos) {
            Some(p) => p,
            None => {
                assert(spec_parse_args(buf@, pos as int, (remaining - k) as nat) is None);
                return Err(invalid());
            },
        };
        let ghost old_args = args@.map_values(|a: &[u8]| a@);
        args.push(arg);
        proof {
            assert(args@.map_values(|a: &[u8]| a@) =~= old_args.push(arg@));
            match spec_parse_args(buf@, next as int, (remaining - k - 1) as nat) {
                Some((rest, e)) => {
                    assert(old_args + (seq![arg@] + rest) =~= old_args.push(arg@) + rest);
                },
                None => {},
            }
        }
        pos = next;
        k = k + 1;
    }
    proof {
        assert(args@.map_values(|a: &[u8]| a@) + Seq::<Seq<u8>>::empty() =~= args@.map_values(|a: &[u8]| a@));
    }
    Ok(Command { name: cmd_bytes, args })
}

fn invalid() -> (r: Vec<u8>)
    ensures
        r@ == invalid_error(),
{
    let e: Vec<u8> = vec![73u8, 110, 118, 97, 108, 105, 100];
    assert(e@ == invalid_error());
    e
}

/// The decimal digits that the replies write spell their number, and the
/// parser reads them back.
pub proof fn lemma_dec_parses(n: nat)
    ensures
        dec(n).len() > 0,
        all_digits(dec(n)),
        digits_value(dec(n)) == n,
        n <= usize::MAX ==> decimal_usize(dec(n)) == Some(n as usize),
    decreases n,
{
    let d = dec(n);
    assert(digits_value(Seq::<u8>::empty()) == 0);
    if n >= 10 {
        lemma_dec_parses(n / 10);
        assert(d.drop_last() =~= dec(n / 10));
        assert(d.last() == (48 + n % 10) as u8);
        assert(digits_value(d) == digits_value(dec(n / 10)) * 10 + (d.last() - 48) as nat);
        assert forall|i: int| 0 <= i < d.len() implies is_digit(#[trigger] d[i]) by {
            if i < d.len() - 1 {
                assert(d[i] == dec(n / 10)[i]);
            }
        }
    } else {
        assert(d.drop_last() =~= Seq::<u8>::empty());
        assert(digits_value(d) == digits_value(d.drop_last()) * 10 + (d.last() - 48) as nat);
    }
    assert(is_digit(d[0]));
}

proof fn lemma_bulks_len(items: Seq<Seq<u8>>)
    ensures
        bulks(items).len() >= items.len(),
    decreases items.len(),
{
    if items.len() > 0 {
        lemma_bulks_len(items.drop_last());
    }
}

proof fn lemma_find_crlf_after(x: Seq<u8>, i: int, p: int)
    requires
        0 <= i <= p,
        forall|j: int| i <= j < p ==> x[j] != 13,
        crlf_at(x, p),
    ensures
        find_crlf(x, i) == Some(p),
    decreases p - i,
{
    if i < p {
        lemma_find_crlf_after(x, i + 1, p);
    }
}

/// A number line `<digits of n>\r\n` at `p + 1`, after the byte at `p`:
/// the parser finds its end and reads `n`.
proof fn lemma_number_line(x: Seq<u8>, p: int, n: nat)
    requires
        0 <= p,
        n <= usize::MAX,
        p + 1 + dec(n).len() + 2 <= x.len(),
        x.subrange(p + 1, p + 1 + dec(n).len()) == dec(n),
        x[p + 1 + dec(n).len()] == 13,
        x[p + 2 + dec(n).len()] == 10,
    ensures
        find_crlf(x, p + 1) == Some(p + 1 + dec(n).len()),
        decimal_usize(x.subrange(p + 1, p + 1 + dec(n).len())) == Some(n as usize),
{
    lemma_dec_parses(n);
    let h = dec(n);
    assert forall|j: int| p + 1 <= j < p + 1 + h.len() implies x[j] != 13 by {
        assert(x[j] == x.subrange(p + 1, p + 1 + h.len())[j - p - 1]);
        assert(is_digit(h[j - p - 1]));
    }
    lemma_find_crlf_after(x, p + 1, p + 1 + h.len());
}

/// The parser reads back a bulk string that the replies write, wherever it
/// stands in the input.
pub proof fn lemma_parse_bulk_roundtrip(x: Seq<u8>, p: int, s: Seq<u8>)
    requires
        0 <= p,
        p + bulk(s).len() <= x.len(),
        x.subrange(p, p + bulk(s).len()) == bulk(s),
        s.len() <= usize::MAX,
    ensures
        spec_parse_bulk(x, p) == Some((
            p + dec(s.len()).len() + 3,
            p + dec(s.len()).len() + 3 + s.len(),
            p + bulk(s).len(),
        )),
        x.subrange(p + dec(s.len()).len() + 3, p + dec(s.len()).len() + 3 + s.len()) == s,
        !bulk_overflows(x, p) || x.len() > usize::MAX,
{
    let h = dec(s.len());
    let hl = h.len() as int;
    let sl = s.len() as int;
    let b = bulk(s);
    let sub = x.subrange(p, p + b.len());
    assert(x[p] == sub[0]);
    assert(sub.subrange(1, 1 + hl) =~= h);
    assert(x.subrange(p + 1, p + 1 + hl) =~= sub.subrange(1, 1 + hl));
    assert(x[p + 1 + hl] == sub[1 + hl]);
    assert(x[p + 2 + hl] == sub[2 + hl]);
    lemma_number_line(x, p, s.len());
    assert(x.subrange(p + hl + 3, p + hl + 3 + sl) =~= sub.subrange(hl + 3, hl + 3 + sl));
    assert(sub.subrange(hl + 3, hl + 3 + sl) =~= s);
}

/// Bulk strings one after the other: the first, then the rest.
proof fn lemma_bulks_first(items: Seq<Seq<u8>>)
    requires
        items.len() > 0,
    ensures
        bulks(items) == bulk(items[0]) + bulks(items.drop_first()),
    decreases items.len(),
{
    if items.len() == 1 {
        assert(items.drop_last() =~= Seq::<Seq<u8>>::empty());
        assert(items.drop_first() =~= Seq::<Seq<u8>>::empty());
        assert(bulks(items) =~= bulk(items[0]) + bulks(items.drop_first()));
    } else {
        lemma_bulks_first(items.drop_last());
        assert(items.drop_last().drop_first() =~= items.drop_first().drop_last());
        assert(items.drop_first().last() == items.last());
        assert(items.drop_last()[0] == items[0]);
        assert(bulks(items) =~= bulk(items[0]) + bulks(items.drop_first()));
    }
}

proof fn lemma_parse_args_roundtrip(x: Seq<u8>, p: int, items: Seq<Seq<u8>>)
    requires
        0 <= p,
        p + bulks(items).len() <= x.len(),
        x.subrange(p, p + bulks(items).len()) == bulks(items),
        x.len() <= usize::MAX,
    ensures
        spec_parse_args(x, p, items.len()) == Some((items, p + bulks(items).len())),
        !args_overflow(x, p, items.len()),
    decreases items.len(),
{
    if items.len() > 0 {
        lemma_bulks_first(items);
        let b = bulk(items[0]);
        let rest = items.drop_first();
        let whole = x.subrange(p, p + bulks(items).len());
        assert(x.subrange(p, p + b.len()) =~= whole.subrange(0, b.len() as int));
        assert(whole.subrange(0, b.len() as int) =~= b);
        lemma_parse_bulk_roundtrip(x, p, items[0]);
        let bl = b.len() as int;
        let rl = bulks(rest).len() as int;
        assert(x.subrange(p + bl, p + bl + rl) =~= whole.subrange(bl, bl + rl));
        assert(whole.subrange(bl, bl + rl) =~= bulks(rest));
        lemma_parse_args_roundtrip(x, p + b.len(), rest);
        assert(seq![items[0]] + rest =~= items);
    }
}

/// The bytes of a request for command `name` with arguments `args`, as a
/// client sends them: an array of bulk strings.
pub open spec fn request_bytes(name: Seq<u8>, args: Seq<Seq<u8>>) -> Seq<u8> {
    array_header(args.len() + 1) + bulk(name) + bulks(args)
}

/// The parser reads a request back into the command's name and its
/// arguments, within the machine's numbers.
pub proof fn lemma_parse_request_roundtrip(name: Seq<u8>, args: Seq<Seq<u8>>)
    requires
        request_bytes(name, args).len() <= usize::MAX,
    ensures
        spec_parse_command(request_bytes(name, args)) == Ok::<(Seq<u8>, Seq<Seq<u8>>), Seq<u8>>((name, args)),
        !command_panics(request_bytes(name, args)),
{
    let x = request_bytes(name, args);
    let n: nat = args.len() + 1;
    let h = dec(n);
    let hdr = array_header(n);
    let p = hdr.len() as int;
    let b = bulk(name);
    let hl = h.len() as int;
    lemma_bulks_len(args);
    assert(x[0] == 42);
    assert(x.subrange(1, 1 + hl) =~= h);
    assert(x[1 + hl] == 13 && x[2 + hl] == 10);
    lemma_number_line(x, 0, n);
    assert(command_header(x) == Some((n, p)));
    assert(x.subrange(p, p + b.len()) =~= b);
    lemma_parse_bulk_roundtrip(x, p, name);
    assert(x.subrange(p + b.len(), p + b.len() + bulks(args).len()) =~= bulks(args));
    lemma_parse_args_roundtrip(x, p + b.len(), args);
}

} // verus!
