//! RESP read into text: a line, a bulk string, or a whole request as
//! `String`s, where the bytes are UTF-8.
use vstd::prelude::*;
use vstd::utf8::{valid_utf8, decode_utf8};
use crate::commands::parser::{bulk_header, bulk_overflows, find_crlf};
use crate::decimal::{decimal_usize, parse_usize};

verus! {

broadcast use vstd::string::to_string_from_display_ensures_for_str;

/// `std::str::from_utf8`: the text that the bytes encode, where they are
/// valid UTF-8.
#[verifier::external_body]
pub(crate) fn utf8_text(b: &[u8]) -> (r: Option<&str>)
    ensures
        match r {
            Some(t) => valid_utf8(b@) && t@ == decode_utf8(b@),
            None => !valid_utf8(b@),
        },
{
    match std::str::from_utf8(b) {
        Ok(t) => Some(t),
        Err(_) => None,
    }
}

/// The line that starts at `start` as text, and the position after its
/// `\r\n`; nothing where the line is not UTF-8 or has no end.
pub open spec fn spec_text_line(s: Seq<u8>, start: int) -> Option<(Seq<char>, int)> {
    match find_crlf(s, start) {
        Some(i) => if valid_utf8(s.subrange(start, i)) {
            Some((decode_utf8(s.subrange(start, i)), i + 2))
        } else {
            None
        },
        None => None,
    }
}

/// Reads the line that starts at `start` as text.
pub fn read_line(buf: &[u8], start: usize) -> (r: Option<(String, usize)>)
    requires
        buf@.len() >= 1,
    ensures
        match r {
            Some((t, e)) => spec_text_line(buf@, start as int) == Some((t@, e as int)),
            None => spec_text_line(buf@, start as int) is None,
        },
        r matches Some((t, e)) ==> start + 2 <= e <= buf@.len(),
{
    match crate::commands::parser::read_line(buf, start) {
        None => None,
        Some((a, e)) => {
            let line = &buf[a..e - 2];
            match utf8_text(line) {
                Some(t) => Some((t.to_string(), e)),
                None => None,
            }
        },
    }
}

/// The bulk string at `start` as text, and the position after it; nothing
/// where its header or its data is not UTF-8, its length is no number, or
/// the buffer ends early.
pub open spec fn spec_text_bulk(s: Seq<u8>, start: int) -> Option<(Seq<char>, int)> {
    match bulk_header(s, start) {
        Some((d, n)) => if valid_utf8(s.subrange(start + 1, d - 2)) && d + n + 2 <= s.len()
            && valid_utf8(s.subrange(d, d + n)) {
            Some((decode_utf8(s.subrange(d, d + n)), d + n + 2))
        } else {
            None
        },
        None => None,
    }
}

/// Reads the bulk string at `start` as text.
pub fn parse_bulk_string(buf: &[u8], start: usize) -> (r: Option<(String, usize)>)
    requires
        !bulk_overflows(buf@, start as int),
    ensures
        match r {
            Some((t, e)) => spec_text_bulk(buf@, start as int) == Some((t@, e as int)),
            None => spec_text_bulk(buf@, start as int) is None,
        },
{
    if start >= buf.len() || buf[start] != 36u8 {
        return None;
    }
    let (_len_text, pos) = match read_line(buf, start + 1) {
        Some(x) => x,
        None => {
            return None;
        },
    };
    let len = match parse_usize(&buf[start + 1..pos - 2]) {
        Some(n) => n,
        None => {
            return None;
        },
    };
    let end = pos + len;
    if end + 2 > buf.len() {
        return None;
    }
    match utf8_text(&buf[pos..end]) {
        Some(t) => Some((t.to_string(), end + 2)),
        None => None,
    }
}

/// `n` bulk strings as text, one after the other from `pos`, and the
/// position after the last.
pub open spec fn spec_text_args(s: Seq<u8>, pos: int, n: nat) -> Option<(Seq<Seq<char>>, int)>
    decreases n,
{
    if n == 0 {
        Some((Seq::empty(), pos))
    } else {
        match spec_text_bulk(s, pos) {
            Some((t, next)) => match spec_text_args(s, next, (n - 1) as nat) {
                Some((rest, e)) => Some((seq![t] + rest, e)),
                None => None,
            },
            None => None,
        }
    }
}

/// Reading `n` bulk strings as text from `pos` reaches one whose length
/// overflows before any of them fails to read.
pub open spec fn text_args_overflow(s: Seq<u8>, pos: int, n: nat) -> bool
    decreases n,
{
    if n == 0 {
        false
    } else if bulk_overflows(s, pos) {
        true
    } else {
        match spec_text_bulk(s, pos) {
            Some((_t, next)) => text_args_overflow(s, next, (n - 1) as nat),
            None => false,
        }
    }
}

/// The element count of a request read as text, and where its elements
/// begin.
pub open spec fn text_count(s: Seq<u8>) -> Option<(nat, int)> {
    if s.len() > 0 && s[0] == 42 {
        match spec_text_line(s, 1) {
            Some((_t, e)) => match decimal_usize(s.subrange(1, e - 2)) {
                Some(c) => Some((c as nat, e)),
                None => None,
            },
            None => None,
        }
    } else {
        None
    }
}

/// A request read as text: all its elements, the command's name first, and
/// the position after the last.
pub open spec fn spec_text_command(s: Seq<u8>) -> Option<(Seq<Seq<char>>, int)> {
    match text_count(s) {
        Some((c, p)) => spec_text_args(s, p, c),
        None => None,
    }
}

/// Reads a request as text: all its elements, the command's name first.
pub fn parse_command(buf: &[u8]) -> (r: Option<(Vec<String>, usize)>)
    requires
        text_count(buf@) matches Some((c, p)) ==> !text_args_overflow(buf@, p, c),
    ensures
        match r {
            Some((v, e)) => spec_text_command(buf@) == Some((v@.map_values(|t: String| t@), e as int)),
            None => spec_text_command(buf@) is None,
        },
{
    if buf.len() == 0 || buf[0] != 42u8 {
        return None;
    }
    let (_count_text, first) = match read_line(buf, 1) {
        Some(x) => x,
        None => {
            return None;
        },
    };
    let count = match parse_usize(&buf[1..first - 2]) {
        Some(c) => c,
        None => {
            return None;
        },
    };
    let mut pos = first;
    let mut args: Vec<String> = Vec::new();
    let mut k: usize = 0;
    while k < count
        invariant
            k <= count,
            text_count(buf@) == Some((count as nat, first as int)),
            !text_args_overflow(buf@, pos as int, (count - k) as nat),
            args@.len() == k,
            match spec_text_args(buf@, pos as int, (count - k) as nat) {
                Some((rest, e)) => spec_text_args(buf@, first as int, count as nat) == Some(
                    (args@.map_values(|t: String| t@) + rest, e),
                ),
                None => spec_text_args(buf@, first as int, count as nat) is None,
            },
        decreases count - k,
    {
        let (arg, next) = match parse_bulk_string(buf, pos) {
            Some(x) => x,
            None => {
                return None;
            },
        };
        let ghost before = args@.map_values(|t: String| t@);
        let ghost t = arg@;
        args.push(arg);
        proof {
            assert(args@.map_values(|t: String| t@) =~= before.push(t));
            match spec_text_args(buf@, next as int, (count - k - 1) as nat) {
                Some((rest, e)) => {
                    assert(before + (seq![t] + rest) =~= before.push(t) + rest);
                },
                None => {},
            }
        }
        pos = next;
        k = k + 1;
    }
    proof {
        assert(args@.map_values(|t: String| t@) + Seq::<Seq<char>>::empty() =~= args@.map_values(
            |t: String| t@,
        ));
    }
    Some((args, pos))
}

} // verus!
