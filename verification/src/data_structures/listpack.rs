//! A listpack: a list of strings and integers packed into one byte buffer.
//!
//! The buffer holds a six-byte header (the total size in bytes, little-endian
//! `u32`, then the element count, little-endian `u16`, saturating at `65535`
//! which stands for "unknown"), the entries one after another, and a closing
//! `0xFF`. Each entry is an encoding (a header byte that tells string from
//! integer and its width, then the payload) followed by a "backlen" that
//! spells the encoding's length in 7-bit groups, so the list can also be
//! walked from the end.
use vstd::prelude::*;
use crate::data_structures::bytes::{pow256, lemma_le_bytes_of_value, le_bytes, le_value, lemma_le_roundtrip, lemma_le_value_bound, lemma_pow256_values, lemma_le_bytes_len, push_le, read_le, extend_bytes};
use crate::decimal::{is_digit, all_digits, digits_value, lemma_digits_value_monotone};
use crate::reply::dec;

verus! {

const LP_HDR_SIZE: usize = 6;
const LP_EOF: u8 = 0xFF;

const LP_ENCODING_6BIT_STR: u8 = 0x80;
const LP_ENCODING_12BIT_STR: u8 = 0xE0;
const LP_ENCODING_32BIT_STR: u8 = 0xF0;

const LP_ENCODING_13BIT_INT: u8 = 0xC0;
const LP_ENCODING_16BIT_INT: u8 = 0xF1;
const LP_ENCODING_24BIT_INT: u8 = 0xF2;
const LP_ENCODING_32BIT_INT: u8 = 0xF3;
const LP_ENCODING_64BIT_INT: u8 = 0xF4;

const LP_NUMELE_UNKNOWN: u16 = 65535;

/// An element of a listpack, as the reader sees it.
pub enum ListpackValue {
    Str(Seq<u8>),
    Int(i64),
}

/// An element read from a listpack: a string borrowed from its buffer, or an
/// integer.
#[derive(Debug, Clone, Copy, PartialEq, Eq)]
pub enum ListpackValueRef<'a> {
    String(&'a [u8]),
    Int(i64),
}

impl<'a> View for ListpackValueRef<'a> {
    type V = ListpackValue;

    open spec fn view(&self) -> ListpackValue {
        match self {
            ListpackValueRef::String(s) => ListpackValue::Str(s@),
            ListpackValueRef::Int(v) => ListpackValue::Int(*v),
        }
    }
}

/// Why a listpack operation failed.
#[derive(Debug, Clone, PartialEq, Eq)]
pub enum ListpackError {
    Corrupted,
    Overflow,
}

// ---------------------------------------------------------------------------
// The encodings

/// `v` as an unsigned number of the width whose range is `m`: two's
/// complement.
pub open spec fn twos(v: int, m: nat) -> nat {
    if v < 0 { (v + m) as nat } else { v as nat }
}

/// The signed value of an unsigned number of the width whose range is `m`.
pub open spec fn signed(u: nat, m: nat) -> int {
    if u >= m / 2 { u - m } else { u as int }
}

/// The encoding of an integer: the narrowest of a 7-bit unsigned, 13-bit,
/// 16-bit, 24-bit, 32-bit or 64-bit signed form.
pub open spec fn int_encoding(v: i64) -> Seq<u8> {
    if 0 <= v <= 127 {
        seq![v as u8]
    } else if -4096 <= v <= 4095 {
        let u = twos(v as int, 8192);
        seq![(192 + u / 256) as u8, (u % 256) as u8]
    } else if -32768 <= v <= 32767 {
        seq![0xF1u8] + le_bytes(twos(v as int, 65536), 2)
    } else if -8388608 <= v <= 8388607 {
        seq![0xF2u8] + le_bytes(twos(v as int, 16777216), 3)
    } else if -2147483648 <= v <= 2147483647 {
        seq![0xF3u8] + le_bytes(twos(v as int, 4294967296), 4)
    } else {
        seq![0xF4u8] + le_bytes(twos(v as int, 18446744073709551616), 8)
    }
}

/// The encoding of a string: a 6-bit, 12-bit or 32-bit length header, then
/// the bytes.
pub open spec fn str_encoding(s: Seq<u8>) -> Seq<u8> {
    let n = s.len();
    if n < 64 {
        seq![(128 + n) as u8] + s
    } else if n < 4096 {
        seq![(224 + n / 256) as u8, (n % 256) as u8] + s
    } else {
        seq![0xF0u8] + le_bytes(n, 4) + s
    }
}

/// The encoding of an element, without its backlen.
pub open spec fn encoding(e: ListpackValue) -> Seq<u8> {
    match e {
        ListpackValue::Str(s) => str_encoding(s),
        ListpackValue::Int(v) => int_encoding(v),
    }
}

/// How many bytes the backlen of an encoding of length `len` takes.
pub open spec fn backlen_len(len: nat) -> nat {
    if len <= 127 {
        1
    } else if len < 16383 {
        2
    } else if len < 2097151 {
        3
    } else if len < 268435455 {
        4
    } else {
        5
    }
}

/// The backlen of an encoding of length `len`: its 7-bit groups, most
/// significant first, all but the first with the high bit set.
pub open spec fn backlen_bytes(len: nat) -> Seq<u8> {
    let k = backlen_len(len);
    if k == 1 {
        seq![len as u8]
    } else if k == 2 {
        seq![(len / 128) as u8, (len % 128 + 128) as u8]
    } else if k == 3 {
        seq![(len / 16384) as u8, ((len / 128) % 128 + 128) as u8, (len % 128 + 128) as u8]
    } else if k == 4 {
        seq![
            (len / 2097152) as u8,
            ((len / 16384) % 128 + 128) as u8,
            ((len / 128) % 128 + 128) as u8,
            (len % 128 + 128) as u8,
        ]
    } else {
        seq![
            (len / 268435456) as u8,
            ((len / 2097152) % 128 + 128) as u8,
            ((len / 16384) % 128 + 128) as u8,
            ((len / 128) % 128 + 128) as u8,
            (len % 128 + 128) as u8,
        ]
    }
}

/// The bytes an element takes in the buffer: its encoding and its backlen.
pub open spec fn entry_bytes(e: ListpackValue) -> Seq<u8> {
    encoding(e) + backlen_bytes(encoding(e).len())
}

/// An element whose encoding a backlen can measure.
pub open spec fn valid_entry(e: ListpackValue) -> bool {
    encoding(e).len() <= 0x0FFF_FFFF
}

/// The entries of a list, one after another.
pub open spec fn entries_bytes(es: Seq<ListpackValue>) -> Seq<u8>
    decreases es.len(),
{
    if es.len() == 0 {
        Seq::empty()
    } else {
        entries_bytes(es.drop_last()) + entry_bytes(es.last())
    }
}

/// The element count that the header holds: exact below `65535`, `65535`
/// ("unknown") from there on.
pub open spec fn count_field(n: nat) -> nat {
    if n < 65535 { n } else { 65535 }
}

/// The whole buffer of a listpack that holds `es`.
pub open spec fn listpack_bytes(es: Seq<ListpackValue>) -> Seq<u8> {
    let body = entries_bytes(es);
    le_bytes(body.len() + 7, 4) + le_bytes(count_field(es.len()), 2) + body + seq![0xFFu8]
}

// ---------------------------------------------------------------------------
// Decoding

/// Reads the encoding at the front of `t`: the element and the encoding's
/// length.
#[verifier::opaque]
pub open spec fn decode_encoding(t: Seq<u8>) -> Result<(ListpackValue, nat), ListpackError> {
    if t.len() == 0 {
        Err(ListpackError::Corrupted)
    } else {
        let first = t[0];
        if first < 128 {
            Ok((ListpackValue::Int(first as i64), 1))
        } else if first < 192 {
            let slen = (first - 128) as nat;
            if 1 + slen <= t.len() {
                Ok((ListpackValue::Str(t.subrange(1, 1 + slen as int)), 1 + slen))
            } else {
                Err(ListpackError::Corrupted)
            }
        } else if first < 224 {
            if t.len() >= 2 {
                let u = ((first - 192) * 256 + t[1]) as nat;
                Ok((ListpackValue::Int(signed(u, 8192) as i64), 2))
            } else {
                Err(ListpackError::Corrupted)
            }
        } else if first == 0xF1 {
            if t.len() >= 3 {
                Ok((ListpackValue::Int(signed(le_value(t.subrange(1, 3)), 65536) as i64), 3))
            } else {
                Err(ListpackError::Corrupted)
            }
        } else if first == 0xF2 {
            if t.len() >= 4 {
                Ok((ListpackValue::Int(signed(le_value(t.subrange(1, 4)), 16777216) as i64), 4))
            } else {
                Err(ListpackError::Corrupted)
            }
        } else if first == 0xF3 {
            if t.len() >= 5 {
                Ok((ListpackValue::Int(signed(le_value(t.subrange(1, 5)), 4294967296) as i64), 5))
            } else {
                Err(ListpackError::Corrupted)
            }
        } else if first == 0xF4 {
            if t.len() >= 9 {
                Ok(
                    (
                        ListpackValue::Int(
                            signed(le_value(t.subrange(1, 9)), 18446744073709551616) as i64,
                        ),
                        9,
                    ),
                )
            } else {
                Err(ListpackError::Corrupted)
            }
        } else if first < 240 {
            if t.len() >= 2 {
                let slen = ((first - 224) * 256 + t[1]) as nat;
                if 2 + slen <= t.len() {
                    Ok((ListpackValue::Str(t.subrange(2, 2 + slen as int)), 2 + slen))
                } else {
                    Err(ListpackError::Corrupted)
                }
            } else {
                Err(ListpackError::Corrupted)
            }
        } else if first == 0xF0 {
            if t.len() >= 5 {
                let slen = le_value(t.subrange(1, 5));
                if 5 + slen <= t.len() {
                    Ok((ListpackValue::Str(t.subrange(5, 5 + slen as int)), 5 + slen))
                } else {
                    Err(ListpackError::Corrupted)
                }
            } else {
                Err(ListpackError::Corrupted)
            }
        } else {
            Err(ListpackError::Corrupted)
        }
    }
}

/// Reads the entry at the front of `t`, encoding and backlen: the element
/// and the entry's length.
#[verifier::opaque]
pub open spec fn decode_entry_spec(t: Seq<u8>) -> Result<(ListpackValue, nat), ListpackError> {
    match decode_encoding(t) {
        Err(e) => Err(e),
        Ok((v, enc_len)) => {
            let bl = backlen_len(enc_len);
            if enc_len + bl > t.len() {
                Err(ListpackError::Corrupted)
            } else if enc_len > 0x0FFF_FFFF {
                Err(ListpackError::Overflow)
            } else if t.subrange(enc_len as int, (enc_len + bl) as int) != backlen_bytes(enc_len) {
                Err(ListpackError::Corrupted)
            } else {
                Ok((v, enc_len + bl))
            }
        },
    }
}

/// What the reader at `off` of `s` yields next: nothing at the end of the
/// buffer, at the closing byte or at an entry it cannot read; else the
/// element and the offset of the entry after it.
#[verifier::opaque]
pub open spec fn spec_next(s: Seq<u8>, off: int) -> Option<(ListpackValue, int)> {
    if off < 0 || off >= s.len() || s[off] == 0xFF {
        None
    } else {
        match decode_entry_spec(s.skip(off)) {
            Ok((v, n)) => Some((v, off + n)),
            Err(_) => None,
        }
    }
}

// ---------------------------------------------------------------------------
// What is written reads back

proof fn lemma_decode_int(v: i64, rest: Seq<u8>)
    ensures
        decode_encoding(int_encoding(v) + rest) == Ok::<(ListpackValue, nat), ListpackError>(
            (ListpackValue::Int(v), int_encoding(v).len()),
        ),
{
    reveal(decode_encoding);
    lemma_pow256_values();
    let t = int_encoding(v) + rest;
    if 0 <= v <= 127 {
    } else if -4096 <= v <= 4095 {
    } else if -32768 <= v <= 32767 {
        let u = twos(v as int, 65536);
        lemma_le_roundtrip(u, 2);
        assert(t.subrange(1, 3) =~= le_bytes(u, 2));
    } else if -8388608 <= v <= 8388607 {
        let u = twos(v as int, 16777216);
        lemma_le_roundtrip(u, 3);
        assert(t.subrange(1, 4) =~= le_bytes(u, 3));
    } else if -2147483648 <= v <= 2147483647 {
        let u = twos(v as int, 4294967296);
        lemma_le_roundtrip(u, 4);
        assert(t.subrange(1, 5) =~= le_bytes(u, 4));
    } else {
        let u = twos(v as int, 18446744073709551616);
        lemma_le_roundtrip(u, 8);
        assert(t.subrange(1, 9) =~= le_bytes(u, 8));
    }
}

proof fn lemma_decode_str(s: Seq<u8>, rest: Seq<u8>)
    requires
        s.len() < 4294967296,
    ensures
        decode_encoding(str_encoding(s) + rest) == Ok::<(ListpackValue, nat), ListpackError>(
            (ListpackValue::Str(s), str_encoding(s).len()),
        ),
{
    reveal(decode_encoding);
    lemma_pow256_values();
    let t = str_encoding(s) + rest;
    let n = s.len();
    if n < 64 {
        assert(t.subrange(1, 1 + n as int) =~= s);
    } else if n < 4096 {
        assert(t.subrange(2, 2 + n as int) =~= s);
    } else {
        lemma_le_roundtrip(n, 4);
        assert(t.subrange(1, 5) =~= le_bytes(n, 4));
        assert(t.subrange(5, 5 + n as int) =~= s);
    }
}

/// The backlen of an encoding of length `n` has `backlen_len(n)` bytes.
pub proof fn lemma_backlen_len(n: nat)
    ensures
        backlen_bytes(n).len() == backlen_len(n),
{
}

/// Reading an entry back gives the element that was written, whatever
/// follows it.
pub proof fn lemma_decode_entry_bytes(e: ListpackValue, rest: Seq<u8>)
    requires
        valid_entry(e),
    ensures
        decode_entry_spec(entry_bytes(e) + rest) == Ok::<(ListpackValue, nat), ListpackError>(
            (e, entry_bytes(e).len()),
        ),
{
    reveal(decode_entry_spec);
    let enc = encoding(e);
    let bl = backlen_bytes(enc.len());
    lemma_backlen_len(enc.len());
    let t = entry_bytes(e) + rest;
    assert(t =~= enc + (bl + rest));
    match e {
        ListpackValue::Str(s) => lemma_decode_str(s, bl + rest),
        ListpackValue::Int(v) => lemma_decode_int(v, bl + rest),
    }
    assert(t.subrange(enc.len() as int, (enc.len() + bl.len()) as int) =~= bl);
}

// ---------------------------------------------------------------------------
// Walking a well-formed buffer

/// Where the `i`-th entry of a listpack that holds `es` begins.
pub open spec fn entry_offset(es: Seq<ListpackValue>, i: int) -> int {
    6 + entries_bytes(es.take(i)).len() as int
}

/// The bytes of two lists of entries, one after the other, are those of
/// the joined list.
pub proof fn lemma_entries_concat(a: Seq<ListpackValue>, b: Seq<ListpackValue>)
    ensures
        entries_bytes(a + b) == entries_bytes(a) + entries_bytes(b),
    decreases b.len(),
{
    if b.len() == 0 {
        assert(a + b =~= a);
        assert(entries_bytes(a) + entries_bytes(b) =~= entries_bytes(a));
    } else {
        lemma_entries_concat(a, b.drop_last());
        assert((a + b).drop_last() =~= a + b.drop_last());
        assert((a + b).last() == b.last());
        assert(entries_bytes(a + b) =~= entries_bytes(a) + entries_bytes(b));
    }
}

proof fn lemma_entries_single(x: ListpackValue)
    ensures
        entries_bytes(seq![x]) == entry_bytes(x),
{
    assert(seq![x].drop_last() =~= Seq::<ListpackValue>::empty());
    assert(entries_bytes(Seq::<ListpackValue>::empty()) =~= Seq::<u8>::empty());
    assert(entries_bytes(seq![x]) =~= entry_bytes(x));
}

proof fn lemma_encoding_first_byte(e: ListpackValue)
    ensures
        encoding(e).len() > 0,
        encoding(e)[0] != 0xFF,
{
    lemma_pow256_values();
    match e {
        ListpackValue::Str(s) => {},
        ListpackValue::Int(v) => {},
    }
}

/// The bytes from the `i`-th entry on: the entry, then the rest.
pub proof fn lemma_entry_at(es: Seq<ListpackValue>, i: int)
    requires
        0 <= i < es.len(),
    ensures
        listpack_bytes(es).skip(entry_offset(es, i)) == entry_bytes(es[i]) + (entries_bytes(
            es.skip(i + 1),
        ) + seq![0xFFu8]),
        entry_offset(es, i + 1) == entry_offset(es, i) + entry_bytes(es[i]).len(),
        0 <= entry_offset(es, i),
        entry_offset(es, i) + entry_bytes(es[i]).len() < listpack_bytes(es).len(),
{
    lemma_le_bytes_len((entries_bytes(es).len() + 7) as nat, 4);
    lemma_le_bytes_len(count_field(es.len()), 2);
    let a = es.take(i);
    let b = es.skip(i + 1);
    assert(es =~= a + (seq![es[i]] + b));
    lemma_entries_concat(a, seq![es[i]] + b);
    lemma_entries_concat(seq![es[i]], b);
    lemma_entries_single(es[i]);
    assert(es.take(i + 1) =~= a + seq![es[i]]);
    lemma_entries_concat(a, seq![es[i]]);
    let h = le_bytes((entries_bytes(es).len() + 7) as nat, 4) + le_bytes(count_field(es.len()), 2);
    assert(listpack_bytes(es) =~= h + entries_bytes(a) + (entry_bytes(es[i]) + (entries_bytes(b) + seq![0xFFu8])));
    assert(listpack_bytes(es).skip(entry_offset(es, i)) =~= entry_bytes(es[i]) + (entries_bytes(b)
        + seq![0xFFu8]));
}

/// A listpack's buffer is its entries and seven bytes more.
pub proof fn lemma_listpack_len(es: Seq<ListpackValue>)
    ensures
        listpack_bytes(es).len() == entries_bytes(es).len() + 7,
{
    lemma_le_bytes_len((entries_bytes(es).len() + 7) as nat, 4);
    lemma_le_bytes_len(count_field(es.len()), 2);
}

/// The closing byte stands right after the last entry.
pub proof fn lemma_end_at(es: Seq<ListpackValue>)
    ensures
        entry_offset(es, es.len() as int) == listpack_bytes(es).len() - 1,
        listpack_bytes(es)[listpack_bytes(es).len() - 1] == 0xFF,
{
    lemma_le_bytes_len((entries_bytes(es).len() + 7) as nat, 4);
    lemma_le_bytes_len(count_field(es.len()), 2);
    assert(es.take(es.len() as int) =~= es);
}

/// All elements of `es` can be written.
pub open spec fn all_valid(es: Seq<ListpackValue>) -> bool {
    forall|i: int| 0 <= i < es.len() ==> valid_entry(#[trigger] es[i])
}

/// In a well-formed buffer the reader at the `i`-th entry yields that
/// element and moves to the next entry; at the end it yields nothing.
pub proof fn lemma_next_at(es: Seq<ListpackValue>, i: int)
    requires
        0 <= i <= es.len(),
        all_valid(es),
    ensures
        spec_next(listpack_bytes(es), entry_offset(es, i)) == (if i < es.len() {
            Some((es[i], entry_offset(es, i + 1)))
        } else {
            None::<(ListpackValue, int)>
        }),
{
    reveal(spec_next);
    if i < es.len() {
        let s = listpack_bytes(es);
        let off = entry_offset(es, i);
        let e = es[i];
        lemma_entry_at(es, i);
        lemma_encoding_first_byte(e);
        let rest = entries_bytes(es.skip(i + 1)) + seq![0xFFu8];
        lemma_decode_entry_bytes(e, rest);
        assert(s.skip(off) == entry_bytes(e) + rest);
        assert(s[off] == s.skip(off)[0]);
        assert(s[off] != 0xFF);
        assert(decode_entry_spec(s.skip(off)) == Ok::<(ListpackValue, nat), ListpackError>((e, entry_bytes(e).len())));
    } else {
        lemma_end_at(es);
        assert(es.take(i) =~= es);
    }
}

// ---------------------------------------------------------------------------
// Integers written as decimal strings

/// What `strict_parse_i64` accepts: `0`, or an optional `-` then a digit
/// `1`..`9` then digits, whose value fits in `i64`. No `+`, no leading
/// zero, no `-0`.
pub open spec fn strict_i64(s: Seq<u8>) -> Option<i64> {
    if s.len() == 0 {
        None
    } else if s =~= seq![48u8] {
        Some(0)
    } else {
        let neg = s[0] == 45;
        let d = if neg { s.drop_first() } else { s };
        if d.len() == 0 || !(49 <= d[0] <= 57) || !all_digits(d) {
            None
        } else if neg {
            if digits_value(d) <= 9223372036854775808 {
                Some((-digits_value(d)) as i64)
            } else {
                None
            }
        } else {
            if digits_value(d) <= 9223372036854775807 {
                Some(digits_value(d) as i64)
            } else {
                None
            }
        }
    }
}

/// The element that `append` stores for `s`: an integer where `s` is one
/// written strictly, else the string.
pub open spec fn value_of(s: Seq<u8>) -> ListpackValue {
    match strict_i64(s) {
        Some(v) => ListpackValue::Int(v),
        None => ListpackValue::Str(s),
    }
}

fn strict_parse_i64(input: &[u8]) -> (r: Option<i64>)
    ensures
        r == strict_i64(input@),
{
    if input.len() == 0 {
        return None;
    }
    if input.len() == 1 && input[0] == 48u8 {
        assert(input@ =~= seq![48u8]);
        return Some(0);
    }
    assert(!(input@ =~= seq![48u8]));
    let mut idx: usize = 0;
    let mut negative = false;
    if input[0] == 45u8 {
        negative = true;
        idx = 1;
    }
    let ghost d = if negative { input@.drop_first() } else { input@ };
    if idx >= input.len() {
        return None;
    }
    if input[idx] < 49u8 || input[idx] > 57u8 {
        return None;
    }
    let start = idx;
    assert(d =~= input@.subrange(start as int, input@.len() as int));
    let mut val: u64 = (input[idx] - 48u8) as u64;
    idx = idx + 1;
    assert(d.take(1).drop_last() =~= Seq::<u8>::empty());
    assert(d[0] == input@[start as int]);
    assert(digits_value(Seq::<u8>::empty()) == 0);
    assert(d.take(1).last() == d[0]);
    assert(digits_value(d.take(1)) == d[0] - 48);
    assert(all_digits(d.take(1)));
    while idx < input.len()
        invariant
            start < idx <= input@.len(),
            start == 0 || start == 1,
            d =~= input@.subrange(start as int, input@.len() as int),
            negative == (input@[0] == 45),
            !(input@ =~= seq![48u8]),
            input@.len() > 0,
            d == (if negative { input@.drop_first() } else { input@ }),
            49 <= d[0] <= 57,
            all_digits(d.take(idx - start)),
            val == digits_value(d.take(idx - start)),
        decreases input@.len() - idx,
    {
        let c = input[idx];
        let ghost k: int = idx - start;
        assert(d[k] == c);
        if c < 48u8 || c > 57u8 {
            assert(!is_digit(d[k]));
            return None;
        }
        assert(d.take(k + 1).drop_last() =~= d.take(k));
        assert(d.take(k + 1).last() == c);
        assert(all_digits(d.take(k + 1))) by {
            assert forall|j: int| 0 <= j < k + 1 implies is_digit(#[trigger] d.take(k + 1)[j]) by {
                if j < k {
                    assert(d.take(k + 1)[j] == d.take(k)[j]);
                }
            }
        }
        let next = match val.checked_mul(10) {
            Some(m) => m.checked_add((c - 48u8) as u64),
            None => None,
        };
        match next {
            Some(v) => {
                val = v;
            },
            None => {
                proof {
                    if all_digits(d) {
                        lemma_digits_value_monotone(d, k + 1, d.len() as int);
                        assert(d.take(d.len() as int) =~= d);
                    }
                }
                return None;
            },
        }
        idx = idx + 1;
    }
    assert(d.take(d.len() as int) =~= d);
    if negative {
        if val > 9223372036854775808u64 {
            None
        } else if val == 9223372036854775808u64 {
            Some(-9223372036854775807i64 - 1)
        } else {
            Some(-(val as i64))
        }
    } else if val > 9223372036854775807u64 {
        None
    } else {
        Some(val as i64)
    }
}

// ---------------------------------------------------------------------------
// Encoders

fn backlen_size(len: usize) -> (r: usize)
    ensures
        r == backlen_len(len as nat),
{
    if len <= 127 {
        1
    } else if len < 16383 {
        2
    } else if len < 2_097_151 {
        3
    } else if len < 268_435_455 {
        4
    } else {
        5
    }
}

fn encode_backlen(len: usize) -> (r: Result<Vec<u8>, ListpackError>)
    ensures
        match r {
            Ok(v) => len <= 0x0FFF_FFFF && v@ == backlen_bytes(len as nat),
            Err(e) => len > 0x0FFF_FFFF && e == ListpackError::Overflow,
        },
{
    if len > 0x0FFF_FFFF {
        return Err(ListpackError::Overflow);
    }
    let k = backlen_size(len);
    let l = len as u64;
    let mut out: Vec<u8> = Vec::new();
    if k == 1 {
        out.push(l as u8);
    } else if k == 2 {
        out.push((l / 128) as u8);
        out.push((l % 128 + 128) as u8);
    } else if k == 3 {
        out.push((l / 16384) as u8);
        out.push(((l / 128) % 128 + 128) as u8);
        out.push((l % 128 + 128) as u8);
    } else if k == 4 {
        out.push((l / 2097152) as u8);
        out.push(((l / 16384) % 128 + 128) as u8);
        out.push(((l / 128) % 128 + 128) as u8);
        out.push((l % 128 + 128) as u8);
    } else {
        out.push((l / 268435456) as u8);
        out.push(((l / 2097152) % 128 + 128) as u8);
        out.push(((l / 16384) % 128 + 128) as u8);
        out.push(((l / 128) % 128 + 128) as u8);
        out.push((l % 128 + 128) as u8);
    }
    assert(out@ =~= backlen_bytes(len as nat));
    Ok(out)
}

fn encode_string(value: &[u8]) -> (r: Result<Vec<u8>, ListpackError>)
    ensures
        match r {
            Ok(v) => value@.len() <= u32::MAX && v@ == str_encoding(value@),
            Err(e) => value@.len() > u32::MAX && e == ListpackError::Overflow,
        },
{
    let len = value.len();
    let mut out: Vec<u8> = Vec::new();
    if len < 64 {
        out.push(LP_ENCODING_6BIT_STR + len as u8);
    } else if len < 4096 {
        out.push(LP_ENCODING_12BIT_STR + (len / 256) as u8);
        out.push((len % 256) as u8);
    } else {
        if len > 4294967295 {
            return Err(ListpackError::Overflow);
        }
        out.push(LP_ENCODING_32BIT_STR);
        proof {
            lemma_pow256_values();
        }
        push_le(&mut out, len as u64, 4);
    }
    extend_bytes(&mut out, value);
    assert(out@ =~= str_encoding(value@));
    Ok(out)
}

fn encode_int(value: i64) -> (r: Vec<u8>)
    ensures
        r@ == int_encoding(value),
{
    proof {
        lemma_pow256_values();
    }
    let mut out: Vec<u8> = Vec::new();
    if 0 <= value && value <= 127 {
        out.push(value as u8);
    } else if -4096 <= value && value <= 4095 {
        let v: i64 = if value < 0 { value + 8192 } else { value };
        out.push(LP_ENCODING_13BIT_INT + (v / 256) as u8);
        out.push((v % 256) as u8);
    } else if -32768 <= value && value <= 32767 {
        out.push(LP_ENCODING_16BIT_INT);
        let u: u64 = if value < 0 { (value + 65536) as u64 } else { value as u64 };
        push_le(&mut out, u, 2);
    } else if -8_388_608 <= value && value <= 8_388_607 {
        out.push(LP_ENCODING_24BIT_INT);
        let u: u64 = if value < 0 { (value + 16777216) as u64 } else { value as u64 };
        push_le(&mut out, u, 3);
    } else if -2147483648 <= value && value <= 2147483647 {
        out.push(LP_ENCODING_32BIT_INT);
        let u: u64 = if value < 0 { (value + 4294967296) as u64 } else { value as u64 };
        push_le(&mut out, u, 4);
    } else {
        out.push(LP_ENCODING_64BIT_INT);
        let u: u64 = if value < 0 {
            ((value + 9223372036854775807 + 1) as u64) + 9223372036854775808u64
        } else {
            value as u64
        };
        push_le(&mut out, u, 8);
    }
    assert(out@ =~= int_encoding(value));
    out
}

// ---------------------------------------------------------------------------
// Decoder

/// What the reader finds at `off`: the entry there, or `Corrupted` past the
/// end of the buffer.
pub open spec fn decode_at(s: Seq<u8>, off: int) -> Result<(ListpackValue, nat), ListpackError> {
    if 0 <= off < s.len() {
        decode_entry_spec(s.skip(off))
    } else {
        Err(ListpackError::Corrupted)
    }
}

fn decode_value(bytes: &[u8], offset: usize) -> (r: Result<(ListpackValueRef<'_>, usize), ListpackError>)
    requires
        offset < bytes@.len(),
    ensures
        match r {
            Ok((v, n)) => decode_encoding(bytes@.skip(offset as int)) == Ok::<(ListpackValue, nat), ListpackError>(
                (v@, n as nat),
            ) && n <= bytes@.len() - offset,
            Err(e) => decode_encoding(bytes@.skip(offset as int)) == Err::<(ListpackValue, nat), ListpackError>(e),
        },
{
    let ghost t = bytes@.skip(offset as int);
    proof {
        reveal(decode_encoding);
        lemma_pow256_values();
    }
    let first = bytes[offset];
    let avail = bytes.len() - offset;
    assert(t.len() == avail && t[0] == first);
    let (value, enc_len): (ListpackValueRef<'_>, usize) = if first < 128 {
        (ListpackValueRef::Int(first as i64), 1)
    } else if first < 192 {
        let slen = (first - 128) as usize;
        if 1 + slen > avail {
            return Err(ListpackError::Corrupted);
        }
        let v = &bytes[offset + 1..offset + 1 + slen];
        assert(v@ =~= t.subrange(1, 1 + slen as int));
        (ListpackValueRef::String(v), 1 + slen)
    } else if first < 224 {
        if avail < 2 {
            return Err(ListpackError::Corrupted);
        }
        let b1 = bytes[offset + 1];
        assert(t[1] == b1);
        let u: i64 = (first - 192) as i64 * 256 + b1 as i64;
        let v: i64 = if u >= 4096 { u - 8192 } else { u };
        (ListpackValueRef::Int(v), 2)
    } else if first == LP_ENCODING_16BIT_INT {
        if avail < 3 {
            return Err(ListpackError::Corrupted);
        }
        let u = read_le(bytes, offset + 1, 2);
        assert(bytes@.subrange(offset + 1, offset + 3) =~= t.subrange(1, 3));
        proof { lemma_le_value_bound(t.subrange(1, 3)); }
        let v: i64 = if u >= 32768 { u as i64 - 65536 } else { u as i64 };
        (ListpackValueRef::Int(v), 3)
    } else if first == LP_ENCODING_24BIT_INT {
        if avail < 4 {
            return Err(ListpackError::Corrupted);
        }
        let u = read_le(bytes, offset + 1, 3);
        assert(bytes@.subrange(offset + 1, offset + 4) =~= t.subrange(1, 4));
        proof { lemma_le_value_bound(t.subrange(1, 4)); }
        let v: i64 = if u >= 8388608 { u as i64 - 16777216 } else { u as i64 };
        (ListpackValueRef::Int(v), 4)
    } else if first == LP_ENCODING_32BIT_INT {
        if avail < 5 {
            return Err(ListpackError::Corrupted);
        }
        let u = read_le(bytes, offset + 1, 4);
        assert(bytes@.subrange(offset + 1, offset + 5) =~= t.subrange(1, 5));
        proof { lemma_le_value_bound(t.subrange(1, 5)); }
        let v: i64 = if u >= 2147483648 { u as i64 - 4294967296 } else { u as i64 };
        (ListpackValueRef::Int(v), 5)
    } else if first == LP_ENCODING_64BIT_INT {
        if avail < 9 {
            return Err(ListpackError::Corrupted);
        }
        let u = read_le(bytes, offset + 1, 8);
        assert(bytes@.subrange(offset + 1, offset + 9) =~= t.subrange(1, 9));
        let v: i64 = if u >= 9223372036854775808u64 {
            (u - 9223372036854775808u64) as i64 - 9223372036854775807 - 1
        } else {
            u as i64
        };
        (ListpackValueRef::Int(v), 9)
    } else if first < 240 {
        if avail < 2 {
            return Err(ListpackError::Corrupted);
        }
        let b1 = bytes[offset + 1];
        assert(t[1] == b1);
        let slen = (first - 224) as usize * 256 + b1 as usize;
        if slen > avail - 2 {
            return Err(ListpackError::Corrupted);
        }
        let v = &bytes[offset + 2..offset + 2 + slen];
        assert(v@ =~= t.subrange(2, 2 + slen as int));
        (ListpackValueRef::String(v), 2 + slen)
    } else if first == LP_ENCODING_32BIT_STR {
        if avail < 5 {
            return Err(ListpackError::Corrupted);
        }
        let h = read_le(bytes, offset + 1, 4);
        assert(bytes@.subrange(offset + 1, offset + 5) =~= t.subrange(1, 5));
        proof { lemma_le_value_bound(t.subrange(1, 5)); }
        if h > (avail - 5) as u64 {
            return Err(ListpackError::Corrupted);
        }
        let slen = h as usize;
        let v = &bytes[offset + 5..offset + 5 + slen];
        assert(v@ =~= t.subrange(5, 5 + slen as int));
        (ListpackValueRef::String(v), 5 + slen)
    } else {
        return Err(ListpackError::Corrupted);
    };
    Ok((value, enc_len))
}

/// `bytes` holds `expected` from `start` on.
fn bytes_match_at(bytes: &[u8], start: usize, expected: &[u8]) -> (r: bool)
    requires
        start + expected@.len() <= bytes@.len(),
    ensures
        r == (bytes@.subrange(start as int, start + expected@.len()) == expected@),
{
    let n = expected.len();
    let blen = bytes.len();
    let mut i: usize = 0;
    while i < n
        invariant
            blen == bytes@.len(),
            i <= n,
            n == expected@.len(),
            start + n <= bytes@.len(),
            forall|j: int| 0 <= j < i ==> bytes@[start + j] == expected@[j],
        decreases n - i,
    {
        if bytes[start + i] != expected[i] {
            assert(bytes@.subrange(start as int, start + n)[i as int] != expected@[i as int]);
            return false;
        }
        i = i + 1;
    }
    assert(bytes@.subrange(start as int, start + n) =~= expected@);
    true
}

fn decode_entry(bytes: &[u8], offset: usize) -> (r: Result<(ListpackValueRef<'_>, usize), ListpackError>)
    ensures
        match r {
            Ok((v, n)) => decode_at(bytes@, offset as int) == Ok::<(ListpackValue, nat), ListpackError>(
                (v@, n as nat),
            ) && offset + n <= bytes@.len(),
            Err(e) => decode_at(bytes@, offset as int) == Err::<(ListpackValue, nat), ListpackError>(e),
        },
{
    if offset >= bytes.len() {
        return Err(ListpackError::Corrupted);
    }
    let ghost t = bytes@.skip(offset as int);
    proof { reveal(decode_entry_spec); }
    let avail = bytes.len() - offset;
    let (value, enc_len) = match decode_value(bytes, offset) {
        Ok(p) => p,
        Err(e) => return Err(e),
    };
    let backlen_len = backlen_size(enc_len);
    if backlen_len > avail - enc_len {
        return Err(ListpackError::Corrupted);
    }
    let expected = match encode_backlen(enc_len) {
        Ok(b) => b,
        Err(e) => return Err(e),
    };
    proof { lemma_backlen_len(enc_len as nat); }
    let start = offset + enc_len;
    let same = bytes_match_at(bytes, start, expected.as_slice());
    assert(bytes@.subrange(start as int, start + backlen_len) =~= t.subrange(enc_len as int, (enc_len + backlen_len) as int));
    if !same {
        return Err(ListpackError::Corrupted);
    }
    Ok((value, enc_len + backlen_len))
}

// ---------------------------------------------------------------------------
// The header

fn read_total_bytes(data: &[u8]) -> (r: u32)
    requires
        data@.len() >= 6,
    ensures
        r == le_value(data@.subrange(0, 4)),
{
    proof {
        lemma_le_value_bound(data@.subrange(0, 4));
        lemma_pow256_values();
    }
    read_le(data, 0, 4) as u32
}

fn read_num_elements(data: &[u8]) -> (r: u16)
    requires
        data@.len() >= 6,
    ensures
        r == le_value(data@.subrange(4, 6)),
{
    proof {
        lemma_le_value_bound(data@.subrange(4, 6));
        lemma_pow256_values();
    }
    read_le(data, 4, 2) as u16
}

fn write_le_at(data: &mut Vec<u8>, pos: usize, v: u64, n: usize)
    requires
        n <= 8,
        pos + n <= old(data)@.len(),
        v < pow256(n as nat),
    ensures
        final(data)@ == old(data)@.subrange(0, pos as int) + le_bytes(v as nat, n as nat)
            + old(data)@.subrange(pos + n, old(data)@.len() as int),
{
    let mut x = v;
    let mut i: usize = 0;
    let dlen = data.len();
    proof { lemma_le_bytes_len(v as nat, n as nat); }
    while i < n
        invariant
            dlen == data@.len(),
            i <= n <= 8,
            pos + n <= data@.len(),
            data@.len() == old(data)@.len(),
            le_bytes(v as nat, n as nat) == data@.subrange(pos as int, pos + i) + le_bytes(
                x as nat,
                (n - i) as nat,
            ),
            forall|j: int| 0 <= j < pos ==> data@[j] == old(data)@[j],
            forall|j: int| pos + n <= j < data@.len() ==> data@[j] == old(data)@[j],
        decreases n - i,
    {
        let ghost before = data@;
        data.set(pos + i, (x % 256) as u8);
        proof {
            assert(le_bytes(x as nat, (n - i) as nat) =~= seq![(x % 256) as u8] + le_bytes(
                (x / 256) as nat,
                (n - i - 1) as nat,
            ));
            assert(data@.subrange(pos as int, pos + i + 1) =~= before.subrange(pos as int, pos + i)
                + seq![(x % 256) as u8]);
        }
        x = x / 256;
        i = i + 1;
    }
    assert(data@ =~= old(data)@.subrange(0, pos as int) + le_bytes(v as nat, n as nat)
        + old(data)@.subrange(pos + n, old(data)@.len() as int));
}

fn write_total_bytes(data: &mut Vec<u8>, v: u32)
    requires
        old(data)@.len() >= 6,
    ensures
        final(data)@ == le_bytes(v as nat, 4) + old(data)@.subrange(4, old(data)@.len() as int),
        final(data)@.len() == old(data)@.len(),
{
    proof { lemma_le_bytes_len(v as nat, 4); }
    proof { lemma_pow256_values(); }
    write_le_at(data, 0, v as u64, 4);
    assert(old(data)@.subrange(0, 0) =~= Seq::<u8>::empty());
    assert(final(data)@ =~= le_bytes(v as nat, 4) + old(data)@.subrange(4, old(data)@.len() as int));
}

fn write_num_elements(data: &mut Vec<u8>, v: u16)
    requires
        old(data)@.len() >= 6,
    ensures
        final(data)@ == old(data)@.subrange(0, 4) + le_bytes(v as nat, 2) + old(data)@.subrange(
            6,
            old(data)@.len() as int,
        ),
        final(data)@.len() == old(data)@.len(),
{
    proof { lemma_le_bytes_len(v as nat, 2); }
    proof { lemma_pow256_values(); }
    write_le_at(data, 4, v as u64, 2);
}

// ---------------------------------------------------------------------------
// The listpack

/// A list of strings and integers packed into one byte buffer.
pub struct Listpack {
    data: Vec<u8>,
    entries: Ghost<Seq<ListpackValue>>,
}

impl View for Listpack {
    type V = Seq<ListpackValue>;

    closed spec fn view(&self) -> Seq<ListpackValue> {
        self.entries@
    }
}

/// A buffer of `total` bytes can take one more entry `e` of `total`: the
/// entry's encoding has a backlen and the buffer stays within `u32`.
pub open spec fn appendable(total: nat, e: ListpackValue) -> bool {
    &&& valid_entry(e)
    &&& total + entry_bytes(e).len() <= u32::MAX
}

impl Listpack {
    /// The buffer holds exactly the entries, and its size fits the header.
    pub closed spec fn wf(&self) -> bool {
        &&& self.data@ == listpack_bytes(self.entries@)
        &&& self.data@.len() <= u32::MAX
        &&& all_valid(self.entries@)
    }

    /// The whole buffer.
    pub closed spec fn bytes_view(&self) -> Seq<u8> {
        self.data@
    }

    /// A well-formed listpack's buffer is that of its elements, fits a
    /// `u32`, and holds fewer than `u32::MAX` elements, each valid.
    pub proof fn lemma_wf_bytes(&self)
        requires
            self.wf(),
        ensures
            self.bytes_view() == listpack_bytes(self@),
            self.bytes_view().len() <= u32::MAX,
            all_valid(self@),
            self@.len() < u32::MAX,
    {
        lemma_entries_bytes_len(self.entries@);
    }

    /// An empty listpack.
    pub fn new() -> (r: Self)
        ensures
            r.wf(),
            r@ == Seq::<ListpackValue>::empty(),
    {
        let mut data: Vec<u8> = vec![0u8; 7];
        proof { lemma_pow256_values(); }
        write_total_bytes(&mut data, 7);
        write_num_elements(&mut data, 0);
        data.set(6, LP_EOF);
        let ghost es = Seq::<ListpackValue>::empty();
        proof {
            assert(entries_bytes(es) =~= Seq::<u8>::empty());
            reveal_with_fuel(le_bytes, 5);
            assert(data@ =~= listpack_bytes(es));
        }
        Listpack { data, entries: Ghost(es) }
    }

    /// An empty listpack whose buffer has room for `capacity` bytes.
    pub fn with_capacity(capacity: usize) -> (r: Self)
        ensures
            r.wf(),
            r@ == Seq::<ListpackValue>::empty(),
    {
        let mut lp = Self::new();
        let cap = vec_capacity(&lp.data);
        if capacity > cap {
            lp.data.reserve(capacity - cap);
        }
        lp
    }

    /// The number of elements.
    pub fn len(&self) -> (r: usize)
        requires
            self.wf(),
        ensures
            r == self@.len(),
    {
        proof { self.lemma_header(); }
        let n = read_num_elements(self.data.as_slice());
        if n != LP_NUMELE_UNKNOWN {
            return n as usize;
        }
        let mut it = self.iter();
        let mut count: usize = 0;
        let ghost es = self.entries@;
        proof { self.lemma_entries_len(); }
        loop
            invariant
                it.buffer() == listpack_bytes(es),
                all_valid(es),
                0 <= count <= es.len(),
                it.position() == entry_offset(es, count as int),
                es.len() < u32::MAX,
            ensures
                count == es.len(),
            decreases es.len() - count,
        {
            proof { lemma_next_at(es, count as int); }
            match it.next() {
                Some(_) => {
                    count = count + 1;
                },
                None => {
                    break;
                },
            }
        }
        count
    }

    /// The list holds no element.
    pub fn is_empty(&self) -> (r: bool)
        requires
            self.wf(),
        ensures
            r == (self@.len() == 0),
    {
        self.len() == 0
    }

    /// The size of the buffer in bytes, as its header states it.
    pub fn total_bytes(&self) -> (r: usize)
        requires
            self.wf(),
        ensures
            r == listpack_bytes(self@).len(),
    {
        proof { self.lemma_header(); }
        read_total_bytes(self.data.as_slice()) as usize
    }

    /// The raw buffer.
    pub fn as_bytes(&self) -> (r: &[u8])
        requires
            self.wf(),
        ensures
            r@ == listpack_bytes(self@),
    {
        self.data.as_slice()
    }

    /// Appends `value`: as an integer where it is one written strictly
    /// (see `strict_i64`), else as a string.
    pub fn append(&mut self, value: &[u8]) -> (r: Result<(), ListpackError>)
        requires
            old(self).wf(),
        ensures
            final(self).wf(),
            match r {
                Ok(()) => appendable(listpack_bytes(old(self)@).len(), value_of(value@))
                    && final(self)@ == old(self)@.push(value_of(value@)),
                Err(e) => !appendable(listpack_bytes(old(self)@).len(), value_of(value@))
                    && e == ListpackError::Overflow && final(self)@ == old(self)@,
            },
    {
        match strict_parse_i64(value) {
            Some(v) => self.append_int(v),
            None => self.append_string(value),
        }
    }

    /// Appends `value` as a string.
    pub fn append_string(&mut self, value: &[u8]) -> (r: Result<(), ListpackError>)
        requires
            old(self).wf(),
        ensures
            final(self).wf(),
            match r {
                Ok(()) => appendable(listpack_bytes(old(self)@).len(), ListpackValue::Str(value@))
                    && final(self)@ == old(self)@.push(ListpackValue::Str(value@)),
                Err(e) => !appendable(listpack_bytes(old(self)@).len(), ListpackValue::Str(value@))
                    && e == ListpackError::Overflow && final(self)@ == old(self)@,
            },
    {
        let encoded = match encode_string(value) {
            Ok(v) => v,
            Err(e) => return Err(e),
        };
        self.push_encoded_entry(encoded.as_slice(), Ghost(ListpackValue::Str(value@)))
    }

    /// Appends the integer `value`.
    pub fn append_int(&mut self, value: i64) -> (r: Result<(), ListpackError>)
        requires
            old(self).wf(),
        ensures
            final(self).wf(),
            match r {
                Ok(()) => appendable(listpack_bytes(old(self)@).len(), ListpackValue::Int(value))
                    && final(self)@ == old(self)@.push(ListpackValue::Int(value)),
                Err(e) => !appendable(listpack_bytes(old(self)@).len(), ListpackValue::Int(value))
                    && e == ListpackError::Overflow && final(self)@ == old(self)@,
            },
    {
        let encoded = encode_int(value);
        self.push_encoded_entry(encoded.as_slice(), Ghost(ListpackValue::Int(value)))
    }

    /// The element at `index`, if the list has one there.
    pub fn get(&self, index: usize) -> (r: Option<ListpackValueRef<'_>>)
        requires
            self.wf(),
        ensures
            match r {
                Some(v) => index < self@.len() && v@ == self@[index as int],
                None => index >= self@.len(),
            },
    {
        let mut it = self.iter();
        let ghost es = self@;
        let mut k: usize = 0;
        let mut result: Option<ListpackValueRef<'_>> = None;
        loop
            invariant_except_break
                result is None,
                it.buffer() == listpack_bytes(es),
                all_valid(es),
                0 <= k <= index,
                k <= es.len(),
                it.position() == entry_offset(es, k as int),
            ensures
                match result {
                    Some(v) => index < es.len() && v@ == es[index as int],
                    None => index >= es.len(),
                },
            decreases index - k,
        {
            proof { lemma_next_at(es, k as int); }
            let v = it.next();
            assert(k < es.len() ==> (v matches Some(x) && x@ == es[k as int]));
            assert(k >= es.len() ==> v is None);
            if k == index {
                result = v;
                break;
            }
            if v.is_none() {
                break;
            }
            k = k + 1;
        }
        result
    }

    /// A reader positioned at the first element.
    pub fn iter(&self) -> (r: ListpackIter<'_>)
        requires
            self.wf(),
        ensures
            r.buffer() == listpack_bytes(self@),
            r.position() == entry_offset(self@, 0),
    {
        proof {
            assert(self.entries@.take(0) =~= Seq::<ListpackValue>::empty());
            assert(entries_bytes(Seq::<ListpackValue>::empty()) =~= Seq::<u8>::empty());
        }
        ListpackIter { bytes: self.data.as_slice(), offset: LP_HDR_SIZE }
    }

    proof fn lemma_header(&self)
        requires
            self.wf(),
        ensures
            self.data@.len() >= 7,
            le_value(self.data@.subrange(0, 4)) == self.data@.len(),
            le_value(self.data@.subrange(4, 6)) == count_field(self.entries@.len()),
    {
        let es = self.entries@;
        let body = entries_bytes(es);
        lemma_le_bytes_len((body.len() + 7) as nat, 4);
        lemma_le_bytes_len(count_field(es.len()), 2);
        lemma_pow256_values();
        lemma_le_roundtrip((body.len() + 7) as nat, 4);
        lemma_le_roundtrip(count_field(es.len()), 2);
        assert(self.data@.subrange(0, 4) =~= le_bytes((body.len() + 7) as nat, 4));
        assert(self.data@.subrange(4, 6) =~= le_bytes(count_field(es.len()), 2));
    }

    proof fn lemma_entries_len(&self)
        requires
            self.wf(),
        ensures
            self.entries@.len() < u32::MAX,
    {
        lemma_entries_bytes_len(self.entries@);
    }

    /// Appends the entry whose encoding is `encoded`, as `push_entry_bytes`
    /// lays it out. Where `encoded` is the encoding of the element `e`, the
    /// listpack stays well formed and holds `e` after its elements.
    #[verifier::rlimit(40)]
    fn push_encoded_entry(&mut self, encoded: &[u8], Ghost(e): Ghost<ListpackValue>) -> (r: Result<(), ListpackError>)
        requires
            old(self).wf(),
        ensures
            match r {
                Ok(()) => push_fits(old(self).bytes_view(), encoded@)
                    && final(self).bytes_view() == pushed_bytes(old(self).bytes_view(), encoded@),
                Err(err) => !push_fits(old(self).bytes_view(), encoded@) && err == ListpackError::Overflow
                    && final(self).bytes_view() == old(self).bytes_view() && final(self)@ == old(self)@
                    && final(self).wf(),
            },
            encoded@ == encoding(e) ==> {
                &&& final(self).wf()
                &&& match r {
                    Ok(()) => appendable(listpack_bytes(old(self)@).len(), e)
                        && final(self)@ == old(self)@.push(e),
                    Err(_) => !appendable(listpack_bytes(old(self)@).len(), e)
                        && final(self)@ == old(self)@,
                }
            },
    {
        proof {
            self.lemma_header();
            lemma_backlen_len(encoded@.len());
            lemma_listpack_len(self.entries@);
        }
        let ghost es = self.entries@;
        let ghost old_data = self.data@;
        match push_entry_bytes(&mut self.data, encoded) {
            Err(err) => {
                assert(encoded@ == encoding(e) ==> !appendable(listpack_bytes(es).len(), e));
                return Err(err);
            },
            Ok(()) => {},
        }
        proof {
            if encoded@ == encoding(e) {
                lemma_push_encoded(es, e, old_data, self.data@);
            }
        }
        self.entries = Ghost(if encoded@ == encoding(e) { es.push(e) } else { es });
        Ok(())
    }
}

/// Appending an element's encoding to the buffer of a listpack gives the
/// buffer of the list with that element after the others.
proof fn lemma_push_encoded(es: Seq<ListpackValue>, e: ListpackValue, old_data: Seq<u8>, d: Seq<u8>)
    requires
        old_data == listpack_bytes(es),
        old_data.len() <= u32::MAX,
        all_valid(es),
        push_fits(old_data, encoding(e)),
        d == pushed_bytes(old_data, encoding(e)),
    ensures
        d == listpack_bytes(es.push(e)),
        all_valid(es.push(e)),
        appendable(listpack_bytes(es).len(), e),
        d.len() == old_data.len() + push_size(encoding(e)),
{
    let enc = encoding(e);
    lemma_backlen_len(enc.len());
    lemma_listpack_len(es);
    let n = le_value(old_data.subrange(4, 6));
    let mid = old_data.drop_last() + enc + backlen_bytes(enc.len()) + seq![0xFFu8];
    let new_len = (old_data.len() + push_size(enc)) as nat;
    assert(mid.subrange(0, 6) =~= old_data.subrange(0, 6));
    lemma_push_mid(es, old_data, mid, n);
    assert(mid.subrange(6, mid.len() as int) =~= old_data.subrange(6, old_data.len() - 1) + enc
        + backlen_bytes(enc.len()) + seq![0xFFu8]);
    assert(d =~= le_bytes(new_len, 4) + le_bytes(next_count(n), 2) + mid.subrange(6, mid.len() as int));
    lemma_push_final(es, e, old_data, mid, d, new_len, n);
}

/// The bytes that appending the encoding `encoded` adds to a buffer: the
/// encoding and its backlen.
pub open spec fn push_size(encoded: Seq<u8>) -> nat {
    encoded.len() + backlen_len(encoded.len())
}

/// A backlen can measure `encoded`, and the buffer `data` with it stays
/// within `u32`.
pub open spec fn push_fits(data: Seq<u8>, encoded: Seq<u8>) -> bool {
    encoded.len() <= 0x0FFF_FFFF && data.len() + push_size(encoded) <= u32::MAX
}

/// The buffer `data` with the encoding `encoded` appended: the closing byte
/// makes way for the encoding, its backlen and a new closing byte; the
/// header takes the new size and one more element, the count stopping at
/// `65535`.
pub open spec fn pushed_bytes(data: Seq<u8>, encoded: Seq<u8>) -> Seq<u8> {
    le_bytes(data.len() + push_size(encoded), 4) + le_bytes(next_count(le_value(data.subrange(4, 6))), 2)
        + data.subrange(6, data.len() - 1) + encoded + backlen_bytes(encoded.len()) + seq![0xFFu8]
}

/// Appends the encoding `encoded` to the listpack buffer `data`, with its
/// backlen, and updates the header; refuses where a backlen cannot measure
/// the encoding or the buffer would pass `u32`.
fn push_entry_bytes(data: &mut Vec<u8>, encoded: &[u8]) -> (r: Result<(), ListpackError>)
    requires
        old(data)@.len() >= 7,
        le_value(old(data)@.subrange(4, 6)) <= 65535,
    ensures
        match r {
            Ok(()) => push_fits(old(data)@, encoded@) && final(data)@ == pushed_bytes(old(data)@, encoded@),
            Err(err) => !push_fits(old(data)@, encoded@) && err == ListpackError::Overflow
                && final(data)@ == old(data)@,
        },
{
    let backlen = match encode_backlen(encoded.len()) {
        Ok(b) => b,
        Err(err) => return Err(err),
    };
    proof { lemma_backlen_len(encoded@.len()); }
    let additional = match encoded.len().checked_add(backlen.len()) {
        Some(a) => a,
        None => return Err(ListpackError::Overflow),
    };
    let old_len = data.len();
    let new_len = match old_len.checked_add(additional) {
        Some(n) => n,
        None => return Err(ListpackError::Overflow),
    };
    if new_len > 4294967295 {
        return Err(ListpackError::Overflow);
    }
    let ghost old_data = data@;
    let n = read_num_elements(data.as_slice());
    proof {
        lemma_le_bytes_of_value(old_data.subrange(4, 6));
    }
    let _ = data.pop();
    extend_bytes(data, encoded);
    extend_bytes(data, backlen.as_slice());
    data.push(LP_EOF);
    let ghost mid = data@;
    assert(mid =~= old_data.drop_last() + encoded@ + backlen_bytes(encoded@.len()) + seq![0xFFu8]);
    assert(mid.subrange(4, 6) =~= old_data.subrange(4, 6));
    update_header(data, new_len as u32, n);
    assert(data@ =~= pushed_bytes(old_data, encoded@));
    Ok(())
}

/// The element count that follows `n` in the header.
pub open spec fn next_count(n: nat) -> nat {
    if n == 65535 { 65535 } else { n + 1 }
}

fn update_header(data: &mut Vec<u8>, total: u32, n: u16)
    requires
        old(data)@.len() >= 6,
        old(data)@.subrange(4, 6) == le_bytes(n as nat, 2),
    ensures
        final(data)@ == le_bytes(total as nat, 4) + le_bytes(next_count(n as nat), 2) + old(data)@.subrange(
            6,
            old(data)@.len() as int,
        ),
{
    proof {
        lemma_le_bytes_len(total as nat, 4);
        lemma_le_bytes_len(n as nat, 2);
        lemma_le_bytes_len(next_count(n as nat), 2);
    }
    write_total_bytes(data, total);
    if n != LP_NUMELE_UNKNOWN {
        if n == LP_NUMELE_UNKNOWN - 1 {
            write_num_elements(data, LP_NUMELE_UNKNOWN);
        } else {
            write_num_elements(data, n + 1);
        }
    }
    assert(data@ =~= le_bytes(total as nat, 4) + le_bytes(next_count(n as nat), 2) + old(data)@.subrange(
        6,
        old(data)@.len() as int,
    ));
}

proof fn lemma_push_mid(es: Seq<ListpackValue>, old_data: Seq<u8>, mid: Seq<u8>, n: nat)
    requires
        old_data == listpack_bytes(es),
        old_data.len() >= 7,
        mid.len() >= 6,
        mid.subrange(0, 6) == old_data.subrange(0, 6),
        n == le_value(old_data.subrange(4, 6)),
    ensures
        mid.subrange(4, 6) == le_bytes(n, 2),
        n == count_field(es.len()),
{
    lemma_le_bytes_len((entries_bytes(es).len() + 7) as nat, 4);
    lemma_le_bytes_len(count_field(es.len()), 2);
    lemma_pow256_values();
    lemma_le_roundtrip(count_field(es.len()), 2);
    assert(old_data.subrange(4, 6) =~= le_bytes(count_field(es.len()), 2));
    assert(mid.subrange(4, 6) =~= mid.subrange(0, 6).subrange(4, 6));
    assert(old_data.subrange(4, 6) =~= old_data.subrange(0, 6).subrange(4, 6));
}

proof fn lemma_push_final(
    es: Seq<ListpackValue>,
    e: ListpackValue,
    old_data: Seq<u8>,
    mid: Seq<u8>,
    d: Seq<u8>,
    new_len: nat,
    n: nat,
)
    requires
        old_data == listpack_bytes(es),
        all_valid(es),
        valid_entry(e),
        old_data.len() >= 7,
        mid == old_data.drop_last() + encoding(e) + backlen_bytes(encoding(e).len()) + seq![0xFFu8],
        new_len == mid.len(),
        n == count_field(es.len()),
        d == le_bytes(new_len, 4) + le_bytes(next_count(n), 2) + mid.subrange(6, mid.len() as int),
    ensures
        d == listpack_bytes(es.push(e)),
        all_valid(es.push(e)),
        d.len() == new_len,
{
    let es2 = es.push(e);
    lemma_le_bytes_len(new_len, 4);
    lemma_le_bytes_len(next_count(n), 2);
    assert(d.subrange(0, 4) =~= le_bytes(new_len, 4));
    assert(d.subrange(4, 6) =~= le_bytes(count_field(es2.len()), 2));
    assert(d.subrange(6, d.len() as int) =~= old_data.subrange(6, old_data.len() - 1) + entry_bytes(e)
        + seq![0xFFu8]);
    lemma_push_layout(es, e, old_data, d);
    assert forall|i: int| 0 <= i < es2.len() implies valid_entry(#[trigger] es2[i]) by {
        if i < es.len() {
            assert(es2[i] == es[i]);
        }
    }
}

proof fn lemma_push_layout(es: Seq<ListpackValue>, e: ListpackValue, old_data: Seq<u8>, d: Seq<u8>)
    requires
        old_data == listpack_bytes(es),
        d.len() == old_data.len() + entry_bytes(e).len(),
        d.subrange(0, 4) == le_bytes(d.len(), 4),
        d.subrange(4, 6) == le_bytes(count_field(es.len() + 1), 2),
        d.subrange(6, d.len() as int) == old_data.subrange(6, old_data.len() - 1) + entry_bytes(e)
            + seq![0xFFu8],
    ensures
        d == listpack_bytes(es.push(e)),
{
    let es2 = es.push(e);
    assert(es2.drop_last() =~= es);
    lemma_le_bytes_len((entries_bytes(es).len() + 7) as nat, 4);
    lemma_le_bytes_len(count_field(es.len()), 2);
    assert(entries_bytes(es2) =~= entries_bytes(es) + entry_bytes(e));
    assert(old_data.subrange(6, old_data.len() - 1) =~= entries_bytes(es));
    assert(d =~= d.subrange(0, 4) + d.subrange(4, 6) + d.subrange(6, d.len() as int));
    assert(d =~= listpack_bytes(es2));
}

/// Each entry takes at least two bytes, so a buffer within `u32` holds fewer
/// than `u32::MAX` entries.
proof fn lemma_entries_bytes_len(es: Seq<ListpackValue>)
    ensures
        entries_bytes(es).len() >= 2 * es.len(),
    decreases es.len(),
{
    if es.len() > 0 {
        lemma_entries_bytes_len(es.drop_last());
        lemma_encoding_first_byte(es.last());
        lemma_backlen_len(encoding(es.last()).len());
    }
}

/// The capacity of a vector: how much it can hold before it allocates again.
/// It depends on the allocator, so nothing is stated of it.
#[verifier::external_body]
fn vec_capacity(v: &Vec<u8>) -> usize {
    v.capacity()
}

impl Default for Listpack {
    /// An empty listpack.
    fn default() -> (r: Self)
        ensures
            r.wf(),
            r@ == Seq::<ListpackValue>::empty(),
    {
        Listpack::new()
    }
}

/// A reader that walks a listpack buffer entry by entry.
pub struct ListpackIter<'a> {
    bytes: &'a [u8],
    offset: usize,
}

impl<'a> ListpackIter<'a> {
    /// Over the buffer of a listpack holding `es`, at its `k`-th element,
    /// the reader yields that element and moves to the next, or yields
    /// nothing at the end.
    pub fn next_element(&mut self, Ghost(es): Ghost<Seq<ListpackValue>>, Ghost(k): Ghost<int>) -> (r: Option<ListpackValueRef<'a>>)
        requires
            old(self).buffer() == listpack_bytes(es),
            all_valid(es),
            0 <= k <= es.len(),
            old(self).position() == entry_offset(es, k),
        ensures
            final(self).buffer() == old(self).buffer(),
            match r {
                Some(v) => k < es.len() && v@ == es[k] && final(self).position() == entry_offset(es, k + 1),
                None => k == es.len() && final(self).position() == old(self).position(),
            },
    {
        proof { lemma_next_at(es, k); }
        self.next()
    }

    /// The buffer being read.
    pub closed spec fn buffer(&self) -> Seq<u8> {
        self.bytes@
    }

    /// Where the next entry begins.
    pub closed spec fn position(&self) -> int {
        self.offset as int
    }

    /// The next element: `None` at the end of the buffer, at the closing
    /// byte, or at an entry that cannot be read (the reader then stays where
    /// it is).
    pub fn next(&mut self) -> (r: Option<ListpackValueRef<'a>>)
        ensures
            final(self).buffer() == old(self).buffer(),
            match spec_next(old(self).buffer(), old(self).position()) {
                Some((v, off)) => r matches Some(x) && x@ == v && final(self).position() == off,
                None => r is None && final(self).position() == old(self).position(),
            },
    {
        proof { reveal(spec_next); }
        let blen = self.bytes.len();
        if self.offset >= blen || self.bytes[self.offset] == LP_EOF {
            return None;
        }
        match decode_entry(self.bytes, self.offset) {
            Ok((value, entry_len)) => {
                self.offset = self.offset + entry_len;
                Some(value)
            },
            Err(_) => None,
        }
    }
}

/// Reading a list after a successful `append` of `value` finds, at the
/// place after the old last element, the element that `append` stores for
/// `value`, and at every earlier place what was there before.
pub proof fn lemma_get_after_append(before: Seq<ListpackValue>, after: Seq<ListpackValue>, value: Seq<u8>, i: int)
    requires
        after == before.push(value_of(value)),
        0 <= i <= before.len(),
    ensures
        after.len() == before.len() + 1,
        i == before.len() ==> after[i] == value_of(value),
        i < before.len() ==> after[i] == before[i],
{
}

/// The bytes an element stands for: a string's own bytes, an integer's
/// decimal digits after a `-` where it is negative.
pub open spec fn element_text(e: ListpackValue) -> Seq<u8> {
    match e {
        ListpackValue::Str(b) => b,
        ListpackValue::Int(v) => if v < 0 {
            seq![45u8] + dec((-v) as nat)
        } else {
            dec(v as nat)
        },
    }
}

/// Digits that start with `1`..`9` spell a number of at least one.
proof fn lemma_leading_digit_positive(d: Seq<u8>)
    requires
        d.len() > 0,
        all_digits(d),
        49 <= d[0] <= 57,
    ensures
        digits_value(d) >= 1,
    decreases d.len(),
{
    if d.len() > 1 {
        lemma_leading_digit_positive(d.drop_last());
    }
}

/// Digits without a leading zero are the decimal form of their value.
proof fn lemma_digits_are_dec(d: Seq<u8>)
    requires
        d.len() > 0,
        all_digits(d),
        49 <= d[0] <= 57,
    ensures
        dec(digits_value(d)) == d,
    decreases d.len(),
{
    let n = digits_value(d);
    if d.len() == 1 {
        assert(d.drop_last() =~= Seq::<u8>::empty());
        assert(digits_value(Seq::<u8>::empty()) == 0);
        assert(n == d[0] - 48);
        assert(dec(n) =~= d);
    } else {
        let p = d.drop_last();
        assert(all_digits(p)) by {
            assert forall|i: int| 0 <= i < p.len() implies is_digit(#[trigger] p[i]) by {
                assert(p[i] == d[i]);
            }
        }
        lemma_leading_digit_positive(p);
        lemma_digits_are_dec(p);
        assert(is_digit(d.last()));
        assert(n / 10 == digits_value(p));
        assert(n % 10 == (d.last() - 48) as nat);
        assert(dec(n) =~= d);
    }
}

/// Nothing appended is lost: the element that `append` stores for any
/// bytes stands for exactly those bytes.
pub proof fn lemma_element_keeps_bytes(s: Seq<u8>)
    ensures
        element_text(value_of(s)) == s,
{
    if let Some(v) = strict_i64(s) {
        if s =~= seq![48u8] {
            assert(dec(0) =~= seq![48u8]);
        } else if s[0] == 45 {
            let d = s.drop_first();
            lemma_digits_are_dec(d);
            assert(seq![45u8] + d =~= s);
        } else {
            lemma_digits_are_dec(s);
        }
    }
}

/// The bytes that `append` adds to the buffer for `value`, where the
/// element it stores is one a backlen can measure; nothing where it is not.
pub fn append_size(value: &[u8]) -> (r: Option<u64>)
    ensures
        match r {
            Some(n) => valid_entry(value_of(value@)) && n == entry_bytes(value_of(value@)).len(),
            None => !valid_entry(value_of(value@)),
        },
{
    let enc_len: usize = match strict_parse_i64(value) {
        Some(v) => {
            let e = encode_int(v);
            e.len()
        },
        None => {
            let n = value.len();
            proof {
                lemma_le_bytes_len(n as nat, 4);
            }
            if n > 0x0FFF_FFFF {
                return None;
            }
            if n < 64 {
                1 + n
            } else if n < 4096 {
                2 + n
            } else {
                5 + n
            }
        },
    };
    if enc_len > 0x0FFF_FFFF {
        return None;
    }
    let b = backlen_size(enc_len);
    Some((enc_len + b) as u64)
}

/// What the reader at `off` of `s` yields in up to `steps` steps, in order,
/// up to the first step where it yields nothing.
pub open spec fn read_from(s: Seq<u8>, off: int, steps: nat) -> Seq<ListpackValue>
    decreases steps,
{
    if steps == 0 {
        Seq::empty()
    } else {
        match spec_next(s, off) {
            None => Seq::empty(),
            Some((v, o)) => seq![v] + read_from(s, o, (steps - 1) as nat),
        }
    }
}

/// The reader over a listpack's buffer, from its `i`-th element, yields
/// the elements from there on, in order, and then nothing. From the start,
/// as `iter` places it, collecting what it yields gives the list, so their
/// number is its length and the `n`-th is what `get(n)` finds.
pub proof fn lemma_reader_yields_elements(es: Seq<ListpackValue>, i: int, steps: nat)
    requires
        all_valid(es),
        0 <= i <= es.len(),
        steps >= es.len() - i,
    ensures
        read_from(listpack_bytes(es), entry_offset(es, i), steps) == es.skip(i),
    decreases steps,
{
    lemma_next_at(es, i);
    if i == es.len() {
        assert(es.skip(i) =~= Seq::<ListpackValue>::empty());
    } else {
        lemma_reader_yields_elements(es, i + 1, (steps - 1) as nat);
        assert(seq![es[i]] + es.skip(i + 1) =~= es.skip(i));
    }
}

} // verus!
