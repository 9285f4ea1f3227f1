//! Building RESP replies: decimal numbers, bulk strings, integers.
use vstd::prelude::*;

verus! {

/// The decimal digits of `n`, most significant first, without leading
/// zeros.
pub open spec fn dec(n: nat) -> Seq<u8>
    decreases n,
{
    if n < 10 {
        seq![(48 + n) as u8]
    } else {
        dec(n / 10).push((48 + n % 10) as u8)
    }
}

/// `\r\n`
pub open spec fn crlf() -> Seq<u8> {
    seq![13u8, 10]
}

/// A bulk string: `$<len>\r\n<bytes>\r\n`.
pub open spec fn bulk(s: Seq<u8>) -> Seq<u8> {
    seq![36u8] + dec(s.len()) + crlf() + s + crlf()
}

/// An integer reply: `:<n>\r\n`.
pub open spec fn integer(n: nat) -> Seq<u8> {
    seq![58u8] + dec(n) + crlf()
}

/// An array header: `*<n>\r\n`.
pub open spec fn array_header(n: nat) -> Seq<u8> {
    seq![42u8] + dec(n) + crlf()
}

/// The bulk strings of `items`, one after another.
pub open spec fn bulks(items: Seq<Seq<u8>>) -> Seq<u8>
    decreases items.len(),
{
    if items.len() == 0 {
        Seq::empty()
    } else {
        bulks(items.drop_last()) + bulk(items.last())
    }
}

/// Appends the decimal digits of `n`.
pub fn push_decimal(out: &mut Vec<u8>, n: u64)
    ensures
        final(out)@ == old(out)@ + dec(n as nat),
    decreases n,
{
    if n < 10 {
        out.push(48u8 + n as u8);
        assert(dec(n as nat) =~= seq![(48 + n) as u8]);
    } else {
        push_decimal(out, n / 10);
        out.push(48u8 + (n % 10) as u8);
        assert(dec(n as nat) =~= dec((n / 10) as nat).push((48 + n % 10) as u8));
    }
}

/// Appends `\r\n`.
pub fn push_crlf(out: &mut Vec<u8>)
    ensures
        final(out)@ == old(out)@ + crlf(),
{
    out.push(13u8);
    out.push(10u8);
    assert(final(out)@ =~= old(out)@ + crlf());
}

/// Appends the bytes of `s`.
pub fn push_bytes(out: &mut Vec<u8>, s: &[u8])
    ensures
        final(out)@ == old(out)@ + s@,
{
    crate::data_structures::bytes::extend_bytes(out, s);
}

/// Appends the bulk string of `s`.
pub fn push_bulk(out: &mut Vec<u8>, s: &[u8])
    ensures
        final(out)@ == old(out)@ + bulk(s@),
{
    out.push(36u8);
    push_decimal(out, s.len() as u64);
    push_crlf(out);
    push_bytes(out, s);
    push_crlf(out);
    assert(final(out)@ =~= old(out)@ + bulk(s@));
}

/// The bulk string of `s`.
pub fn bulk_reply(s: &[u8]) -> (r: Vec<u8>)
    ensures
        r@ == bulk(s@),
{
    let mut out: Vec<u8> = Vec::new();
    push_bulk(&mut out, s);
    assert(out@ =~= bulk(s@));
    out
}

/// The integer reply of `n`.
pub fn integer_reply(n: u64) -> (r: Vec<u8>)
    ensures
        r@ == integer(n as nat),
{
    let mut out: Vec<u8> = Vec::new();
    out.push(58u8);
    push_decimal(&mut out, n);
    push_crlf(&mut out);
    assert(out@ =~= integer(n as nat));
    out
}

/// Appends the array header of `n`.
pub fn push_array_header(out: &mut Vec<u8>, n: u64)
    ensures
        final(out)@ == old(out)@ + array_header(n as nat),
{
    out.push(42u8);
    push_decimal(out, n);
    push_crlf(out);
    assert(final(out)@ =~= old(out)@ + array_header(n as nat));
}

} // verus!
