//! Decimal numbers written as ASCII digits.
use vstd::prelude::*;

verus! {

/// `b` is an ASCII digit `0`..`9`.
pub open spec fn is_digit(b: u8) -> bool {
    48 <= b <= 57
}

/// Every byte of `s` is an ASCII digit.
pub open spec fn all_digits(s: Seq<u8>) -> bool {
    forall|i: int| 0 <= i < s.len() ==> is_digit(#[trigger] s[i])
}

/// The number that the digits of `s` spell out, most significant first.
pub open spec fn digits_value(s: Seq<u8>) -> nat
    decreases s.len(),
{
    if s.len() == 0 {
        0
    } else {
        digits_value(s.drop_last()) * 10 + (s.last() - 48) as nat
    }
}

/// The digits after an optional leading `+`, where there is at least one
/// and all are digits: the unsigned syntax of the standard library's
/// integer parsers.
pub open spec fn unsigned_digits(s: Seq<u8>) -> Option<nat> {
    let d = if s.len() > 0 && s[0] == 43 { s.drop_first() } else { s };
    if d.len() > 0 && all_digits(d) {
        Some(digits_value(d))
    } else {
        None
    }
}

/// What the standard library's `u64` parser accepts.
pub open spec fn decimal_u64(s: Seq<u8>) -> Option<u64> {
    match unsigned_digits(s) {
        Some(v) => if v <= u64::MAX { Some(v as u64) } else { None },
        None => None,
    }
}

/// What the standard library's `usize` parser accepts.
pub open spec fn decimal_usize(s: Seq<u8>) -> Option<usize> {
    match unsigned_digits(s) {
        Some(v) => if v <= usize::MAX { Some(v as usize) } else { None },
        None => None,
    }
}

/// What the standard library's `isize` parser accepts: an optional sign,
/// then at least one digit, and a value in range.
pub open spec fn decimal_isize(s: Seq<u8>) -> Option<isize> {
    if s.len() > 0 && s[0] == 45 {
        let d = s.drop_first();
        if d.len() > 0 && all_digits(d) && -digits_value(d) >= isize::MIN {
            Some((-digits_value(d)) as isize)
        } else {
            None
        }
    } else {
        match unsigned_digits(s) {
            Some(v) => if v <= isize::MAX { Some(v as isize) } else { None },
            None => None,
        }
    }
}

/// Appending digits never makes the value smaller.
pub proof fn lemma_digits_value_monotone(s: Seq<u8>, i: int, j: int)
    requires
        0 <= i <= j <= s.len(),
        all_digits(s),
    ensures
        digits_value(s.take(i)) <= digits_value(s.take(j)),
    decreases j - i,
{
    if i < j {
        lemma_digits_value_monotone(s, i, j - 1);
        assert(s.take(j).drop_last() =~= s.take(j - 1));
    }
}

/// Reads the digits of `s` from `start` on, while the value fits in a
/// `u64`.
fn digits_u64(s: &[u8], start: usize) -> (r: Option<u64>)
    requires
        start <= s@.len(),
    ensures
        ({
            let d = s@.subrange(start as int, s@.len() as int);
            match r {
                Some(v) => d.len() > 0 && all_digits(d) && v == digits_value(d),
                None => !(d.len() > 0 && all_digits(d) && digits_value(d) <= u64::MAX),
            }
        }),
{
    let ghost d = s@.subrange(start as int, s@.len() as int);
    if start >= s.len() {
        return None;
    }
    let mut i: usize = start;
    let mut val: u64 = 0;
    while i < s.len()
        invariant
            start <= i <= s@.len(),
            d == s@.subrange(start as int, s@.len() as int),
            all_digits(d.take(i - start)),
            val == digits_value(d.take(i - start)),
        decreases s@.len() - i,
    {
        let c = s[i];
        let ghost k: int = i - start;
        assert(d[k] == c);
        if c < 48u8 || c > 57u8 {
            assert(!is_digit(d[k]));
            return None;
        }
        assert(d.take(k + 1).last() == c);
        assert(d.take(k + 1).drop_last() =~= d.take(k));
        assert(all_digits(d.take(k + 1))) by {
            assert forall|j: int| 0 <= j < k + 1 implies is_digit(#[trigger] d.take(k + 1)[j]) by {
                if j < k {
                    assert(d.take(k + 1)[j] == d.take(k)[j]);
                }
            }
        }
        let next = match val.checked_mul(10) {
            Some(m) => m.checked_add((c - 48u8) as u64),
            None => None,
        };
        match next {
            Some(v) => {
                val = v;
            },
            None => {
                proof {
                    if all_digits(d) {
                        lemma_digits_value_monotone(d, k + 1, d.len() as int);
                        assert(d.take(d.len() as int) =~= d);
                    }
                }
                return None;
            },
        }
        i = i + 1;
    }
    assert(d.take(d.len() as int) =~= d);
    Some(val)
}

/// Parses `s` as the standard library's `u64` parser does.
pub fn parse_u64(s: &[u8]) -> (r: Option<u64>)
    ensures
        r == decimal_u64(s@),
{
    let start: usize = if s.len() > 0 && s[0] == 43u8 { 1 } else { 0 };
    assert(s@.subrange(start as int, s@.len() as int) =~= (if s@.len() > 0 && s@[0] == 43 {
        s@.drop_first()
    } else {
        s@
    }));
    digits_u64(s, start)
}

/// Parses `s` as the standard library's `usize` parser does.
pub fn parse_usize(s: &[u8]) -> (r: Option<usize>)
    ensures
        r == decimal_usize(s@),
{
    match parse_u64(s) {
        Some(v) => if v as u128 <= usize::MAX as u128 { Some(v as usize) } else { None },
        None => None,
    }
}

/// Parses `s` as the standard library's `isize` parser does.
pub fn parse_isize(s: &[u8]) -> (r: Option<isize>)
    ensures
        r == decimal_isize(s@),
{
    if s.len() > 0 && s[0] == 45u8 {
        assert(s@.subrange(1, s@.len() as int) =~= s@.drop_first());
        match digits_u64(s, 1) {
            Some(v) => if (v as i128) <= -(isize::MIN as i128) {
                Some((-(v as i128)) as isize)
            } else {
                None
            },
            None => None,
        }
    } else {
        match parse_u64(s) {
            Some(v) => if (v as u128) <= isize::MAX as u128 { Some(v as isize) } else { None },
            None => None,
        }
    }
}

} // verus!
