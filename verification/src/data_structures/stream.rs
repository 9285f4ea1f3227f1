//! Streams: entries keyed by IDs `<ms>-<seq>` that only grow, with their
//! field-value pairs packed into listpacks that a radix tree indexes by the
//! ID of each listpack's first entry.
use vstd::prelude::*;
use crate::data_structures::bytes::{
    be_bytes, be_value, be8, read_be, pow256, lemma_be_bytes_len, lemma_be_value_bound, lemma_be_roundtrip,
    lemma_pow256_values, lemma_pow256_mono, bytes_lt, lemma_bytes_lt_concat, lemma_be_bytes_order,
};
use crate::data_structures::listpack::{
    append_size, Listpack, ListpackValue, ListpackValueRef, value_of, all_valid, entries_bytes, appendable,
    listpack_bytes, entry_bytes, lemma_entries_concat, lemma_listpack_len, entry_offset,
    twos, valid_entry, strict_i64,
};
use crate::data_structures::radix::RadixTree;
use crate::decimal::{is_digit, all_digits, digits_value, lemma_digits_value_monotone};

verus! {

/// The ID of a stream entry: milliseconds, then a sequence number within the
/// millisecond. IDs are ordered by `ms`, then by `seq`.
#[derive(Debug, Clone, Copy, PartialEq, Eq, Structural, PartialOrd, Ord)]
pub struct StreamID {
    pub ms: u64,
    pub seq: u64,
}

/// `a` comes before `b`.
pub open spec fn id_lt(a: StreamID, b: StreamID) -> bool {
    a.ms < b.ms || (a.ms == b.ms && a.seq < b.seq)
}

/// `a` comes before `b` or is `b`.
pub open spec fn id_le(a: StreamID, b: StreamID) -> bool {
    id_lt(a, b) || a == b
}

/// The sixteen bytes of an ID: `ms` then `seq`, both big-endian, so that
/// byte order is ID order.
pub open spec fn id_bytes(id: StreamID) -> Seq<u8> {
    be_bytes(id.ms as nat, 8) + be_bytes(id.seq as nat, 8)
}

/// `-ERR invalid stream id`
pub open spec fn invalid_id_error() -> Seq<u8> {
    seq![45u8, 69, 82, 82, 32, 105, 110, 118, 97, 108, 105, 100, 32, 115, 116, 114, 101, 97, 109, 32, 105, 100]
}

/// `-ERR invalid integer`
pub open spec fn invalid_integer_error() -> Seq<u8> {
    seq![45u8, 69, 82, 82, 32, 105, 110, 118, 97, 108, 105, 100, 32, 105, 110, 116, 101, 103, 101, 114]
}

/// `-ERR The ID specified in XADD is equal or smaller than the target stream top item\r\n`
pub open spec fn id_too_small_error() -> Seq<u8> {
    seq![45u8, 69, 82, 82, 32, 84, 104, 101, 32, 73, 68, 32, 115, 112, 101, 99, 105, 102, 105, 101, 100, 32, 105, 110, 32, 88, 65, 68, 68, 32, 105, 115, 32, 101, 113, 117, 97, 108, 32, 111, 114, 32, 115, 109, 97, 108, 108, 101, 114, 32, 116, 104, 97, 110, 32, 116, 104, 101, 32, 116, 97, 114, 103, 101, 116, 32, 115, 116, 114, 101, 97, 109, 32, 116, 111, 112, 32, 105, 116, 101, 109, 13, 10]
}

/// Reading the digits of `s` as a `u64` overflows before it meets a byte
/// that is no digit.
pub open spec fn u64_digits_overflow(s: Seq<u8>) -> bool {
    exists|i: int| 0 <= i <= s.len() && all_digits(#[trigger] s.take(i)) && digits_value(s.take(i)) > u64::MAX
}

/// What `parse_u64` gives: the value of a non-empty run of digits, else the
/// error.
pub open spec fn spec_parse_u64(s: Seq<u8>) -> Result<u64, Seq<u8>> {
    if s.len() > 0 && all_digits(s) {
        Ok(digits_value(s) as u64)
    } else {
        Err(invalid_integer_error())
    }
}

fn parse_u64(bytes: &[u8]) -> (r: Result<u64, Vec<u8>>)
    requires
        !u64_digits_overflow(bytes@),
    ensures
        match r {
            Ok(v) => spec_parse_u64(bytes@) == Ok::<u64, Seq<u8>>(v),
            Err(e) => spec_parse_u64(bytes@) == Err::<u64, Seq<u8>>(e@),
        },
{
    if bytes.len() == 0 {
        return Err(invalid_integer());
    }
    let mut num: u64 = 0;
    let mut i: usize = 0;
    assert(bytes@.take(0) =~= Seq::<u8>::empty());
    while i < bytes.len()
        invariant
            i <= bytes@.len(),
            bytes@.len() > 0,
            !u64_digits_overflow(bytes@),
            all_digits(bytes@.take(i as int)),
            num == digits_value(bytes@.take(i as int)),
        decreases bytes@.len() - i,
    {
        let b = bytes[i];
        if b < 48u8 || b > 57u8 {
            assert(!is_digit(bytes@[i as int]));
            return Err(invalid_integer());
        }
        proof {
            assert(bytes@.take(i + 1).drop_last() =~= bytes@.take(i as int));
            assert(all_digits(bytes@.take(i + 1))) by {
                assert forall|j: int| 0 <= j < i + 1 implies is_digit(#[trigger] bytes@.take(i + 1)[j]) by {
                    if j < i {
                        assert(bytes@.take(i + 1)[j] == bytes@.take(i as int)[j]);
                    }
                }
            }
            assert(digits_value(bytes@.take(i + 1)) <= u64::MAX);
        }
        num = num * 10 + (b - 48u8) as u64;
        i = i + 1;
    }
    assert(bytes@.take(bytes@.len() as int) =~= bytes@);
    Ok(num)
}

fn invalid_integer() -> (r: Vec<u8>)
    ensures
        r@ == invalid_integer_error(),
{
    let v: Vec<u8> = vec![45u8, 69, 82, 82, 32, 105, 110, 118, 97, 108, 105, 100, 32, 105, 110, 116, 101, 103, 101, 114];
    assert(v@ == invalid_integer_error());
    v
}

fn invalid_id() -> (r: Vec<u8>)
    ensures
        r@ == invalid_id_error(),
{
    let v: Vec<u8> = vec![45u8, 69, 82, 82, 32, 105, 110, 118, 97, 108, 105, 100, 32, 115, 116, 114, 101, 97, 109, 32, 105, 100];
    assert(v@ == invalid_id_error());
    v
}

/// The error for an ID that does not come after the stream's last one.
pub fn id_too_small() -> (r: Vec<u8>)
    ensures
        r@ == id_too_small_error(),
{
    let v: Vec<u8> = vec![45u8, 69, 82, 82, 32, 84, 104, 101, 32, 73, 68, 32, 115, 112, 101, 99, 105, 102, 105, 101, 100, 32, 105, 110, 32, 88, 65, 68, 68, 32, 105, 115, 32, 101, 113, 117, 97, 108, 32, 111, 114, 32, 115, 109, 97, 108, 108, 101, 114, 32, 116, 104, 97, 110, 32, 116, 104, 101, 32, 116, 97, 114, 103, 101, 116, 32, 115, 116, 114, 101, 97, 109, 32, 116, 111, 112, 32, 105, 116, 101, 109, 13, 10];
    assert(v@ == id_too_small_error());
    v
}

/// The first position at or after `i` where `s` holds byte `b`.
pub open spec fn find_byte(s: Seq<u8>, b: u8, i: int) -> Option<int>
    decreases s.len() - i,
{
    if i < 0 || i >= s.len() {
        None
    } else if s[i] == b {
        Some(i)
    } else {
        find_byte(s, b, i + 1)
    }
}

/// `*`
pub open spec fn star() -> Seq<u8> {
    seq![42u8]
}

/// What `StreamID::parse` gives for `input` after `last`, where the clock
/// reads `now` milliseconds: `*` takes the clock's time, `<ms>-*` the next
/// sequence number for `ms`, `<ms>-<seq>` the two numbers as written.
pub open spec fn spec_parse_id(input: Seq<u8>, last: StreamID, now: u64) -> Result<StreamID, Seq<u8>> {
    if input == star() {
        Ok(StreamID { ms: now, seq: if last.ms == now { (last.seq + 1) as u64 } else { 0 } })
    } else {
        match find_byte(input, 45, 0) {
            None => Err(invalid_id_error()),
            Some(d) => {
                let ms_part = input.take(d);
                let seq_part = input.skip(d + 1);
                match spec_parse_u64(ms_part) {
                    Err(e) => Err(e),
                    Ok(ms) => if seq_part == star() {
                        if ms > last.ms {
                            Ok(StreamID { ms, seq: 0 })
                        } else if ms == last.ms {
                            Ok(StreamID { ms, seq: (last.seq + 1) as u64 })
                        } else {
                            Err(id_too_small_error())
                        }
                    } else {
                        match spec_parse_u64(seq_part) {
                            Err(e) => Err(e),
                            Ok(seq) => Ok(StreamID { ms, seq }),
                        }
                    },
                }
            },
        }
    }
}

/// The inputs on which `parse` would overflow: a number past `u64`, or a
/// sequence number after `u64::MAX`.
pub open spec fn parse_id_overflows(input: Seq<u8>, last: StreamID, now: u64) -> bool {
    if input == star() {
        last.ms == now && last.seq == u64::MAX
    } else {
        match find_byte(input, 45, 0) {
            None => false,
            Some(d) => {
                let ms_part = input.take(d);
                let seq_part = input.skip(d + 1);
                u64_digits_overflow(ms_part) || match spec_parse_u64(ms_part) {
                    Err(_) => false,
                    Ok(ms) => if seq_part == star() {
                        ms == last.ms && last.seq == u64::MAX
                    } else {
                        u64_digits_overflow(seq_part)
                    },
                }
            },
        }
    }
}

proof fn lemma_find_byte(s: Seq<u8>, b: u8, i: int)
    requires
        0 <= i,
    ensures
        find_byte(s, b, i) matches Some(j) ==> i <= j < s.len() && s[j] == b,
        find_byte(s, b, i) is None ==> forall|j: int| i <= j < s.len() ==> s[j] != b,
    decreases s.len() - i,
{
    if i < s.len() && s[i] != b {
        lemma_find_byte(s, b, i + 1);
    }
}

/// The input is `*`.
pub fn is_star(s: &[u8]) -> (r: bool)
    ensures
        r == (s@ == star()),
{
    if s.len() == 1 && s[0] == 42u8 {
        assert(s@ =~= star());
        true
    } else {
        false
    }
}

/// `std::time::SystemTime`, the wall clock's reading, which nothing here
/// looks inside.
#[verifier::external_type_specification]
#[verifier::external_body]
pub struct ExSystemTime(std::time::SystemTime);

/// `SystemTime::now`: the wall clock's reading. Nothing is stated of it: it
/// is the time.
#[verifier::external_body]
fn wall_clock() -> std::time::SystemTime {
    std::time::SystemTime::now()
}

/// `SystemTime::duration_since` the Unix epoch: how long after 1970 the
/// reading `t` is, or nothing where `t` is before 1970. Nothing is stated
/// of either: nothing here looks inside a duration, and which case comes
/// depends on the clock.
#[verifier::external_body]
fn since_epoch(t: &std::time::SystemTime) -> Option<std::time::Duration> {
    match t.duration_since(std::time::UNIX_EPOCH) {
        Ok(d) => Some(d),
        Err(_) => None,
    }
}

/// `Duration::as_millis`: the whole milliseconds of `d`. Nothing is stated
/// of it, since nothing here looks inside a duration.
#[verifier::external_body]
fn duration_millis(d: &std::time::Duration) -> u128 {
    d.as_millis()
}

/// The wall clock, in milliseconds since the Unix epoch, cut to 64 bits;
/// nothing where the clock reads before 1970.
fn unix_time_ms() -> Option<u64> {
    match since_epoch(&wall_clock()) {
        Some(since) => {
            let ms = duration_millis(&since);
            Some(ms as u64)
        },
        None => None,
    }
}

/// `-ERR Time went backwards`: the answer to `*` where the wall clock reads
/// before 1970.
pub open spec fn clock_behind_error() -> Seq<u8> {
    seq![45u8, 69, 82, 82, 32, 84, 105, 109, 101, 32, 119, 101, 110, 116, 32, 98, 97, 99, 107, 119, 97, 114, 100, 115]
}

/// The error for a wall clock that reads before 1970.
pub fn clock_behind() -> (r: Vec<u8>)
    ensures
        r@ == clock_behind_error(),
{
    let v: Vec<u8> = vec![45u8, 69, 82, 82, 32, 84, 105, 109, 101, 32, 119, 101, 110, 116, 32, 98, 97, 99, 107, 119, 97, 114, 100, 115];
    assert(v@ == clock_behind_error());
    v
}

fn digits_overflow(b: &[u8]) -> (r: bool)
    ensures
        r == u64_digits_overflow(b@),
{
    let mut v: u64 = 0;
    let mut i: usize = 0;
    assert(b@.take(0) =~= Seq::<u8>::empty());
    while i < b.len()
        invariant
            i <= b@.len(),
            all_digits(b@.take(i as int)),
            v == digits_value(b@.take(i as int)),
        decreases b@.len() - i,
    {
        let c = b[i];
        if c < 48u8 || c > 57u8 {
            proof {
                assert forall|j: int| 0 <= j <= b@.len() && all_digits(#[trigger] b@.take(j))
                    implies digits_value(b@.take(j)) <= u64::MAX by {
                    if j > i {
                        assert(b@.take(j)[i as int] == c);
                        assert(!is_digit(b@.take(j)[i as int]));
                    } else {
                        lemma_digits_value_monotone(b@.take(i as int), j, i as int);
                        assert(b@.take(i as int).take(j) =~= b@.take(j));
                        assert(b@.take(i as int).take(i as int) =~= b@.take(i as int));
                    }
                }
            }
            return false;
        }
        proof {
            assert(b@.take(i + 1).drop_last() =~= b@.take(i as int));
            assert(all_digits(b@.take(i + 1))) by {
                assert forall|j: int| 0 <= j < i + 1 implies is_digit(#[trigger] b@.take(i + 1)[j]) by {
                    if j < i {
                        assert(b@.take(i + 1)[j] == b@.take(i as int)[j]);
                    }
                }
            }
        }
        let next = match v.checked_mul(10) {
            Some(m) => m.checked_add((c - 48u8) as u64),
            None => None,
        };
        match next {
            Some(n) => {
                v = n;
            },
            None => {
                assert(digits_value(b@.take(i + 1)) > u64::MAX);
                return true;
            },
        }
        i = i + 1;
    }
    proof {
        assert(b@.take(b@.len() as int) =~= b@);
        assert forall|j: int| 0 <= j <= b@.len() && all_digits(#[trigger] b@.take(j))
            implies digits_value(b@.take(j)) <= u64::MAX by {
            lemma_digits_value_monotone(b@, j, b@.len() as int);
        }
    }
    false
}

/// Whether reading `input` as an ID after `last`, with the clock at `now`,
/// would overflow.
pub fn id_overflows(input: &[u8], last: StreamID, now: u64) -> (r: bool)
    ensures
        r == parse_id_overflows(input@, last, now),
{
    if is_star(input) {
        return last.ms == now && last.seq == u64::MAX;
    }
    let n = input.len();
    let mut dash: usize = 0;
    proof { lemma_find_byte(input@, 45, 0); }
    while dash < n
        invariant
            dash <= n,
            n == input@.len(),
            find_byte(input@, 45, 0) == find_byte(input@, 45, dash as int),
        ensures
            dash <= n,
            find_byte(input@, 45, 0) == find_byte(input@, 45, dash as int),
            dash < n ==> input@[dash as int] == 45,
        decreases n - dash,
    {
        if input[dash] == 45u8 {
            break;
        }
        dash = dash + 1;
    }
    if dash == n {
        return false;
    }
    assert(find_byte(input@, 45, 0) == Some(dash as int));
    let ms_part = &input[0..dash];
    let seq_part = &input[dash + 1..n];
    assert(ms_part@ =~= input@.take(dash as int));
    assert(seq_part@ =~= input@.skip(dash + 1));
    if digits_overflow(ms_part) {
        return true;
    }
    match parse_u64(ms_part) {
        Err(_) => false,
        Ok(ms) => if is_star(seq_part) {
            ms == last.ms && last.seq == u64::MAX
        } else {
            digits_overflow(seq_part)
        },
    }
}

impl StreamID {
    /// The sixteen bytes of the ID, `ms` then `seq`, big-endian.
    pub fn to_bytes(&self) -> (r: [u8; 16])
        ensures
            r@ == id_bytes(*self),
    {
        let mut out = [0u8; 16];
        let a = be8(self.ms);
        let b = be8(self.seq);
        let mut i: usize = 0;
        proof {
            lemma_be_bytes_len(self.ms as nat, 8);
            lemma_be_bytes_len(self.seq as nat, 8);
        }
        while i < 8
            invariant
                i <= 8,
                a@.len() == 8,
                b@.len() == 8,
                out@.len() == 16,
                forall|j: int| 0 <= j < i ==> out@[j] == a@[j] && out@[j + 8] == b@[j],
            decreases 8 - i,
        {
            out[i] = a[i];
            out[i + 8] = b[i];
            i = i + 1;
        }
        assert(out@ =~= a@ + b@);
        out
    }

    /// Reads an ID as `XADD` takes it after the stream's `last_id`: `*`,
    /// `<ms>-*` or `<ms>-<seq>`. For `*` it reads the wall clock: it
    /// answers `-ERR Time went backwards` where the clock reads before 1970,
    /// and the error for an ID that does not come after the top item where
    /// the clock reads `last_id`'s millisecond and no sequence number is
    /// left after `last_id`'s.
    pub fn parse(input: &[u8], last_id: StreamID) -> (r: Result<Self, Vec<u8>>)
        requires
            input@ != star() ==> !parse_id_overflows(input@, last_id, 0),
        ensures
            input@ != star() ==> match r {
                Ok(id) => spec_parse_id(input@, last_id, 0) == Ok::<StreamID, Seq<u8>>(id),
                Err(e) => spec_parse_id(input@, last_id, 0) == Err::<StreamID, Seq<u8>>(e@),
            },
            input@ == star() ==> match r {
                Ok(id) => !(id.ms == last_id.ms && last_id.seq == u64::MAX)
                    && spec_parse_id(input@, last_id, id.ms) == Ok::<StreamID, Seq<u8>>(id),
                Err(e) => e@ == clock_behind_error() || (e@ == id_too_small_error() && last_id.seq == u64::MAX),
            },
    {
        if is_star(input) {
            match unix_time_ms() {
                Some(now) => {
                    if last_id.ms == now && last_id.seq == u64::MAX {
                        Err(id_too_small())
                    } else {
                        Self::parse_at(input, last_id, now)
                    }
                },
                None => Err(clock_behind()),
            }
        } else {
            Self::parse_at(input, last_id, 0)
        }
    }

    /// Reads an ID as `parse` does, with the clock at `now`.
    pub fn parse_at(input: &[u8], last_id: StreamID, now: u64) -> (r: Result<Self, Vec<u8>>)
        requires
            !parse_id_overflows(input@, last_id, now),
        ensures
            match r {
                Ok(id) => spec_parse_id(input@, last_id, now) == Ok::<StreamID, Seq<u8>>(id),
                Err(e) => spec_parse_id(input@, last_id, now) == Err::<StreamID, Seq<u8>>(e@),
            },
    {
        if is_star(input) {
            let seq = if last_id.ms == now { last_id.seq + 1 } else { 0 };
            return Ok(StreamID { ms: now, seq });
        }
        let n = input.len();
        let mut dash: usize = 0;
        proof { lemma_find_byte(input@, 45, 0); }
        while dash < n
            invariant
                dash <= n,
                n == input@.len(),
                find_byte(input@, 45, 0) == find_byte(input@, 45, dash as int),
            ensures
                dash <= n,
                find_byte(input@, 45, 0) == find_byte(input@, 45, dash as int),
                dash < n ==> input@[dash as int] == 45,
            decreases n - dash,
        {
            if input[dash] == 45u8 {
                break;
            }
            dash = dash + 1;
        }
        if dash == n {
            return Err(invalid_id());
        }
        assert(find_byte(input@, 45, 0) == Some(dash as int));
        let ms_part = &input[0..dash];
        let seq_part = &input[dash + 1..n];
        assert(ms_part@ =~= input@.take(dash as int));
        assert(seq_part@ =~= input@.skip(dash + 1));
        let ms = match parse_u64(ms_part) {
            Ok(v) => v,
            Err(e) => return Err(e),
        };
        let seq;
        if is_star(seq_part) {
            if ms > last_id.ms {
                seq = 0;
            } else if ms == last_id.ms {
                seq = last_id.seq + 1;
            } else {
                return Err(id_too_small());
            }
        } else {
            seq = match parse_u64(seq_part) {
                Ok(v) => v,
                Err(e) => return Err(e),
            };
        }
        Ok(StreamID { ms, seq })
    }
}

// ---------------------------------------------------------------------------
// What a stream stores for an entry

/// The field-value pairs given to `add`, as byte strings.
pub open spec fn fields_view(fields: Seq<(&[u8], &[u8])>) -> Seq<(Seq<u8>, Seq<u8>)> {
    fields.map_values(|p: (&[u8], &[u8])| (p.0@, p.1@))
}

/// The listpack elements of the pairs: each field, then its value.
pub open spec fn pair_values(fields: Seq<(Seq<u8>, Seq<u8>)>) -> Seq<ListpackValue>
    decreases fields.len(),
{
    if fields.len() == 0 {
        Seq::empty()
    } else {
        pair_values(fields.drop_last()) + seq![
            value_of(fields.last().0),
            value_of(fields.last().1),
        ]
    }
}

/// The listpack elements of one entry: its `ms`, its `seq` and its number of
/// pairs as eight big-endian bytes each, then the pairs.
pub open spec fn entry_values(id: StreamID, fields: Seq<(Seq<u8>, Seq<u8>)>) -> Seq<ListpackValue> {
    seq![
        value_of(be_bytes(id.ms as nat, 8)),
        value_of(be_bytes(id.seq as nat, 8)),
        value_of(be_bytes(fields.len(), 8)),
    ] + pair_values(fields)
}

/// Elements `vals` can be appended to a listpack of `total` bytes without
/// overflowing it.
pub open spec fn fits(total: nat, vals: Seq<ListpackValue>) -> bool {
    all_valid(vals) && total + entries_bytes(vals).len() <= u32::MAX
}

proof fn lemma_pair_values_len(fields: Seq<(Seq<u8>, Seq<u8>)>)
    ensures
        pair_values(fields).len() == 2 * fields.len(),
    decreases fields.len(),
{
    if fields.len() > 0 {
        lemma_pair_values_len(fields.drop_last());
    }
}

proof fn lemma_fits_step(total: nat, vals: Seq<ListpackValue>, k: int)
    requires
        fits(total, vals),
        0 <= k < vals.len(),
    ensures
        appendable(total + entries_bytes(vals.take(k)).len(), vals[k]),
        entries_bytes(vals.take(k + 1)) == entries_bytes(vals.take(k)) + entry_bytes(vals[k]),
{
    assert(vals.take(k + 1).drop_last() =~= vals.take(k));
    assert(vals =~= vals.take(k + 1) + vals.skip(k + 1));
    lemma_entries_concat(vals.take(k + 1), vals.skip(k + 1));
}

fn append_value(lp: &mut Listpack, value: &[u8], Ghost(total): Ghost<nat>, Ghost(vals): Ghost<Seq<ListpackValue>>, Ghost(k): Ghost<int>, Ghost(base): Ghost<Seq<ListpackValue>>)
    requires
        old(lp).wf(),
        fits(total, vals),
        0 <= k < vals.len(),
        vals[k] == value_of(value@),
        old(lp)@ == base + vals.take(k),
        total == listpack_bytes(base).len(),
    ensures
        final(lp).wf(),
        final(lp)@ == base + vals.take(k + 1),
{
    proof {
        lemma_fits_step(total, vals, k);
        lemma_listpack_len(base);
        lemma_listpack_len(old(lp)@);
        lemma_entries_concat(base, vals.take(k));
        assert(vals.take(k + 1) =~= vals.take(k).push(vals[k]));
        assert(base + vals.take(k + 1) =~= (base + vals.take(k)).push(vals[k]));
    }
    let r = lp.append(value);
    match r {
        Ok(()) => {},
        Err(_) => {},
    }
}

proof fn lemma_pair_values_step(fields: Seq<(Seq<u8>, Seq<u8>)>, j: int)
    requires
        0 <= j < fields.len(),
    ensures
        pair_values(fields.take(j + 1)) == pair_values(fields.take(j)) + seq![
            value_of(fields[j].0),
            value_of(fields[j].1),
        ],
        pair_values(fields.take(j)).len() == 2 * j,
{
    assert(fields.take(j + 1).drop_last() =~= fields.take(j));
    lemma_pair_values_len(fields.take(j));
}

/// Appends the elements of one entry to `lp`.
fn append_entry(lp: &mut Listpack, id: &StreamID, fields: &[(&[u8], &[u8])])
    requires
        old(lp).wf(),
        fits(listpack_bytes(old(lp)@).len(), entry_values(*id, fields_view(fields@))),
    ensures
        final(lp).wf(),
        final(lp)@ == old(lp)@ + entry_values(*id, fields_view(fields@)),
{
    let ghost base = lp@;
    let ghost total = listpack_bytes(base).len();
    let ghost fv = fields_view(fields@);
    let ghost vals = entry_values(*id, fv);
    proof {
        lemma_pair_values_len(fv);
        assert(vals.take(0) =~= Seq::<ListpackValue>::empty());
        assert(base + vals.take(0) =~= base);
    }
    let ms = be8(id.ms);
    append_value(lp, ms.as_slice(), Ghost(total), Ghost(vals), Ghost(0), Ghost(base));
    let seq = be8(id.seq);
    append_value(lp, seq.as_slice(), Ghost(total), Ghost(vals), Ghost(1), Ghost(base));
    let count = be8(fields.len() as u64);
    append_value(lp, count.as_slice(), Ghost(total), Ghost(vals), Ghost(2), Ghost(base));
    let n = fields.len();
    let mut j: usize = 0;
    while j < n
        invariant
            lp.wf(),
            n == fields@.len(),
            fv == fields_view(fields@),
            vals == entry_values(*id, fv),
            fits(total, vals),
            total == listpack_bytes(base).len(),
            vals.len() == 3 + 2 * n,
            j <= n,
            lp@ == base + vals.take(3 + 2 * j),
        decreases n - j,
    {
        proof {
            lemma_pair_values_step(fv, j as int);
            assert(fv.take(n as int) =~= fv);
            assert(vals[3 + 2 * j] == value_of(fv[j as int].0)) by {
                lemma_pair_values_prefix(fv, j as int);
            }
            assert(vals[3 + 2 * j + 1] == value_of(fv[j as int].1)) by {
                lemma_pair_values_prefix(fv, j as int);
            }
        }
        let (f, v) = fields[j];
        append_value(lp, f, Ghost(total), Ghost(vals), Ghost(3 + 2 * j as int), Ghost(base));
        append_value(lp, v, Ghost(total), Ghost(vals), Ghost(3 + 2 * j as int + 1), Ghost(base));
        j = j + 1;
    }
    assert(vals.take(3 + 2 * n) =~= vals);
}

proof fn lemma_pair_values_prefix(fields: Seq<(Seq<u8>, Seq<u8>)>, j: int)
    requires
        0 <= j < fields.len(),
    ensures
        pair_values(fields)[2 * j] == value_of(fields[j].0),
        pair_values(fields)[2 * j + 1] == value_of(fields[j].1),
    decreases fields.len(),
{
    lemma_pair_values_len(fields.drop_last());
    if j < fields.len() - 1 {
        lemma_pair_values_prefix(fields.drop_last(), j);
    }
}

/// One more element of an entry measured: where it can be measured and
/// still fits, the bytes so far; else the entry does not fit.
fn measure_value(
    sum: u64,
    value: &[u8],
    Ghost(total): Ghost<nat>,
    Ghost(vals): Ghost<Seq<ListpackValue>>,
    Ghost(k): Ghost<int>,
) -> (r: Option<u64>)
    requires
        0 <= k < vals.len(),
        vals[k] == value_of(value@),
        sum == total + entries_bytes(vals.take(k)).len(),
        all_valid(vals.take(k)),
        sum <= u32::MAX,
    ensures
        match r {
            Some(n) => n == total + entries_bytes(vals.take(k + 1)).len() && all_valid(vals.take(k + 1))
                && n <= u32::MAX,
            None => !fits(total, vals),
        },
{
    proof {
        assert(vals.take(k + 1).drop_last() =~= vals.take(k));
        assert(vals.take(k + 1).last() == vals[k]);
        assert(vals =~= vals.take(k + 1) + vals.skip(k + 1));
        lemma_entries_concat(vals.take(k + 1), vals.skip(k + 1));
    }
    match append_size(value) {
        None => {
            assert(!valid_entry(vals[k]));
            None
        },
        Some(n) => {
            if n > u32::MAX as u64 - sum {
                None
            } else {
                proof {
                    assert forall|i: int| 0 <= i < k + 1 implies valid_entry(#[trigger] vals.take(k + 1)[i]) by {
                        if i < k {
                            assert(vals.take(k + 1)[i] == vals.take(k)[i]);
                        }
                    }
                }
                Some(sum + n)
            }
        },
    }
}

/// Whether the entry `id` with its field-value pairs fits a listpack of
/// `total` bytes.
pub fn entry_fits(total: u64, id: StreamID, fields: &[(&[u8], &[u8])]) -> (r: bool)
    requires
        total <= u32::MAX,
    ensures
        r == fits(total as nat, entry_values(id, fields_view(fields@))),
{
    let ghost fv = fields_view(fields@);
    let ghost vals = entry_values(id, fv);
    let ghost t: nat = total as nat;
    proof {
        lemma_pair_values_len(fv);
        assert(vals.take(0) =~= Seq::<ListpackValue>::empty());
        assert(entries_bytes(Seq::<ListpackValue>::empty()) =~= Seq::<u8>::empty());
    }
    let mut sum = total;
    let ms = be8(id.ms);
    sum = match measure_value(sum, ms.as_slice(), Ghost(t), Ghost(vals), Ghost(0)) {
        Some(n) => n,
        None => return false,
    };
    let sq = be8(id.seq);
    sum = match measure_value(sum, sq.as_slice(), Ghost(t), Ghost(vals), Ghost(1)) {
        Some(n) => n,
        None => return false,
    };
    let count = be8(fields.len() as u64);
    sum = match measure_value(sum, count.as_slice(), Ghost(t), Ghost(vals), Ghost(2)) {
        Some(n) => n,
        None => return false,
    };
    let n = fields.len();
    let mut j: usize = 0;
    while j < n
        invariant
            n == fields@.len(),
            fv == fields_view(fields@),
            vals == entry_values(id, fv),
            vals.len() == 3 + 2 * n,
            t == total as nat,
            j <= n,
            sum == t + entries_bytes(vals.take(3 + 2 * j)).len(),
            all_valid(vals.take(3 + 2 * j)),
            sum <= u32::MAX,
        decreases n - j,
    {
        proof {
            lemma_pair_values_prefix(fv, j as int);
        }
        let (f, v) = fields[j];
        assert(vals[3 + 2 * j] == value_of(fv[j as int].0));
        assert(vals[3 + 2 * j + 1] == value_of(fv[j as int].1));
        sum = match measure_value(sum, f, Ghost(t), Ghost(vals), Ghost(3 + 2 * j as int)) {
            Some(x) => x,
            None => return false,
        };
        sum = match measure_value(sum, v, Ghost(t), Ghost(vals), Ghost(3 + 2 * j as int + 1)) {
            Some(x) => x,
            None => return false,
        };
        j = j + 1;
    }
    assert(vals.take(3 + 2 * n) =~= vals);
    true
}

// ---------------------------------------------------------------------------
// Reading an entry back

/// The number of pairs that an entry's third element announces.
pub open spec fn pair_count(v: ListpackValue) -> Option<nat> {
    match v {
        ListpackValue::Int(n) => Some(twos(n as int, 18446744073709551616)),
        ListpackValue::Str(b) => if b.len() == 8 {
            Some(be_value(b))
        } else {
            None
        },
    }
}

/// Walks the entries of a listpack from element `i` on, looking for the
/// entry `target`: its pairs' elements, or `None` where the walk meets an
/// element it cannot read as an entry or reaches the end.
#[verifier::opaque]
pub open spec fn scan_entries(es: Seq<ListpackValue>, i: int, target: StreamID) -> Option<Seq<ListpackValue>>
    decreases es.len() - i,
{
    if i < 0 || i >= es.len() {
        None
    } else {
        match es[i] {
            ListpackValue::Int(_) => None,
            ListpackValue::Str(ms_b) => if i + 1 >= es.len() {
                None
            } else {
                match es[i + 1] {
                    ListpackValue::Int(_) => None,
                    ListpackValue::Str(seq_b) => if ms_b.len() != 8 || seq_b.len() != 8 || i + 2 >= es.len() {
                        None
                    } else {
                        match pair_count(es[i + 2]) {
                            None => None,
                            Some(nf) => {
                                let end = i + 3 + 2 * nf;
                                if end > es.len() {
                                    None
                                } else if be_value(ms_b) == target.ms && be_value(seq_b) == target.seq {
                                    Some(es.subrange(i + 3, end))
                                } else {
                                    scan_entries(es, end, target)
                                }
                            },
                        }
                    },
                }
            },
        }
    }
}

fn read_count(v: ListpackValueRef<'_>) -> (r: Option<u64>)
    ensures
        match r {
            Some(n) => pair_count(v@) == Some(n as nat),
            None => pair_count(v@) is None,
        },
{
    proof { lemma_pow256_values(); }
    match v {
        ListpackValueRef::Int(n) => {
            if n >= 0 {
                Some(n as u64)
            } else {
                Some(((n + 9223372036854775807 + 1) as u64) + 9223372036854775808u64)
            }
        },
        ListpackValueRef::String(b) => {
            if b.len() != 8 {
                None
            } else {
                proof { lemma_be_value_bound(b@); }
                Some(read_be(b))
            }
        },
    }
}

/// One step of the walk: the entry at element `i` is read whole.
proof fn lemma_scan_step(es: Seq<ListpackValue>, i: int, target: StreamID, ms_b: Seq<u8>, seq_b: Seq<u8>, nf: nat)
    requires
        0 <= i,
        i + 2 < es.len(),
        es[i] == ListpackValue::Str(ms_b),
        es[i + 1] == ListpackValue::Str(seq_b),
        ms_b.len() == 8,
        seq_b.len() == 8,
        pair_count(es[i + 2]) == Some(nf),
    ensures
        scan_entries(es, i, target) == (if i + 3 + 2 * nf > es.len() {
            None
        } else if be_value(ms_b) == target.ms && be_value(seq_b) == target.seq {
            Some(es.subrange(i + 3, i + 3 + 2 * nf))
        } else {
            scan_entries(es, i + 3 + 2 * nf, target)
        }),
{
    reveal(scan_entries);
}

/// The walk stops with nothing where the entry at `i` cannot be read.
proof fn lemma_scan_fail(es: Seq<ListpackValue>, i: int, target: StreamID)
    requires
        0 <= i,
    ensures
        i >= es.len() ==> scan_entries(es, i, target) is None,
        i < es.len() && es[i] is Int ==> scan_entries(es, i, target) is None,
        i < es.len() && es[i] is Str && (i + 1 >= es.len() || es[i + 1] is Int) ==> scan_entries(es, i, target) is None,
        i + 1 < es.len() && (es[i] matches ListpackValue::Str(a) && es[i + 1] matches ListpackValue::Str(b)
            && (a.len() != 8 || b.len() != 8)) ==> scan_entries(es, i, target) is None,
        i + 1 < es.len() && es[i] is Str && es[i + 1] is Str && (i + 2 >= es.len() || pair_count(es[i + 2]) is None)
            ==> scan_entries(es, i, target) is None,
{
    reveal(scan_entries);
}

/// Finds the entry `target` in a stream node's listpack: the elements of its
/// pairs.
fn find_entry_in_listpack<'a>(lp: &'a Listpack, target: &StreamID) -> (r: Option<Vec<ListpackValueRef<'a>>>)
    requires
        lp.wf(),
    ensures
        match r {
            Some(v) => scan_entries(lp@, 0, *target) == Some(v@.map_values(|x: ListpackValueRef<'a>| x@)),
            None => scan_entries(lp@, 0, *target) is None,
        },
{
    let ghost es = lp@;
    proof { lp.lemma_wf_bytes(); }
    let mut iter = lp.iter();
    let mut k: usize = 0;
    loop
        invariant
            es == lp@,
            iter.buffer() == listpack_bytes(es),
            all_valid(es),
            0 <= k <= es.len(),
            iter.position() == entry_offset(es, k as int),
            scan_entries(es, 0, *target) == scan_entries(es, k as int, *target),
            es.len() < u32::MAX,
        decreases es.len() - k,
    {
        proof { lemma_scan_fail(es, k as int, *target); }
        let ms_bytes = match iter.next_element(Ghost(es), Ghost(k as int)) {
            Some(ListpackValueRef::String(b)) => b,
            _ => return None,
        };
        let seq_bytes = match iter.next_element(Ghost(es), Ghost(k + 1)) {
            Some(ListpackValueRef::String(b)) => b,
            _ => return None,
        };
        if ms_bytes.len() != 8 || seq_bytes.len() != 8 {
            return None;
        }
        let ms = read_be(ms_bytes);
        let seq = read_be(seq_bytes);
        let num_fields = match iter.next_element(Ghost(es), Ghost(k + 2)) {
            Some(v) => match read_count(v) {
                Some(n) => n,
                None => return None,
            },
            None => return None,
        };
        proof {
            lemma_scan_step(es, k as int, *target, ms_bytes@, seq_bytes@, num_fields as nat);
        }
        let ghost outcome = scan_entries(es, k as int, *target);
        let start = k + 3;
        let mut fields: Vec<ListpackValueRef<'a>> = Vec::new();
        let mut j: u64 = 0;
        while j < num_fields
            invariant
                es == lp@,
                iter.buffer() == listpack_bytes(es),
                all_valid(es),
                start <= es.len(),
                j <= num_fields,
                start + 2 * j <= es.len(),
                iter.position() == entry_offset(es, start + 2 * j),
                fields@.map_values(|x: ListpackValueRef<'a>| x@) == es.subrange(start as int, start + 2 * j),
                es.len() < u32::MAX,
                scan_entries(es, 0, *target) == outcome,
                start + 2 * num_fields > es.len() ==> outcome is None,
            ensures
                j == num_fields,
                start + 2 * num_fields <= es.len(),
                iter.position() == entry_offset(es, start + 2 * num_fields),
                fields@.map_values(|x: ListpackValueRef<'a>| x@) == es.subrange(start as int, start + 2 * num_fields),
            decreases num_fields - j,
        {
            let ghost p = (start + 2 * j) as int;
            let f = match iter.next_element(Ghost(es), Ghost(p)) {
                Some(f) => f,
                None => return None,
            };
            let v = match iter.next_element(Ghost(es), Ghost(p + 1)) {
                Some(v) => v,
                None => return None,
            };
            let ghost before = fields@.map_values(|x: ListpackValueRef<'a>| x@);
            fields.push(f);
            fields.push(v);
            proof {
                assert(fields@.map_values(|x: ListpackValueRef<'a>| x@) =~= before.push(f@).push(v@));
                assert(es.subrange(start as int, p + 2) =~= es.subrange(start as int, p).push(es[p]).push(es[p + 1]));
            }
            j = j + 1;
        }
        if ms == target.ms && seq == target.seq {
            return Some(fields);
        }
        k = start + 2 * (num_fields as usize);
    }
}

// ---------------------------------------------------------------------------
// The stream

/// A listpack of consecutive entries and the ID of its last entry.
pub struct StreamNode {
    pub last_id: StreamID,
    pub lp: Listpack,
}

/// A stream: its entries packed into nodes, the nodes found through a radix
/// tree by the sixteen bytes of their first entry's ID, and those first IDs
/// kept in order.
pub struct Stream {
    tree: RadixTree<StreamNode>,
    index: Vec<StreamID>,
    pub last_id: Option<StreamID>,
}

/// The IDs of `s` rise strictly.
pub open spec fn ids_sorted(s: Seq<StreamID>) -> bool {
    forall|i: int, j: int| 0 <= i < j < s.len() ==> id_lt(#[trigger] s[i], #[trigger] s[j])
}

/// What `get` finds for `id` in a stream with nodes `nodes` and first IDs
/// `first`: in the node of the greatest first ID not past `id`, the pairs'
/// elements of the entry `id`.
pub open spec fn lookup_in(nodes: Map<Seq<u8>, StreamNode>, first: Seq<StreamID>, id: StreamID) -> Option<Seq<ListpackValue>> {
    match floor_id(first, id) {
        None => None,
        Some(b) => if nodes.contains_key(id_bytes(b)) {
            scan_entries(nodes[id_bytes(b)].lp@, 0, id)
        } else {
            None
        },
    }
}

/// The greatest ID of `s` that is not past `id`, for `s` in order.
pub open spec fn floor_id(s: Seq<StreamID>, id: StreamID) -> Option<StreamID>
    decreases s.len(),
{
    if s.len() == 0 {
        None
    } else if id_le(s.last(), id) {
        Some(s.last())
    } else {
        floor_id(s.drop_last(), id)
    }
}

/// An entry `id` can join `node`: the node's listpack is still small, `id`
/// comes after its last entry, within the same second.
pub open spec fn can_append_spec(node: StreamNode, id: StreamID) -> bool {
    &&& listpack_bytes(node.lp@).len() < 4096
    &&& id_lt(node.last_id, id)
    &&& id.ms >= node.last_id.ms
    &&& id.ms - node.last_id.ms < 1000
}

/// The node that an entry `id` joins, in a stream with nodes `nodes` and
/// first IDs `first`: that of the greatest first ID not past `id`, where
/// the entry can join it.
pub open spec fn target_node(
    nodes: Map<Seq<u8>, StreamNode>,
    first: Seq<StreamID>,
    id: StreamID,
) -> Option<Seq<u8>> {
    match floor_id(first, id) {
        Some(b) => if nodes.contains_key(id_bytes(b)) && can_append_spec(nodes[id_bytes(b)], id) {
            Some(id_bytes(b))
        } else {
            None
        },
        None => None,
    }
}

/// A stream whose last entry is `last` refuses an entry `id` that does not
/// come after it.
pub open spec fn refuses(last: Option<StreamID>, id: StreamID) -> bool {
    last matches Some(l) && !id_lt(l, id)
}

/// `s1` is the stream with nodes `nodes`, first IDs `first` and last entry
/// `last` after the entry `id`, stored as the elements `vals`, was added:
/// to the node it joins, or to a new node under its own ID.
pub open spec fn added(
    nodes: Map<Seq<u8>, StreamNode>,
    first: Seq<StreamID>,
    last: Option<StreamID>,
    s1: Stream,
    id: StreamID,
    vals: Seq<ListpackValue>,
) -> bool {
    &&& !refuses(last, id)
    &&& s1.last() == Some(id)
    &&& match target_node(nodes, first, id) {
        Some(k) => {
            &&& s1.first_ids() == first
            &&& s1.nodes().dom() =~= nodes.dom()
            &&& forall|k2: Seq<u8>| #[trigger] nodes.contains_key(k2) && k2 != k ==> s1.nodes()[k2] == nodes[k2]
            &&& s1.nodes()[k].last_id == id
            &&& s1.nodes()[k].lp@ == nodes[k].lp@ + vals
        },
        None => {
            &&& s1.first_ids() == first.push(id)
            &&& s1.nodes().dom() =~= nodes.dom().insert(id_bytes(id))
            &&& forall|k2: Seq<u8>| #[trigger] nodes.contains_key(k2) && k2 != id_bytes(id) ==> s1.nodes()[k2] == nodes[k2]
            &&& s1.nodes()[id_bytes(id)].last_id == id
            &&& s1.nodes()[id_bytes(id)].lp@ == vals
        },
    }
}

impl Stream {
    /// The tree and its listpacks are well formed; the first IDs rise and
    /// none comes after the last entry.
    pub closed spec fn wf(&self) -> bool {
        &&& self.tree.wf()
        &&& forall|k: Seq<u8>| #[trigger] self.tree@.contains_key(k) ==> self.tree@[k].lp.wf()
        &&& ids_sorted(self.index@)
        &&& match self.last_id {
            Some(l) => forall|i: int| 0 <= i < self.index@.len() ==> id_le(#[trigger] self.index@[i], l),
            None => self.index@.len() == 0,
        }
    }

    /// The nodes, by the bytes of their first entry's ID.
    pub closed spec fn nodes(&self) -> Map<Seq<u8>, StreamNode> {
        self.tree@
    }

    /// The ID of the last entry added.
    pub closed spec fn last(&self) -> Option<StreamID> {
        self.last_id
    }

    /// The first IDs of the nodes, in order.
    pub closed spec fn first_ids(&self) -> Seq<StreamID> {
        self.index@
    }

    /// The node that an entry `id` joins, if it joins one.
    pub open spec fn append_target(&self, id: StreamID) -> Option<Seq<u8>> {
        target_node(self.nodes(), self.first_ids(), id)
    }

    /// Adding `id` is refused: it does not come after the last entry.
    pub open spec fn add_refused(&self, id: StreamID) -> bool {
        refuses(self.last(), id)
    }

    /// Adding `id` would overflow the listpack that takes it.
    pub open spec fn add_overflows(&self, id: StreamID, vals: Seq<ListpackValue>) -> bool {
        !self.add_refused(id) && match self.append_target(id) {
            Some(k) => !fits(listpack_bytes(self.nodes()[k].lp@).len(), vals),
            None => !fits(7, vals),
        }
    }

    /// The ID of the last entry added, if any.
    pub fn last_entry(&self) -> (r: Option<StreamID>)
        ensures
            r == self.last(),
    {
        self.last_id
    }

    /// An empty stream.
    pub fn new() -> (r: Self)
        ensures
            r.wf(),
            r.nodes() == Map::<Seq<u8>, StreamNode>::empty(),
            r.first_ids() == Seq::<StreamID>::empty(),
            r.last() is None,
            r.readable(),
    {
        Stream { tree: RadixTree::new(), index: Vec::new(), last_id: None }
    }

    /// Adds the entry `id` with its field-value pairs: to the node of the
    /// greatest first ID not past `id` where it can join that node, else to
    /// a new node.
    pub fn add(&mut self, id: StreamID, fields: &[(&[u8], &[u8])]) -> (r: Result<(), Vec<u8>>)
        requires
            old(self).wf(),
            !old(self).add_overflows(id, entry_values(id, fields_view(fields@))),
        ensures
            final(self).wf(),
            match r {
                Err(e) => old(self).add_refused(id) && e@ == id_too_small_error() && *final(self)
                    == *old(self),
                Ok(()) => added(
                    old(self).nodes(),
                    old(self).first_ids(),
                    old(self).last(),
                    *final(self),
                    id,
                    entry_values(id, fields_view(fields@)),
                ),
            },
    {
        if let Some(last) = self.last_id {
            if !id_less(&last, &id) {
                return Err(id_too_small());
            }
        }
        let ghost vals = entry_values(id, fields_view(fields@));
        if let Some(prev_key) = self.get_floor_key(&id) {
            let key_bytes = prev_key.to_bytes();
            let ghost t0 = self.tree@;
            match self.tree.get(&key_bytes) {
                Some(node) => {
                    proof {
                        assert(t0.contains_key(key_bytes@));
                    }
                    if can_append(node, &id) {
                        append_entry(&mut node.lp, &id, fields);
                        node.last_id = id;
                        self.last_id = Some(id);
                        return Ok(());
                    }
                },
                None => {},
            }
        }
        let mut lp = Listpack::new();
        proof { lemma_listpack_len(Seq::<ListpackValue>::empty()); }
        append_entry(&mut lp, &id, fields);
        let node = StreamNode { last_id: id, lp };
        let key_bytes = id.to_bytes();
        self.tree.insert(&key_bytes, node);
        self.index.push(id);
        self.last_id = Some(id);
        Ok(())
    }

    /// Whether adding the entry `id` with its field-value pairs would
    /// overflow the listpack that takes it.
    pub fn add_would_overflow(&self, id: StreamID, fields: &[(&[u8], &[u8])]) -> (r: bool)
        requires
            self.wf(),
        ensures
            r == self.add_overflows(id, entry_values(id, fields_view(fields@))),
    {
        if let Some(last) = self.last_id {
            if !id_less(&last, &id) {
                return false;
            }
        }
        let mut total: u64 = 7;
        match self.get_floor_key(&id) {
            Some(prev) => {
                let key = prev.to_bytes();
                match self.tree.peek(&key) {
                    Some(node) => {
                        if can_append(node, &id) {
                            proof {
                                node.lp.lemma_wf_bytes();
                            }
                            total = node.lp.total_bytes() as u64;
                        }
                    },
                    None => {},
                }
            },
            None => {},
        }
        !entry_fits(total, id, fields)
    }

    /// What `get` finds for `id`: in the node of the greatest first ID not
    /// past `id`, the pairs' elements of the entry `id`.
    pub open spec fn lookup(&self, id: StreamID) -> Option<Seq<ListpackValue>> {
        lookup_in(self.nodes(), self.first_ids(), id)
    }

    /// The fields and values of the entry `id`, each field followed by its
    /// value.
    pub fn get(&mut self, id: StreamID) -> (r: Option<Vec<ListpackValueRef<'_>>>)
        requires
            old(self).wf(),
        ensures
            *final(self) == *old(self),
            match r {
                Some(v) => old(self).lookup(id) == Some(v@.map_values(|x: ListpackValueRef<'_>| x@)),
                None => old(self).lookup(id) is None,
            },
    {
        let base_id = match self.get_floor_key(&id) {
            Some(b) => b,
            None => return None,
        };
        let key = base_id.to_bytes();
        let node = match self.tree.peek(&key) {
            Some(n) => n,
            None => return None,
        };
        find_entry_in_listpack(&node.lp, &id)
    }

    fn get_floor_key(&self, id: &StreamID) -> (r: Option<StreamID>)
        requires
            ids_sorted(self.index@),
        ensures
            r == floor_id(self.index@, *id),
    {
        let mut lo: usize = 0;
        let mut hi: usize = self.index.len();
        while lo < hi
            invariant
                ids_sorted(self.index@),
                lo <= hi <= self.index@.len(),
                forall|j: int| 0 <= j < lo ==> id_le(#[trigger] self.index@[j], *id),
                forall|j: int| hi <= j < self.index@.len() ==> !id_le(#[trigger] self.index@[j], *id),
            decreases hi - lo,
        {
            let mid = lo + (hi - lo) / 2;
            if id_le_exec(&self.index[mid], id) {
                assert forall|j: int| 0 <= j <= mid implies id_le(#[trigger] self.index@[j], *id) by {
                    if j < mid {
                        assert(id_lt(self.index@[j], self.index@[mid as int]));
                    }
                }
                lo = mid + 1;
            } else {
                assert forall|j: int| mid <= j < self.index@.len() implies !id_le(#[trigger] self.index@[j], *id) by {
                    if j > mid {
                        assert(id_lt(self.index@[mid as int], self.index@[j]));
                    }
                }
                hi = mid;
            }
        }
        proof { lemma_floor_split(self.index@, *id, lo as int); }
        if lo == 0 {
            None
        } else {
            Some(self.index[lo - 1])
        }
    }
}

proof fn lemma_floor_split(s: Seq<StreamID>, id: StreamID, lo: int)
    requires
        0 <= lo <= s.len(),
        forall|j: int| 0 <= j < lo ==> id_le(#[trigger] s[j], id),
        forall|j: int| lo <= j < s.len() ==> !id_le(#[trigger] s[j], id),
    ensures
        floor_id(s, id) == if lo == 0 { None } else { Some(s[lo - 1]) },
    decreases s.len(),
{
    if s.len() > 0 {
        if lo == s.len() {
            assert(id_le(s[lo - 1], id));
        } else {
            assert(!id_le(s.last(), id));
            lemma_floor_split(s.drop_last(), id, lo);
        }
    }
}

fn id_less(a: &StreamID, b: &StreamID) -> (r: bool)
    ensures
        r == id_lt(*a, *b),
{
    a.ms < b.ms || (a.ms == b.ms && a.seq < b.seq)
}

fn id_le_exec(a: &StreamID, b: &StreamID) -> (r: bool)
    ensures
        r == id_le(*a, *b),
{
    a.ms < b.ms || (a.ms == b.ms && a.seq <= b.seq)
}

fn can_append(node: &StreamNode, id: &StreamID) -> (r: bool)
    requires
        node.lp.wf(),
    ensures
        r == can_append_spec(*node, *id),
{
    let size_ok = node.lp.total_bytes() < 4096;
    let strictly_increasing = id_less(&node.last_id, id);
    let id_close = id.ms >= node.last_id.ms && id.ms - node.last_id.ms < 1000;
    size_ok && strictly_increasing && id_close
}

/// The IDs of a stream rise: an added entry becomes the last, and comes
/// after the entry that was last before.
pub proof fn lemma_added_id_rises(
    nodes: Map<Seq<u8>, StreamNode>,
    first: Seq<StreamID>,
    last: Option<StreamID>,
    s1: Stream,
    id: StreamID,
    vals: Seq<ListpackValue>,
)
    requires
        added(nodes, first, last, s1, id, vals),
    ensures
        s1.last() == Some(id),
        last matches Some(l) ==> id_lt(l, id),
{
}

/// An ID whose sequence number is left to the stream, `<ms>-*`, or an ID
/// left wholly to the clock, `*`, where the clock has not gone back, comes
/// after the last ID.
pub proof fn lemma_generated_id_rises(input: Seq<u8>, last: StreamID, now: u64, id: StreamID)
    requires
        spec_parse_id(input, last, now) == Ok::<StreamID, Seq<u8>>(id),
        !parse_id_overflows(input, last, now),
        input == star() ==> now >= last.ms,
        input != star() ==> (find_byte(input, 45, 0) matches Some(d) && input.skip(d + 1) == star()),
    ensures
        id_lt(last, id),
{
}

// ---------------------------------------------------------------------------
// Reading back what was added

/// The eight big-endian bytes of `v` do not spell an integer, so a listpack
/// keeps them as a string.
pub open spec fn stored_as_text(v: nat) -> bool {
    value_of(be_bytes(v, 8)) is Str
}

/// Both parts of `id` are kept as strings.
pub open spec fn id_as_text(id: StreamID) -> bool {
    stored_as_text(id.ms as nat) && stored_as_text(id.seq as nat)
}

/// The ID with parts `ms` and `seq` is not past `bound`.
pub open spec fn parts_le(ms: nat, seq: nat, bound: StreamID) -> bool {
    ms < bound.ms || (ms == bound.ms && seq <= bound.seq)
}

/// From element `i` to the end, `es` is a run of whole entries that `get`
/// reads, none with an ID past `bound`.
pub open spec fn readable_from(es: Seq<ListpackValue>, i: int, bound: StreamID) -> bool
    decreases es.len() - i,
{
    if i == es.len() {
        true
    } else if i < 0 || i + 2 >= es.len() {
        false
    } else {
        match es[i] {
            ListpackValue::Int(_) => false,
            ListpackValue::Str(ms_b) => match es[i + 1] {
                ListpackValue::Int(_) => false,
                ListpackValue::Str(seq_b) => match pair_count(es[i + 2]) {
                    None => false,
                    Some(nf) => if ms_b.len() != 8 || seq_b.len() != 8 || i + 3 + 2 * nf > es.len() {
                        false
                    } else {
                        parts_le(be_value(ms_b), be_value(seq_b), bound)
                            && readable_from(es, i + 3 + 2 * nf, bound)
                    },
                },
            },
        }
    }
}

/// Every node of `nodes` holds a run of readable entries, none after `last`;
/// without a last entry there is no node.
pub open spec fn readable_nodes(nodes: Map<Seq<u8>, StreamNode>, last: Option<StreamID>) -> bool {
    match last {
        None => forall|k: Seq<u8>| !(#[trigger] nodes.contains_key(k)),
        Some(l) => forall|k: Seq<u8>| #[trigger] nodes.contains_key(k) ==> readable_from(nodes[k].lp@, 0, l),
    }
}

impl Stream {
    /// Every entry of the stream can be read back.
    pub open spec fn readable(&self) -> bool {
        readable_nodes(self.nodes(), self.last())
    }
}

/// The first of the `k + 1` big-endian bytes of a number below `256` to the
/// power `k` is zero.
proof fn lemma_first_byte_zero(v: nat, k: nat)
    requires
        v < pow256(k),
    ensures
        be_bytes(v, k + 1)[0] == 0,
    decreases k,
{
    if k == 0 {
        assert(be_bytes(v, 1) =~= be_bytes(0, 0).push(0u8));
    } else {
        assert(v / 256 < pow256((k - 1) as nat));
        lemma_first_byte_zero(v / 256, (k - 1) as nat);
        lemma_be_bytes_len(v / 256, k);
    }
}

/// A count of pairs that a listpack can hold is kept as a string and read
/// back as itself.
proof fn lemma_count_as_text(n: nat)
    requires
        n <= u32::MAX,
    ensures
        stored_as_text(n),
        pair_count(value_of(be_bytes(n, 8))) == Some(n),
{
    lemma_pow256_values();
    lemma_pow256_mono(4, 7);
    lemma_first_byte_zero(n, 7);
    lemma_be_roundtrip(n, 8);
    let s = be_bytes(n, 8);
    assert(s != seq![48u8]);
    assert(strict_i64(s) is None);
}

/// The walk from element `i` passes over a run of readable entries, none
/// after `bound`, looking for an ID after `bound`.
proof fn lemma_scan_skips(es: Seq<ListpackValue>, i: int, bound: StreamID, tail: Seq<ListpackValue>, target: StreamID)
    requires
        readable_from(es, i, bound),
        0 <= i <= es.len(),
        id_lt(bound, target),
    ensures
        scan_entries(es + tail, i, target) == scan_entries(es + tail, es.len() as int, target),
    decreases es.len() - i,
{
    if i < es.len() {
        let e2 = es + tail;
        let ms_b = es[i]->Str_0;
        let seq_b = es[i + 1]->Str_0;
        let nf = pair_count(es[i + 2])->Some_0;
        assert(e2[i] == es[i] && e2[i + 1] == es[i + 1] && e2[i + 2] == es[i + 2]);
        lemma_scan_step(e2, i, target, ms_b, seq_b, nf);
        lemma_scan_skips(es, i + 3 + 2 * nf, bound, tail, target);
    }
}

/// The walk finds an entry whose ID parts are kept as strings where it
/// starts.
proof fn lemma_scan_finds(es: Seq<ListpackValue>, id: StreamID, fields: Seq<(Seq<u8>, Seq<u8>)>)
    requires
        id_as_text(id),
        fields.len() <= u32::MAX,
    ensures
        scan_entries(es + entry_values(id, fields), es.len() as int, id) == Some(pair_values(fields)),
{
    lemma_pow256_values();
    lemma_be_roundtrip(id.ms as nat, 8);
    lemma_be_roundtrip(id.seq as nat, 8);
    lemma_count_as_text(fields.len());
    lemma_pair_values_len(fields);
    let vals = entry_values(id, fields);
    let e2 = es + vals;
    let n = es.len() as int;
    assert(e2[n] == vals[0] && e2[n + 1] == vals[1] && e2[n + 2] == vals[2]);
    lemma_scan_step(e2, n, id, be_bytes(id.ms as nat, 8), be_bytes(id.seq as nat, 8), fields.len());
    assert(e2.subrange(n + 3, n + 3 + 2 * fields.len()) =~= pair_values(fields));
}

/// Appending an entry whose ID parts are kept as strings, not before
/// `bound`, to a run of readable entries not past `bound` leaves a run of
/// readable entries not past the new ID.
proof fn lemma_readable_extend(
    es: Seq<ListpackValue>,
    i: int,
    bound: StreamID,
    id: StreamID,
    fields: Seq<(Seq<u8>, Seq<u8>)>,
)
    requires
        readable_from(es, i, bound),
        0 <= i <= es.len(),
        id_le(bound, id),
        id_as_text(id),
        fields.len() <= u32::MAX,
    ensures
        readable_from(es + entry_values(id, fields), i, id),
    decreases es.len() - i,
{
    let vals = entry_values(id, fields);
    let e2 = es + vals;
    lemma_pair_values_len(fields);
    if i == es.len() {
        lemma_pow256_values();
        lemma_be_roundtrip(id.ms as nat, 8);
        lemma_be_roundtrip(id.seq as nat, 8);
        lemma_count_as_text(fields.len());
        let n = es.len() as int;
        assert(e2[n] == vals[0] && e2[n + 1] == vals[1] && e2[n + 2] == vals[2]);
        assert(readable_from(e2, e2.len() as int, id));
    } else {
        let nf = pair_count(es[i + 2])->Some_0;
        assert(e2[i] == es[i] && e2[i + 1] == es[i + 1] && e2[i + 2] == es[i + 2]);
        lemma_readable_extend(es, i + 3 + 2 * nf, bound, id, fields);
    }
}

/// A run of readable entries not past `b1` is not past a later `b2`.
proof fn lemma_readable_mono(es: Seq<ListpackValue>, i: int, b1: StreamID, b2: StreamID)
    requires
        readable_from(es, i, b1),
        id_le(b1, b2),
    ensures
        readable_from(es, i, b2),
    decreases es.len() - i,
{
    if i != es.len() && 0 <= i && i + 2 < es.len() {
        let nf = pair_count(es[i + 2])->Some_0;
        lemma_readable_mono(es, i + 3 + 2 * nf, b1, b2);
    }
}

/// Adding an entry whose ID parts are kept as strings keeps every entry of
/// a readable stream readable.
pub proof fn lemma_add_keeps_readable(
    nodes: Map<Seq<u8>, StreamNode>,
    first: Seq<StreamID>,
    last: Option<StreamID>,
    s1: Stream,
    id: StreamID,
    fields: Seq<(Seq<u8>, Seq<u8>)>,
)
    requires
        readable_nodes(nodes, last),
        added(nodes, first, last, s1, id, entry_values(id, fields)),
        id_as_text(id),
        fields.len() <= u32::MAX,
    ensures
        s1.readable(),
{
    let empty = Seq::<ListpackValue>::empty();
    assert forall|k: Seq<u8>| #[trigger] s1.nodes().contains_key(k) implies readable_from(s1.nodes()[k].lp@, 0, id) by {
        match target_node(nodes, first, id) {
            Some(t) => {
                let l = last->Some_0;
                assert(nodes.contains_key(t));
                if k == t {
                    lemma_readable_extend(nodes[t].lp@, 0, l, id, fields);
                } else {
                    assert(nodes.contains_key(k));
                    lemma_readable_mono(nodes[k].lp@, 0, l, id);
                }
            },
            None => {
                if k == id_bytes(id) {
                    assert(readable_from(empty, 0, id));
                    lemma_readable_extend(empty, 0, id, id, fields);
                    assert(empty + entry_values(id, fields) =~= entry_values(id, fields));
                } else {
                    assert(nodes.contains_key(k));
                    let l = last->Some_0;
                    lemma_readable_mono(nodes[k].lp@, 0, l, id);
                }
            },
        }
    }
}

/// A read gives back what was written: once the entry `id` is added to a
/// readable stream, with its ID parts kept as strings, looking `id` up finds
/// its fields and values, each as the listpack keeps it.
pub proof fn lemma_get_after_add(
    nodes: Map<Seq<u8>, StreamNode>,
    first: Seq<StreamID>,
    last: Option<StreamID>,
    s1: Stream,
    id: StreamID,
    fields: Seq<(Seq<u8>, Seq<u8>)>,
)
    requires
        readable_nodes(nodes, last),
        added(nodes, first, last, s1, id, entry_values(id, fields)),
        id_as_text(id),
        fields.len() <= u32::MAX,
    ensures
        s1.lookup(id) == Some(pair_values(fields)),
{
    let vals = entry_values(id, fields);
    match target_node(nodes, first, id) {
        Some(t) => {
            let l = last->Some_0;
            assert(nodes.contains_key(t));
            let old_lp = nodes[t].lp@;
            lemma_scan_skips(old_lp, 0, l, vals, id);
            lemma_scan_finds(old_lp, id, fields);
        },
        None => {
            let empty = Seq::<ListpackValue>::empty();
            assert(first.push(id).drop_last() =~= first);
            assert(floor_id(first.push(id), id) == Some(id));
            assert(s1.nodes().contains_key(id_bytes(id)));
            lemma_scan_finds(empty, id, fields);
            assert(empty + vals =~= vals);
        },
    }
}

/// Two IDs with the same sixteen bytes are the same ID.
proof fn lemma_id_bytes_injective(a: StreamID, b: StreamID)
    requires
        id_bytes(a) == id_bytes(b),
    ensures
        a == b,
{
    lemma_pow256_values();
    lemma_be_roundtrip(a.ms as nat, 8);
    lemma_be_roundtrip(a.seq as nat, 8);
    lemma_be_roundtrip(b.ms as nat, 8);
    lemma_be_roundtrip(b.seq as nat, 8);
    assert(id_bytes(a).subrange(0, 8) =~= be_bytes(a.ms as nat, 8));
    assert(id_bytes(b).subrange(0, 8) =~= be_bytes(b.ms as nat, 8));
    assert(id_bytes(a).subrange(8, 16) =~= be_bytes(a.seq as nat, 8));
    assert(id_bytes(b).subrange(8, 16) =~= be_bytes(b.seq as nat, 8));
}

/// The walk over a run of readable entries followed by more elements finds
/// what it finds in the run, and where it finds nothing there, what it finds
/// after the run.
proof fn lemma_scan_prefix(es: Seq<ListpackValue>, i: int, bound: StreamID, tail: Seq<ListpackValue>, target: StreamID)
    requires
        readable_from(es, i, bound),
        0 <= i <= es.len(),
    ensures
        scan_entries(es + tail, i, target) == match scan_entries(es, i, target) {
            Some(r) => Some(r),
            None => scan_entries(es + tail, es.len() as int, target),
        },
    decreases es.len() - i,
{
    if i == es.len() {
        lemma_scan_fail(es, i, target);
    } else {
        let e2 = es + tail;
        let ms_b = es[i]->Str_0;
        let seq_b = es[i + 1]->Str_0;
        let nf = pair_count(es[i + 2])->Some_0;
        assert(e2[i] == es[i] && e2[i + 1] == es[i + 1] && e2[i + 2] == es[i + 2]);
        lemma_scan_step(e2, i, target, ms_b, seq_b, nf);
        lemma_scan_step(es, i, target, ms_b, seq_b, nf);
        assert(e2.subrange(i + 3, i + 3 + 2 * nf) =~= es.subrange(i + 3, i + 3 + 2 * nf));
        lemma_scan_prefix(es, i + 3 + 2 * nf, bound, tail, target);
    }
}

/// The walk from where an entry whose ID parts are kept as strings was
/// appended finds nothing for another ID.
proof fn lemma_scan_misses(es: Seq<ListpackValue>, id: StreamID, fields: Seq<(Seq<u8>, Seq<u8>)>, target: StreamID)
    requires
        id_as_text(id),
        fields.len() <= u32::MAX,
        target != id,
    ensures
        scan_entries(es + entry_values(id, fields), es.len() as int, target) is None,
{
    lemma_pow256_values();
    lemma_be_roundtrip(id.ms as nat, 8);
    lemma_be_roundtrip(id.seq as nat, 8);
    lemma_count_as_text(fields.len());
    lemma_pair_values_len(fields);
    let vals = entry_values(id, fields);
    let e2 = es + vals;
    let n = es.len() as int;
    assert(e2[n] == vals[0] && e2[n + 1] == vals[1] && e2[n + 2] == vals[2]);
    lemma_scan_step(e2, n, target, be_bytes(id.ms as nat, 8), be_bytes(id.seq as nat, 8), fields.len());
    lemma_scan_fail(e2, e2.len() as int, target);
}

/// Adding an entry leaves what the entries added before it read: once the
/// entry `id` is added to a readable stream, with its ID parts kept as
/// strings, looking up any earlier ID finds what it found before.
pub proof fn lemma_add_keeps_earlier_entries(
    nodes: Map<Seq<u8>, StreamNode>,
    first: Seq<StreamID>,
    last: Option<StreamID>,
    s1: Stream,
    id: StreamID,
    fields: Seq<(Seq<u8>, Seq<u8>)>,
    x: StreamID,
)
    requires
        readable_nodes(nodes, last),
        added(nodes, first, last, s1, id, entry_values(id, fields)),
        id_as_text(id),
        fields.len() <= u32::MAX,
        id_lt(x, id),
    ensures
        s1.lookup(x) == lookup_in(nodes, first, x),
{
    let vals = entry_values(id, fields);
    match target_node(nodes, first, id) {
        Some(t) => {
            let l = last->Some_0;
            assert(nodes.contains_key(t));
            if let Some(b) = floor_id(first, x) {
                let kb = id_bytes(b);
                if kb == t {
                    let lp = nodes[t].lp@;
                    lemma_scan_prefix(lp, 0, l, vals, x);
                    if scan_entries(lp, 0, x) is None {
                        lemma_scan_misses(lp, id, fields, x);
                    }
                } else if nodes.contains_key(kb) {
                    assert(s1.nodes()[kb] == nodes[kb]);
                }
            }
        },
        None => {
            assert(first.push(id).drop_last() =~= first);
            assert(!id_le(id, x));
            assert(floor_id(first.push(id), x) == floor_id(first, x));
            if let Some(b) = floor_id(first, x) {
                let kb = id_bytes(b);
                lemma_floor_le(first, x);
                if kb == id_bytes(id) {
                    lemma_id_bytes_injective(b, id);
                }
                if nodes.contains_key(kb) {
                    assert(s1.nodes()[kb] == nodes[kb]);
                }
            }
        },
    }
}

/// The floor of `id` is not past `id`.
proof fn lemma_floor_le(s: Seq<StreamID>, id: StreamID)
    ensures
        floor_id(s, id) matches Some(b) ==> id_le(b, id),
    decreases s.len(),
{
    if s.len() > 0 && !id_le(s.last(), id) {
        lemma_floor_le(s.drop_last(), id);
    }
}

/// The sixteen bytes of IDs, as `to_bytes` writes them, sort in byte order
/// as the IDs do, and two IDs have the same bytes only where they are the
/// same.
pub proof fn lemma_id_bytes_order(a: StreamID, b: StreamID)
    ensures
        bytes_lt(id_bytes(a), id_bytes(b)) == id_lt(a, b),
        (id_bytes(a) == id_bytes(b)) == (a == b),
{
    lemma_pow256_values();
    lemma_be_bytes_order(a.ms as nat, b.ms as nat, 8);
    lemma_be_bytes_order(a.seq as nat, b.seq as nat, 8);
    lemma_be_bytes_len(a.ms as nat, 8);
    lemma_be_bytes_len(b.ms as nat, 8);
    lemma_bytes_lt_concat(
        be_bytes(a.ms as nat, 8),
        be_bytes(a.seq as nat, 8),
        be_bytes(b.ms as nat, 8),
        be_bytes(b.seq as nat, 8),
    );
    if id_bytes(a) == id_bytes(b) {
        lemma_id_bytes_injective(a, b);
    }
}

} // verus!
