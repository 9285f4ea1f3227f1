//! Little-endian byte strings of numbers.
use vstd::prelude::*;

verus! {

/// `256` to the power `n`.
pub open spec fn pow256(n: nat) -> nat
    decreases n,
{
    if n == 0 {
        1
    } else {
        256 * pow256((n - 1) as nat)
    }
}

/// The `n` little-endian bytes of `v`, lowest first.
pub open spec fn le_bytes(v: nat, n: nat) -> Seq<u8>
    decreases n,
{
    if n == 0 {
        Seq::empty()
    } else {
        seq![(v % 256) as u8] + le_bytes(v / 256, (n - 1) as nat)
    }
}

/// The number that little-endian bytes `s` stand for.
pub open spec fn le_value(s: Seq<u8>) -> nat
    decreases s.len(),
{
    if s.len() == 0 {
        0
    } else {
        s[0] as nat + 256 * le_value(s.drop_first())
    }
}

/// Reading back the little-endian bytes of a number that fits gives the
/// number.
pub proof fn lemma_le_roundtrip(v: nat, n: nat)
    requires
        v < pow256(n),
    ensures
        le_value(le_bytes(v, n)) == v,
        le_bytes(v, n).len() == n,
    decreases n,
{
    if n > 0 {
        lemma_le_roundtrip(v / 256, (n - 1) as nat);
        assert(le_bytes(v, n).drop_first() =~= le_bytes(v / 256, (n - 1) as nat));
    }
}

/// `le_bytes(v, n)` has `n` bytes.
pub proof fn lemma_le_bytes_len(v: nat, n: nat)
    ensures
        le_bytes(v, n).len() == n,
    decreases n,
{
    if n > 0 {
        lemma_le_bytes_len(v / 256, (n - 1) as nat);
    }
}

/// The value of `n` bytes is below `256` to the power `n`.
pub proof fn lemma_le_value_bound(s: Seq<u8>)
    ensures
        le_value(s) < pow256(s.len()),
    decreases s.len(),
{
    if s.len() > 0 {
        lemma_le_value_bound(s.drop_first());
    }
}

/// The powers of 256 that the encodings use.
pub proof fn lemma_pow256_values()
    ensures
        pow256(1) == 256,
        pow256(2) == 65536,
        pow256(3) == 16777216,
        pow256(4) == 4294967296,
        pow256(8) == 18446744073709551616,
{
    reveal_with_fuel(pow256, 9);
}

/// Appends the bytes of `s`.
pub fn extend_bytes(out: &mut Vec<u8>, s: &[u8])
    ensures
        final(out)@ == old(out)@ + s@,
{
    let mut i: usize = 0;
    while i < s.len()
        invariant
            i <= s@.len(),
            out@ == old(out)@ + s@.take(i as int),
        decreases s@.len() - i,
    {
        out.push(s[i]);
        assert(s@.take(i + 1) =~= s@.take(i as int).push(s@[i as int]));
        i = i + 1;
    }
    assert(s@.take(s@.len() as int) =~= s@);
}

/// A new vector holding the bytes of `s`.
pub fn copy_bytes(s: &[u8]) -> (r: Vec<u8>)
    ensures
        r@ == s@,
{
    let mut out: Vec<u8> = Vec::new();
    extend_bytes(&mut out, s);
    assert(out@ =~= s@);
    out
}

/// Appends the `n` little-endian bytes of `v`.
pub fn push_le(out: &mut Vec<u8>, v: u64, n: usize)
    requires
        n <= 8,
        v < pow256(n as nat),
    ensures
        final(out)@ == old(out)@ + le_bytes(v as nat, n as nat),
{
    let mut x = v;
    let mut i: usize = 0;
    while i < n
        invariant
            i <= n,
            out@ + le_bytes(x as nat, (n - i) as nat) == old(out)@ + le_bytes(v as nat, n as nat),
        decreases n - i,
    {
        let ghost before = out@;
        out.push((x % 256) as u8);
        proof {
            assert(le_bytes(x as nat, (n - i) as nat) =~= seq![(x % 256) as u8] + le_bytes(
                (x / 256) as nat,
                (n - i - 1) as nat,
            ));
            assert(before + le_bytes(x as nat, (n - i) as nat) =~= out@ + le_bytes(
                (x / 256) as nat,
                (n - i - 1) as nat,
            ));
        }
        x = x / 256;
        i = i + 1;
    }
    assert(out@ + le_bytes(x as nat, 0) =~= out@);
}

/// The value of the `n` little-endian bytes of `s` that begin at `start`.
pub fn read_le(s: &[u8], start: usize, n: usize) -> (r: u64)
    requires
        n <= 8,
        start + n <= s@.len(),
    ensures
        r == le_value(s@.subrange(start as int, start + n)),
{
    let mut val: u64 = 0;
    let mut k: usize = n;
    let len = s.len();
    proof {
        lemma_pow256_values();
    }
    while k > 0
        invariant
            k <= n <= 8,
            start + n <= s@.len(),
            len == s@.len(),
            val == le_value(s@.subrange(start + k, start + n)),
            pow256(8) == 18446744073709551616,
        decreases k,
    {
        proof {
            lemma_le_value_bound(s@.subrange(start + k - 1, start + n));
            lemma_pow256_mono((n - k + 1) as nat, 8);
            assert(s@.subrange(start + k - 1, start + n).drop_first() =~= s@.subrange(start + k, start + n));
        }
        val = val * 256 + s[start + k - 1] as u64;
        k = k - 1;
    }
    val
}

/// Powers of 256 grow with the exponent.
pub proof fn lemma_pow256_mono(a: nat, b: nat)
    requires
        a <= b,
    ensures
        pow256(a) <= pow256(b),
    decreases b,
{
    if a < b {
        lemma_pow256_mono(a, (b - 1) as nat);
    }
}

/// The `n` big-endian bytes of `v`, highest first.
pub open spec fn be_bytes(v: nat, n: nat) -> Seq<u8>
    decreases n,
{
    if n == 0 {
        Seq::empty()
    } else {
        be_bytes(v / 256, (n - 1) as nat).push((v % 256) as u8)
    }
}

/// The number that big-endian bytes `s` stand for.
pub open spec fn be_value(s: Seq<u8>) -> nat
    decreases s.len(),
{
    if s.len() == 0 {
        0
    } else {
        be_value(s.drop_last()) * 256 + s.last() as nat
    }
}

/// Reading back the big-endian bytes of a number that fits gives the
/// number.
pub proof fn lemma_be_roundtrip(v: nat, n: nat)
    requires
        v < pow256(n),
    ensures
        be_value(be_bytes(v, n)) == v,
        be_bytes(v, n).len() == n,
    decreases n,
{
    if n > 0 {
        lemma_be_roundtrip(v / 256, (n - 1) as nat);
        assert(be_bytes(v, n).drop_last() =~= be_bytes(v / 256, (n - 1) as nat));
    }
}

/// `be_bytes(v, n)` has `n` bytes.
pub proof fn lemma_be_bytes_len(v: nat, n: nat)
    ensures
        be_bytes(v, n).len() == n,
    decreases n,
{
    if n > 0 {
        lemma_be_bytes_len(v / 256, (n - 1) as nat);
    }
}

/// The big-endian value of `n` bytes is below `256` to the power `n`.
pub proof fn lemma_be_value_bound(s: Seq<u8>)
    ensures
        be_value(s) < pow256(s.len()),
    decreases s.len(),
{
    if s.len() > 0 {
        lemma_be_value_bound(s.drop_last());
    }
}

/// The eight big-endian bytes of `v`.
pub fn be8(v: u64) -> (r: Vec<u8>)
    ensures
        r@ == be_bytes(v as nat, 8),
{
    let mut out: Vec<u8> = vec![0u8; 8];
    let mut x = v;
    let mut i: usize = 8;
    proof { lemma_be_bytes_len(v as nat, 8); }
    while i > 0
        invariant
            i <= 8,
            out@.len() == 8,
            be_bytes(v as nat, 8) == be_bytes(x as nat, i as nat) + out@.subrange(i as int, 8),
        decreases i,
    {
        let ghost before = out@;
        out.set(i - 1, (x % 256) as u8);
        proof {
            lemma_be_bytes_len((x / 256) as nat, (i - 1) as nat);
            assert(out@.subrange(i - 1, 8) =~= seq![(x % 256) as u8] + before.subrange(i as int, 8));
            assert(be_bytes(x as nat, i as nat) + before.subrange(i as int, 8) =~= be_bytes(
                (x / 256) as nat,
                (i - 1) as nat,
            ) + out@.subrange(i - 1, 8));
        }
        x = x / 256;
        i = i - 1;
    }
    assert(out@.subrange(0, 8) =~= out@);
    assert(be_bytes(x as nat, 0) =~= Seq::<u8>::empty());
    assert(be_bytes(v as nat, 8) =~= out@);
    out
}

/// The number that the big-endian bytes of `s` stand for.
pub fn read_be(s: &[u8]) -> (r: u64)
    requires
        s@.len() <= 8,
    ensures
        r == be_value(s@),
{
    let mut val: u64 = 0;
    let mut i: usize = 0;
    proof { lemma_pow256_values(); }
    while i < s.len()
        invariant
            i <= s@.len() <= 8,
            val == be_value(s@.take(i as int)),
            pow256(8) == 18446744073709551616,
        decreases s@.len() - i,
    {
        proof {
            lemma_be_value_bound(s@.take(i + 1));
            lemma_pow256_mono((i + 1) as nat, 8);
            assert(s@.take(i + 1).drop_last() =~= s@.take(i as int));
        }
        val = val * 256 + s[i] as u64;
        i = i + 1;
    }
    assert(s@.take(s@.len() as int) =~= s@);
    val
}

/// `a` comes before `b` in byte order: at the first byte where they differ,
/// or by being a prefix of `b`.
pub open spec fn bytes_lt(a: Seq<u8>, b: Seq<u8>) -> bool
    decreases a.len(),
{
    if a.len() == 0 {
        b.len() > 0
    } else if b.len() == 0 {
        false
    } else if a[0] != b[0] {
        a[0] < b[0]
    } else {
        bytes_lt(a.drop_first(), b.drop_first())
    }
}

/// Byte order is transitive.
pub proof fn lemma_bytes_lt_transitive(a: Seq<u8>, b: Seq<u8>, c: Seq<u8>)
    requires
        bytes_lt(a, b),
        bytes_lt(b, c),
    ensures
        bytes_lt(a, c),
    decreases a.len(),
{
    if a.len() > 0 && b.len() > 0 && c.len() > 0 && a[0] == b[0] && b[0] == c[0] {
        lemma_bytes_lt_transitive(a.drop_first(), b.drop_first(), c.drop_first());
    }
}

/// Of two byte strings, exactly one comes first, or they are equal.
pub proof fn lemma_bytes_lt_total(a: Seq<u8>, b: Seq<u8>)
    ensures
        bytes_lt(a, b) || a == b || bytes_lt(b, a),
        !(bytes_lt(a, b) && bytes_lt(b, a)),
        !(bytes_lt(a, b) && a == b),
    decreases a.len(),
{
    if a.len() == 0 {
        if b.len() == 0 {
            assert(a =~= b);
        }
    } else if b.len() > 0 && a[0] == b[0] {
        lemma_bytes_lt_total(a.drop_first(), b.drop_first());
        if a.drop_first() == b.drop_first() {
            assert(a =~= b) by {
                assert forall|i: int| 0 <= i < a.len() implies a[i] == b[i] by {
                    if i > 0 {
                        assert(a[i] == a.drop_first()[i - 1]);
                        assert(b[i] == b.drop_first()[i - 1]);
                    }
                }
            }
        }
    }
}

/// Appending one byte to each of two byte strings of the same length:
/// the first comes before the second where it did already, or where they
/// were equal and its new byte is smaller.
proof fn lemma_bytes_lt_push(s: Seq<u8>, t: Seq<u8>, x: u8, y: u8)
    requires
        s.len() == t.len(),
    ensures
        bytes_lt(s.push(x), t.push(y)) == (bytes_lt(s, t) || (s == t && x < y)),
    decreases s.len(),
{
    assert(s.push(x)[0] == if s.len() == 0 { x } else { s[0] });
    assert(t.push(y)[0] == if t.len() == 0 { y } else { t[0] });
    if s.len() == 0 {
        assert(s.push(x).drop_first() =~= Seq::<u8>::empty());
        assert(t.push(y).drop_first() =~= Seq::<u8>::empty());
        assert(!bytes_lt(Seq::<u8>::empty(), Seq::<u8>::empty()));
        assert(s =~= t);
    } else {
        assert(s.push(x).drop_first() =~= s.drop_first().push(x));
        assert(t.push(y).drop_first() =~= t.drop_first().push(y));
        lemma_bytes_lt_push(s.drop_first(), t.drop_first(), x, y);
        if s[0] == t[0] && s.drop_first() == t.drop_first() {
            assert(s =~= t) by {
                assert forall|i: int| 0 <= i < s.len() implies s[i] == t[i] by {
                    if i > 0 {
                        assert(s[i] == s.drop_first()[i - 1]);
                        assert(t[i] == t.drop_first()[i - 1]);
                    }
                }
            }
        }
        if s == t {
            assert(s.drop_first() == t.drop_first());
        }
    }
}

/// Two byte strings made of parts of the same lengths compare by their
/// first parts, and, where those are equal, by their second parts.
pub proof fn lemma_bytes_lt_concat(a1: Seq<u8>, a2: Seq<u8>, b1: Seq<u8>, b2: Seq<u8>)
    requires
        a1.len() == b1.len(),
    ensures
        bytes_lt(a1 + a2, b1 + b2) == (bytes_lt(a1, b1) || (a1 == b1 && bytes_lt(a2, b2))),
    decreases a1.len(),
{
    if a1.len() == 0 {
        assert(a1 + a2 =~= a2);
        assert(b1 + b2 =~= b2);
        assert(a1 =~= b1);
    } else {
        assert((a1 + a2).drop_first() =~= a1.drop_first() + a2);
        assert((b1 + b2).drop_first() =~= b1.drop_first() + b2);
        assert((a1 + a2)[0] == a1[0] && (b1 + b2)[0] == b1[0]);
        lemma_bytes_lt_concat(a1.drop_first(), a2, b1.drop_first(), b2);
        if a1[0] == b1[0] && a1.drop_first() == b1.drop_first() {
            assert(a1 =~= b1) by {
                assert forall|i: int| 0 <= i < a1.len() implies a1[i] == b1[i] by {
                    if i > 0 {
                        assert(a1[i] == a1.drop_first()[i - 1]);
                        assert(b1[i] == b1.drop_first()[i - 1]);
                    }
                }
            }
        }
        if a1 == b1 {
            assert(a1.drop_first() == b1.drop_first());
        }
    }
}

/// Big-endian bytes of the same width sort as the numbers do.
pub proof fn lemma_be_bytes_order(v: nat, w: nat, n: nat)
    requires
        v < pow256(n),
        w < pow256(n),
    ensures
        bytes_lt(be_bytes(v, n), be_bytes(w, n)) == (v < w),
        (be_bytes(v, n) == be_bytes(w, n)) == (v == w),
    decreases n,
{
    lemma_be_roundtrip(v, n);
    lemma_be_roundtrip(w, n);
    if n == 0 {
        assert(be_bytes(v, n) =~= be_bytes(w, n));
    } else {
        let m = (n - 1) as nat;
        assert(v / 256 < pow256(m));
        assert(w / 256 < pow256(m));
        lemma_be_bytes_order(v / 256, w / 256, m);
        lemma_be_bytes_len(v / 256, m);
        lemma_be_bytes_len(w / 256, m);
        lemma_bytes_lt_push(be_bytes(v / 256, m), be_bytes(w / 256, m), (v % 256) as u8, (w % 256) as u8);
    }
}

/// Writing back the number that little-endian bytes stand for gives the
/// bytes.
pub proof fn lemma_le_bytes_of_value(x: Seq<u8>)
    ensures
        le_bytes(le_value(x), x.len()) == x,
    decreases x.len(),
{
    if x.len() > 0 {
        let r = x.drop_first();
        lemma_le_bytes_of_value(r);
        let v = le_value(x);
        assert(v == x[0] as nat + 256 * le_value(r));
        assert(v % 256 == x[0] as nat && v / 256 == le_value(r)) by (nonlinear_arith)
            requires
                v == x[0] as nat + 256 * le_value(r),
                x[0] < 256,
        ;
        assert(le_bytes(v, x.len()) =~= seq![x[0]] + le_bytes(le_value(r), r.len()));
        assert(seq![x[0]] + r =~= x);
    }
}

} // verus!
