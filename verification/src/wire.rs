//! Integers as they stand on the wire: the value of a run of bytes, and the bytes of a value,
//! in both byte orders.
use vstd::prelude::*;

verus! {

/// The value of `s` read as a big-endian unsigned integer.
pub open spec fn be_value(s: Seq<u8>) -> nat
    decreases s.len(),
{
    if s.len() == 0 {
        0
    } else {
        be_value(s.drop_last()) * 256 + s.last() as nat
    }
}

/// The value of `s` read as a little-endian unsigned integer.
pub open spec fn le_value(s: Seq<u8>) -> nat
    decreases s.len(),
{
    if s.len() == 0 {
        0
    } else {
        s[0] as nat + 256 * le_value(s.drop_first())
    }
}

/// The low `n` bytes of `v`, most significant first.
pub open spec fn be_bytes(v: nat, n: nat) -> Seq<u8>
    decreases n,
{
    if n == 0 {
        Seq::empty()
    } else {
        be_bytes(v / 256, (n - 1) as nat).push((v % 256) as u8)
    }
}

/// The low `n` bytes of `v`, least significant first.
pub open spec fn le_bytes(v: nat, n: nat) -> Seq<u8>
    decreases n,
{
    if n == 0 {
        Seq::empty()
    } else {
        seq![(v % 256) as u8] + le_bytes(v / 256, (n - 1) as nat)
    }
}

/// 256 to the power of `n`: how many values fit in `n` bytes.
pub open spec fn pow256(n: nat) -> nat
    decreases n,
{
    if n == 0 {
        1
    } else {
        256 * pow256((n - 1) as nat)
    }
}

/// The unsigned value that shares its 64-bit two's complement pattern with `v`.
pub open spec fn i64_bits(v: i64) -> nat {
    if v >= 0 {
        v as nat
    } else {
        (v + 0x1_0000_0000_0000_0000) as nat
    }
}

/// The signed value whose 64-bit two's complement pattern is that of `v`.
pub open spec fn bits_i64(v: nat) -> i64 {
    if v < 0x8000_0000_0000_0000 {
        v as i64
    } else {
        (v - 0x1_0000_0000_0000_0000) as i64
    }
}

/// The big-endian value of the `n` bytes of `s` that start at `at`.
pub open spec fn be_at(s: Seq<u8>, at: int, n: int) -> nat {
    be_value(s.subrange(at, at + n))
}

/// The little-endian value of the `n` bytes of `s` that start at `at`.
pub open spec fn le_at(s: Seq<u8>, at: int, n: int) -> nat {
    le_value(s.subrange(at, at + n))
}

/// `t` is what is left of `s` once some bytes were taken off its front.
pub open spec fn is_tail(t: Seq<u8>, s: Seq<u8>) -> bool {
    t.len() <= s.len() && t =~= s.skip(s.len() - t.len())
}

/// What is left of a rest is a rest of the whole.
pub proof fn lemma_tail_trans(u: Seq<u8>, t: Seq<u8>, s: Seq<u8>)
    requires
        is_tail(u, t),
        is_tail(t, s),
    ensures
        is_tail(u, s),
{
    assert(t.skip(t.len() - u.len()) =~= s.skip(s.len() - u.len()));
}

/// What stands behind the first `a` bytes of `s`, read from there.
pub proof fn lemma_at_skip(s: Seq<u8>, a: int, b: int, n: int)
    requires
        0 <= a,
        0 <= b,
        0 <= n,
        a + b + n <= s.len(),
    ensures
        be_at(s.skip(a), b, n) == be_at(s, a + b, n),
        le_at(s.skip(a), b, n) == le_at(s, a + b, n),
        s.skip(a).skip(b + n) == s.skip(a + b + n),
        s.skip(a).subrange(b, b + n) == s.subrange(a + b, a + b + n),
{
    assert(s.skip(a).subrange(b, b + n) =~= s.subrange(a + b, a + b + n));
    assert(s.skip(a).skip(b + n) =~= s.skip(a + b + n));
}

/// The 64 bits at `at`, as a signed integer.
pub open spec fn i64_at(s: Seq<u8>, at: int) -> i64 {
    bits_i64(be_at(s, at, 8))
}

/// The powers of 256 that the field widths of the protocol ask for.
pub proof fn lemma_pow256_values()
    ensures
        pow256(0) == 1,
        pow256(1) == 0x100,
        pow256(2) == 0x1_0000,
        pow256(3) == 0x100_0000,
        pow256(4) == 0x1_0000_0000,
        pow256(8) == 0x1_0000_0000_0000_0000,
        pow256(16) == 0x1_0000_0000_0000_0000_0000_0000_0000_0000,
{
    reveal_with_fuel(pow256, 17);
}

/// A run of bytes has a value below 256 to the power of its length, in both byte orders.
pub proof fn lemma_value_bound(s: Seq<u8>)
    ensures
        be_value(s) < pow256(s.len()),
        le_value(s) < pow256(s.len()),
    decreases s.len(),
{
    if s.len() > 0 {
        lemma_value_bound(s.drop_last());
        lemma_value_bound(s.drop_first());
    }
}

/// `be_bytes` yields the bytes it is asked for, and reading them back gives the value.
pub proof fn lemma_be_roundtrip(v: nat, n: nat)
    ensures
        be_bytes(v, n).len() == n,
        v < pow256(n) ==> be_value(be_bytes(v, n)) == v,
    decreases n,
{
    if n > 0 {
        lemma_be_roundtrip(v / 256, (n - 1) as nat);
        assert(be_bytes(v, n).drop_last() =~= be_bytes(v / 256, (n - 1) as nat));
    }
}

/// `le_bytes` yields the bytes it is asked for, and reading them back gives the value.
pub proof fn lemma_le_roundtrip(v: nat, n: nat)
    ensures
        le_bytes(v, n).len() == n,
        v < pow256(n) ==> le_value(le_bytes(v, n)) == v,
    decreases n,
{
    if n > 0 {
        lemma_le_roundtrip(v / 256, (n - 1) as nat);
        assert(le_bytes(v, n).drop_first() =~= le_bytes(v / 256, (n - 1) as nat));
    }
}

/// A signed value survives the trip through its bit pattern.
pub proof fn lemma_i64_bits_roundtrip(v: i64)
    ensures
        i64_bits(v) < 0x1_0000_0000_0000_0000,
        bits_i64(i64_bits(v)) == v,
{
}

} // verus!
