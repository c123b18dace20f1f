//! The 24-bit numbers of the protocol.
use bytes::BytesMut;
use vstd::prelude::*;

use crate::buf::{get_uint_le, put_uint_le, Contents};
use crate::sorted_queue::Keyed;
use crate::wire::{le_at, le_bytes, lemma_pow256_values, lemma_value_bound};

verus! {

/// How many values a 24-bit number can take.
pub const U24_RANGE: u32 = 0x100_0000;

/// A 24-bit unsigned integer, little-endian on the wire. It occupies 4 bytes in memory.
#[allow(non_camel_case_types)]
#[derive(Debug, Clone, Copy, PartialEq, Eq, PartialOrd, Ord, Hash, Default, Structural)]
pub struct u24(pub u32);

impl u24 {
    /// The number fits in 24 bits.
    pub open spec fn wf(self) -> bool {
        self.0 < U24_RANGE
    }

    /// The three bytes that stand for the number on the wire.
    pub open spec fn bytes(self) -> Seq<u8> {
        le_bytes(self.0 as nat, 3)
    }

    /// The number that follows this one; the numbers start over at 0 after the last.
    pub open spec fn succ(self) -> u24 {
        u24(((self.0 + 1) % U24_RANGE as int) as u32)
    }

    /// The number as an `u32`.
    pub fn to_u32(self) -> (r: u32)
        ensures
            r == self.0,
    {
        self.0
    }

    /// The number that follows this one.
    pub fn next(self) -> (r: u24)
        ensures
            r == self.succ(),
            r.wf(),
    {
        if self.0 == u32::MAX {
            u24(0)
        } else {
            u24((self.0 + 1) % U24_RANGE)
        }
    }

    /// Takes a number off the front of `buf`.
    pub(crate) fn read(buf: &mut BytesMut) -> (r: u24)
        requires
            old(buf).seq().len() >= 3,
        ensures
            r.0 == le_at(old(buf).seq(), 0, 3),
            r.wf(),
            final(buf).seq() == old(buf).seq().skip(3),
    {
        proof {
            lemma_value_bound(buf.seq().take(3));
            lemma_pow256_values();
            assert(buf.seq().subrange(0, 3) =~= buf.seq().take(3));
        }
        u24(get_uint_le(buf, 3) as u32)
    }

    /// Appends the number to `buf`.
    pub(crate) fn write(self, buf: &mut BytesMut)
        ensures
            final(buf).seq() == old(buf).seq() + self.bytes(),
    {
        put_uint_le(buf, self.0 as u64, 3);
    }
}

impl Keyed for u24 {
    open spec fn spec_key(&self) -> nat {
        self.0 as nat
    }

    fn key(&self) -> (r: u64) {
        self.0 as u64
    }
}

/// The numbers from `from` up to, but not including, `to`.
pub open spec fn number_range(from: u24, to: u24) -> Seq<u24> {
    if from.0 <= to.0 {
        Seq::new((to.0 - from.0) as nat, |i: int| u24((from.0 + i) as u32))
    } else {
        Seq::empty()
    }
}

/// The numbers count up by one, and after the last, which is 2 to the power of 24 less 1, they
/// start over at 0.
pub proof fn lemma_succ(n: u24)
    requires
        n.wf(),
    ensures
        n.0 < 0xff_ffff ==> n.succ().0 == n.0 + 1,
        n.0 == 0xff_ffff ==> n.succ().0 == 0,
        n.succ().wf(),
{
}

/// A range holds the numbers from its first one up to the one before its end, in order; it is
/// empty where it would end before it starts.
pub proof fn lemma_number_range(from: u24, to: u24)
    ensures
        from.0 <= to.0 ==> number_range(from, to).len() == to.0 - from.0,
        from.0 > to.0 ==> number_range(from, to).len() == 0,
        forall|i: int|
            0 <= i < number_range(from, to).len() ==> (#[trigger] number_range(from, to)[i]).0
                == from.0 + i,
{
}

} // verus!
