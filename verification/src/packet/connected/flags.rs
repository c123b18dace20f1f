//! The flags of a frame.
use bytes::BytesMut;
use vstd::prelude::*;

use crate::buf::{get_u8, put_u8, Contents};
use crate::packet::connected::reliability::{lemma_code_injective, Reliability};
use crate::packet::pack_type::{NEEDS_B_AND_AS_FLAG, PARTED_FLAG};

verus! {

/// All bits but `PARTED_FLAG`.
pub const NOT_PARTED_MASK: u8 = 0b1110_1111;

/// The top 3 bits are the reliability; the fourth is set when the frame carries a part of a
/// split message.
#[derive(Debug, Clone, Copy, PartialEq, Eq, Structural)]
pub struct Flags {
    /// The byte that stands in the packet.
    pub raw: u8,
    pub reliability: Reliability,
    pub parted: bool,
    pub needs_bas: bool,
}

impl Flags {
    /// The fields say what the byte says.
    pub open spec fn wf(self) -> bool {
        &&& self.reliability.code() == self.raw >> 5u8
        &&& self.parted == (self.raw & PARTED_FLAG != 0)
        &&& self.needs_bas == (self.raw & NEEDS_B_AND_AS_FLAG != 0)
    }

    /// The flags that a byte stands for.
    pub open spec fn of_byte(raw: u8) -> Flags {
        Flags {
            raw,
            reliability: choose|r: Reliability| r.code() == raw >> 5u8,
            parted: raw & PARTED_FLAG != 0,
            needs_bas: raw & NEEDS_B_AND_AS_FLAG != 0,
        }
    }

    /// The flags of a frame of this reliability.
    pub open spec fn of_reliability(reliability: Reliability, parted: bool) -> Flags {
        Flags {
            raw: (reliability.code() << 5u8) | NEEDS_B_AND_AS_FLAG | (if parted {
                PARTED_FLAG
            } else {
                0
            }),
            reliability,
            parted,
            needs_bas: true,
        }
    }

    /// The same flags for a frame that carries a whole message.
    pub open spec fn whole(self) -> Flags {
        Flags { raw: self.raw & NOT_PARTED_MASK, parted: false, ..self }
    }

    /// The flags of a new frame.
    pub fn new(reliability: Reliability, parted: bool) -> (r: Flags)
        ensures
            r == Flags::of_reliability(reliability, parted),
            r.wf(),
    {
        let mut raw: u8 = reliability.to_u8() << 5u8;
        raw = raw | NEEDS_B_AND_AS_FLAG;
        if parted {
            raw = raw | PARTED_FLAG;
        }
        proof {
            lemma_new_flags(reliability, parted);
            let code = reliability.code();
            assert((code << 5u8) | 4u8 | 0u8 == (code << 5u8) | 4u8) by (bit_vector);
        }
        Flags { raw, reliability, parted, needs_bas: true }
    }

    /// The flags that a byte stands for.
    pub fn parse(raw: u8) -> (r: Flags)
        ensures
            r == Flags::of_byte(raw),
            r.wf(),
    {
        assert(raw >> 5u8 <= 7) by (bit_vector);
        let reliability = Reliability::from_code(raw >> 5u8);
        proof {
            lemma_of_byte(raw, reliability);
        }
        Flags {
            raw,
            reliability,
            parted: raw & PARTED_FLAG != 0,
            needs_bas: raw & NEEDS_B_AND_AS_FLAG != 0,
        }
    }

    pub(crate) fn read(buf: &mut BytesMut) -> (r: Flags)
        requires
            old(buf).seq().len() >= 1,
        ensures
            r == Flags::of_byte(old(buf).seq()[0]),
            r.wf(),
            final(buf).seq() == old(buf).seq().skip(1),
    {
        let raw: u8 = get_u8(buf);
        Flags::parse(raw)
    }

    pub(crate) fn write(&self, buf: &mut BytesMut)
        ensures
            final(buf).seq() == old(buf).seq().push(self.raw),
    {
        put_u8(buf, self.raw);
    }

    /// Takes back that the frame carries a part; the other flags stay.
    pub(crate) fn clear_parted(self) -> (r: Flags)
        ensures
            r == self.whole(),
    {
        Flags { raw: self.raw & NOT_PARTED_MASK, parted: false, ..self }
    }
}

proof fn lemma_of_byte(raw: u8, reliability: Reliability)
    requires
        reliability.code() == raw >> 5u8,
    ensures
        Flags::of_byte(raw).reliability == reliability,
{
    lemma_code_injective(Flags::of_byte(raw).reliability, reliability);
}

/// What a byte stands for is told by the byte alone: flags whose fields agree with their byte
/// are read back from it as they were.
pub proof fn lemma_flags_roundtrip(flags: Flags)
    requires
        flags.wf(),
    ensures
        Flags::of_byte(flags.raw) == flags,
{
    lemma_of_byte(flags.raw, flags.reliability);
}

/// The flags of a new frame agree with their byte.
pub proof fn lemma_new_flags(reliability: Reliability, parted: bool)
    ensures
        Flags::of_reliability(reliability, parted).wf(),
{
    let code = reliability.code();
    assert(code <= 7);
    assert(((code << 5u8) | 4u8 | 16u8) >> 5u8 == code && ((code << 5u8) | 4u8 | 16u8) & 16u8 != 0
        && ((code << 5u8) | 4u8 | 16u8) & 4u8 != 0 && ((code << 5u8) | 4u8 | 0u8) >> 5u8 == code && (
    (code << 5u8) | 4u8 | 0u8) & 16u8 == 0 && ((code << 5u8) | 4u8 | 0u8) & 4u8 != 0) by (bit_vector)
        requires
            code <= 7,
    ;
}

/// Taking back that a frame carries a part leaves flags that agree with their byte, and the
/// reliability as it was.
pub proof fn lemma_whole_flags(flags: Flags)
    requires
        flags.wf(),
    ensures
        flags.whole().wf(),
        flags.whole().reliability == flags.reliability,
        !flags.whole().parted,
        !flags.parted ==> flags.whole() == flags,
{
    let raw = flags.raw;
    assert((raw & 0b1110_1111u8) >> 5u8 == raw >> 5u8 && (raw & 0b1110_1111u8) & 16u8 == 0 && (raw
        & 0b1110_1111u8) & 4u8 == raw & 4u8 && (raw & 16u8 == 0 ==> raw & 0b1110_1111u8 == raw))
        by (bit_vector);
}

} // verus!
