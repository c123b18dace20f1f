//! Frames, and the frame sets that carry them.
use bytes::{Bytes, BytesMut};
use vstd::prelude::*;

use crate::buf::{
    chunk, freeze, get_u16, get_u32, get_u8, put_u16, put_u32, put_u8, remaining, split_to, Body,
    Contents,
};
use crate::errors::CodecError;
use crate::packet::address::SIZED;
use crate::packet::connected::flags::{lemma_flags_roundtrip, lemma_whole_flags, Flags};
use crate::uint24::u24;
use crate::wire::{
    be_at, be_bytes, is_tail, le_at, lemma_at_skip, lemma_be_roundtrip, lemma_le_roundtrip,
    lemma_pow256_values,
};

verus! {

/// The place named when a frame announces no body.
pub const FRAME_LENGTH: &'static str = "frame length";

/// The part of a frame's header on fragments takes this many bytes.
pub const FRAGMENT_PART_SIZE: usize = 10;

/// A body has fewer bytes than this: its length in bits must fit in 16 bits.
pub const BODY_LIMIT: usize = 8191;

/// Which part of which split message a frame carries.
#[derive(Debug, Clone, Copy, PartialEq, Eq, Structural)]
pub struct Fragment {
    /// How many parts there are.
    pub parted_size: u32,
    /// The message.
    pub parted_id: u16,
    /// The place of the part, from 0.
    pub parted_index: u32,
}

impl Fragment {
    /// The part of the header as it is written in a packet.
    pub open spec fn bytes(self) -> Seq<u8> {
        be_bytes(self.parted_size as nat, 4) + be_bytes(self.parted_id as nat, 2) + be_bytes(
            self.parted_index as nat,
            4,
        )
    }

    /// The part of the header that stands at `at` in `s`.
    pub open spec fn at(s: Seq<u8>, at: int) -> Fragment {
        Fragment {
            parted_size: be_at(s, at, 4) as u32,
            parted_id: be_at(s, at + 4, 2) as u16,
            parted_index: be_at(s, at + 6, 4) as u32,
        }
    }

    fn read(buf: &mut BytesMut) -> (r: Fragment)
        requires
            old(buf).seq().len() >= 10,
        ensures
            r == Fragment::at(old(buf).seq(), 0),
            final(buf).seq() == old(buf).seq().skip(10),
    {
        let ghost s = buf.seq();
        assert(s.take(4) =~= s.subrange(0, 4));
        let parted_size: u32 = get_u32(buf);
        assert(buf.seq().take(2) =~= s.subrange(4, 6));
        let parted_id: u16 = get_u16(buf);
        assert(buf.seq().take(4) =~= s.subrange(6, 10));
        let parted_index: u32 = get_u32(buf);
        assert(buf.seq() =~= s.skip(10));
        Fragment { parted_size, parted_id, parted_index }
    }

    fn read_if(buf: &mut BytesMut, there: bool) -> (r: Result<Option<Fragment>, CodecError>)
        ensures
            match r {
                Ok(v) => {
                    &&& v == (if there {
                        Some(Fragment::at(old(buf).seq(), 0))
                    } else {
                        None
                    })
                    &&& old(buf).seq().len() >= field_size(there, 10)
                    &&& final(buf).seq() == old(buf).seq().skip(field_size(there, 10))
                },
                Err(e) => {
                    &&& e == CodecError::InvalidPacketLength(SIZED)
                    &&& old(buf).seq().len() < field_size(there, 10)
                    &&& final(buf).seq() == old(buf).seq()
                },
            },
    {
        assert(buf.seq().skip(0) =~= buf.seq());
        if !there {
            return Ok(None);
        }
        if remaining(buf) < 10 {
            return Err(CodecError::InvalidPacketLength(SIZED));
        }
        Ok(Some(Fragment::read(buf)))
    }

    fn write(self, buf: &mut BytesMut)
        ensures
            final(buf).seq() == old(buf).seq() + self.bytes(),
    {
        put_u32(buf, self.parted_size);
        put_u16(buf, self.parted_id);
        put_u32(buf, self.parted_index);
        assert(buf.seq() =~= old(buf).seq() + self.bytes());
    }
}

/// The place of a frame on an order channel.
#[derive(Debug, Clone, Copy, PartialEq, Eq, Structural)]
pub struct Ordered {
    pub frame_index: u24,
    pub channel: u8,
}

impl Ordered {
    /// The part of the header as it is written in a packet.
    pub open spec fn bytes(self) -> Seq<u8> {
        self.frame_index.bytes().push(self.channel)
    }

    /// The part of the header that stands at `at` in `s`.
    pub open spec fn at(s: Seq<u8>, at: int) -> Ordered {
        Ordered { frame_index: u24(le_at(s, at, 3) as u32), channel: s[at + 3] }
    }

    fn read(buf: &mut BytesMut) -> (r: Ordered)
        requires
            old(buf).seq().len() >= 4,
        ensures
            r == Ordered::at(old(buf).seq(), 0),
            r.frame_index.wf(),
            final(buf).seq() == old(buf).seq().skip(4),
    {
        let ghost s = buf.seq();
        let frame_index = u24::read(buf);
        let channel: u8 = get_u8(buf);
        assert(buf.seq() =~= s.skip(4));
        Ordered { frame_index, channel }
    }

    fn read_if(buf: &mut BytesMut, there: bool) -> (r: Result<Option<Ordered>, CodecError>)
        ensures
            match r {
                Ok(v) => {
                    &&& v == (if there {
                        Some(Ordered::at(old(buf).seq(), 0))
                    } else {
                        None
                    })
                    &&& v matches Some(o) ==> o.frame_index.wf()
                    &&& old(buf).seq().len() >= field_size(there, 4)
                    &&& final(buf).seq() == old(buf).seq().skip(field_size(there, 4))
                },
                Err(e) => {
                    &&& e == CodecError::InvalidPacketLength(SIZED)
                    &&& old(buf).seq().len() < field_size(there, 4)
                    &&& final(buf).seq() == old(buf).seq()
                },
            },
    {
        assert(buf.seq().skip(0) =~= buf.seq());
        if !there {
            return Ok(None);
        }
        if remaining(buf) < 4 {
            return Err(CodecError::InvalidPacketLength(SIZED));
        }
        Ok(Some(Ordered::read(buf)))
    }

    fn write(self, buf: &mut BytesMut)
        ensures
            final(buf).seq() == old(buf).seq() + self.bytes(),
    {
        self.frame_index.write(buf);
        put_u8(buf, self.channel);
        assert(buf.seq() =~= old(buf).seq() + self.bytes());
    }
}

/// A message, or a part of one, with what its delivery asks for.
#[derive(Debug, Clone, PartialEq, Eq)]
pub struct Frame<B> {
    pub flags: Flags,
    pub reliable_frame_index: Option<u24>,
    pub seq_frame_index: Option<u24>,
    pub ordered: Option<Ordered>,
    pub fragment: Option<Fragment>,
    pub body: B,
}

/// A frame as it is sent and delivered.
pub type FrameRef = Frame<Bytes>;

/// A frame as it is received.
pub type FrameMut = Frame<BytesMut>;

/// The bytes of a 24-bit number that may be absent.
pub open spec fn optional_bytes(n: Option<u24>) -> Seq<u8> {
    match n {
        Some(v) => v.bytes(),
        None => Seq::empty(),
    }
}

/// How many bytes a field of this size takes, where it is there.
pub open spec fn field_size(there: bool, size: int) -> int {
    if there {
        size
    } else {
        0
    }
}

/// A number that may be absent fits in 24 bits.
pub open spec fn optional_wf(n: Option<u24>) -> bool {
    n matches Some(v) ==> v.wf()
}

fn read_index(buf: &mut BytesMut, there: bool) -> (r: Result<Option<u24>, CodecError>)
    ensures
        match r {
            Ok(v) => {
                &&& v == (if there {
                    Some(u24(le_at(old(buf).seq(), 0, 3) as u32))
                } else {
                    None
                })
                &&& optional_wf(v)
                &&& old(buf).seq().len() >= field_size(there, 3)
                &&& final(buf).seq() == old(buf).seq().skip(field_size(there, 3))
            },
            Err(e) => {
                &&& e == CodecError::InvalidPacketLength(SIZED)
                &&& old(buf).seq().len() < field_size(there, 3)
                &&& final(buf).seq() == old(buf).seq()
            },
        },
{
    assert(buf.seq().skip(0) =~= buf.seq());
    if !there {
        return Ok(None);
    }
    if remaining(buf) < 3 {
        return Err(CodecError::InvalidPacketLength(SIZED));
    }
    Ok(Some(u24::read(buf)))
}

impl<B: Contents> View for Frame<B> {
    type V = Frame<Seq<u8>>;

    open spec fn view(&self) -> Frame<Seq<u8>> {
        Frame {
            flags: self.flags,
            reliable_frame_index: self.reliable_frame_index,
            seq_frame_index: self.seq_frame_index,
            ordered: self.ordered,
            fragment: self.fragment,
            body: self.body.seq(),
        }
    }
}

fn same_index(a: Option<u24>, b: Option<u24>) -> (r: bool)
    ensures
        r == (a == b),
{
    match (a, b) {
        (Some(a), Some(b)) => a == b,
        (None, None) => true,
        _ => false,
    }
}

fn same_bytes(a: &[u8], b: &[u8]) -> (r: bool)
    ensures
        r == (a@ == b@),
{
    if a.len() != b.len() {
        return false;
    }
    let mut i: usize = 0;
    while i < a.len()
        invariant
            i <= a@.len(),
            a@.len() == b@.len(),
            a@.take(i as int) == b@.take(i as int),
        decreases a@.len() - i,
    {
        if a[i] != b[i] {
            assert(a@[i as int] != b@[i as int]);
            return false;
        }
        assert(a@.take(i + 1) =~= a@.take(i as int).push(a@[i as int]));
        assert(b@.take(i + 1) =~= b@.take(i as int).push(b@[i as int]));
        i = i + 1;
    }
    assert(a@.take(i as int) =~= a@);
    assert(b@.take(i as int) =~= b@);
    true
}

/// Whether two frames are the same: their headers and their bodies.
pub(crate) fn same_frame(a: &FrameMut, b: &FrameMut) -> (r: bool)
    ensures
        r == (a@ == b@),
{
    let fragments = match (a.fragment, b.fragment) {
        (Some(a), Some(b)) => a == b,
        (None, None) => true,
        _ => false,
    };
    let places = match (a.ordered, b.ordered) {
        (Some(a), Some(b)) => a == b,
        (None, None) => true,
        _ => false,
    };
    fragments && places && a.flags == b.flags && same_index(
        a.reliable_frame_index,
        b.reliable_frame_index,
    ) && same_index(a.seq_frame_index, b.seq_frame_index) && same_bytes(
        chunk(&a.body),
        chunk(&b.body),
    )
}

impl Frame<Seq<u8>> {
    /// What the codec makes and reads: the flags agree with their byte, what they announce is
    /// there and nothing else is, every number fits its field, and there is a body.
    pub open spec fn wf(self) -> bool {
        &&& self.flags.wf()
        &&& self.reliable_frame_index is Some <==> self.flags.reliability.reliable()
        &&& self.seq_frame_index is Some <==> self.flags.reliability.sequenced()
        &&& self.ordered is Some <==> self.flags.reliability.sequenced_or_ordered()
        &&& self.fragment is Some <==> self.flags.parted
        &&& optional_wf(self.reliable_frame_index)
        &&& optional_wf(self.seq_frame_index)
        &&& self.ordered matches Some(o) ==> o.frame_index.wf()
        &&& 0 < self.body.len() <= BODY_LIMIT
    }

    /// The header as it is written in a packet.
    pub open spec fn header_bytes(self) -> Seq<u8> {
        seq![self.flags.raw] + be_bytes(self.body.len() * 8, 2) + optional_bytes(
            self.reliable_frame_index,
        ) + optional_bytes(self.seq_frame_index) + (match self.ordered {
            Some(v) => v.bytes(),
            None => Seq::empty(),
        }) + (match self.fragment {
            Some(v) => v.bytes(),
            None => Seq::empty(),
        })
    }

    /// The frame as it is written in a packet.
    pub open spec fn bytes(self) -> Seq<u8> {
        self.header_bytes() + self.body
    }

    /// How many bytes the frame takes in a packet.
    pub open spec fn spec_size(self) -> nat {
        self.flags.reliability.header_size() + (if self.fragment is Some {
            FRAGMENT_PART_SIZE as nat
        } else {
            0
        }) + self.body.len()
    }

    /// The same frame as one that carries a whole message.
    pub open spec fn whole(self) -> Frame<Seq<u8>> {
        if self.flags.parted {
            Frame { flags: self.flags.whole(), fragment: None, ..self }
        } else {
            self
        }
    }

    /// The frame that `s` starts with, and how many bytes it takes.
    pub open spec fn parse(s: Seq<u8>) -> Result<(Frame<Seq<u8>>, int), CodecError> {
        let length = be_at(s, 1, 2) as int / 8;
        if s.len() < 3 {
            Err(CodecError::InvalidPacketLength(SIZED))
        } else if length == 0 {
            Err(CodecError::InvalidPacketLength(FRAME_LENGTH))
        } else {
            Self::parse_fields(s, Flags::of_byte(s[0]), length)
        }
    }

    /// The frame that `s` starts with, where its flags and the length of its body are known.
    pub open spec fn parse_fields(s: Seq<u8>, flags: Flags, length: int) -> Result<
        (Frame<Seq<u8>>, int),
        CodecError,
    > {
        let r = flags.reliability;
        let reliable_at = 3int;
        let seq_at = reliable_at + field_size(r.reliable(), 3);
        let ordered_at = seq_at + field_size(r.sequenced(), 3);
        let fragment_at = ordered_at + field_size(r.sequenced_or_ordered(), 4);
        let body_at = fragment_at + field_size(flags.parted, 10);
        if s.len() < body_at + length {
            Err(CodecError::InvalidPacketLength(SIZED))
        } else {
            Ok(
                (
                    Frame {
                        flags,
                        reliable_frame_index: if r.reliable() {
                            Some(u24(le_at(s, reliable_at, 3) as u32))
                        } else {
                            None
                        },
                        seq_frame_index: if r.sequenced() {
                            Some(u24(le_at(s, seq_at, 3) as u32))
                        } else {
                            None
                        },
                        ordered: if r.sequenced_or_ordered() {
                            Some(Ordered::at(s, ordered_at))
                        } else {
                            None
                        },
                        fragment: if flags.parted {
                            Some(Fragment::at(s, fragment_at))
                        } else {
                            None
                        },
                        body: s.subrange(body_at, body_at + length),
                    },
                    body_at + length,
                ),
            )
        }
    }
}

impl Frame<BytesMut> {
    /// The same frame with a body that can be shared.
    pub fn freeze(self) -> (r: Frame<Bytes>)
        ensures
            r@ == self@,
    {
        Frame {
            flags: self.flags,
            reliable_frame_index: self.reliable_frame_index,
            seq_frame_index: self.seq_frame_index,
            ordered: self.ordered,
            fragment: self.fragment,
            body: freeze(self.body),
        }
    }

    /// Takes off the flag and the part of the header on fragments.
    pub fn reassembled(self) -> (r: Frame<BytesMut>)
        ensures
            r@ == self@.whole(),
            r.body == self.body,
            self.flags.wf() ==> r.flags.wf(),
    {
        if !self.flags.parted {
            return self;
        }
        proof {
            if self.flags.wf() {
                lemma_whole_flags(self.flags);
            }
        }
        Frame { flags: self.flags.clear_parted(), fragment: None, ..self }
    }

    /// Takes a frame off the front of `buf`.
    pub fn read(buf: &mut BytesMut) -> (r: Result<Frame<BytesMut>, CodecError>)
        ensures
            match Frame::<Seq<u8>>::parse(old(buf).seq()) {
                Ok((f, n)) => r is Ok && r->Ok_0@ == f && final(buf).seq() == old(buf).seq().skip(n)
                    && f.wf() && 0 < n <= old(buf).seq().len(),
                Err(e) => r == Err::<Frame<BytesMut>, CodecError>(e),
            },
            is_tail(final(buf).seq(), old(buf).seq()),
    {
        let ghost s = buf.seq();
        if remaining(buf) < 3 {
            return Err(CodecError::InvalidPacketLength(SIZED));
        }
        let flags = Flags::read(buf);
        assert(buf.seq().take(2) =~= s.subrange(1, 3));
        let bits: u16 = get_u16(buf);
        assert(buf.seq() =~= s.skip(3));
        assert(bits >> 3u16 == bits / 8) by (bit_vector);
        let length: usize = (bits >> 3u16) as usize;
        if length == 0 {
            return Err(CodecError::InvalidPacketLength(FRAME_LENGTH));
        }
        Frame::read_fields(buf, flags, length, Ghost(s))
    }

    /// Takes what follows the flags and the length `s` starts with off the front of `buf`.
    fn read_fields(
        buf: &mut BytesMut,
        flags: Flags,
        length: usize,
        Ghost(s): Ghost<Seq<u8>>,
    ) -> (r: Result<Frame<BytesMut>, CodecError>)
        requires
            s.len() >= 3,
            old(buf).seq() == s.skip(3),
            0 < length <= BODY_LIMIT,
            flags.wf(),
        ensures
            match Frame::<Seq<u8>>::parse_fields(s, flags, length as int) {
                Ok((f, n)) => r is Ok && r->Ok_0@ == f && final(buf).seq() == s.skip(n) && f.wf()
                    && 0 < n <= s.len(),
                Err(e) => r == Err::<Frame<BytesMut>, CodecError>(e),
            },
            is_tail(final(buf).seq(), s),
    {
        let reliability = flags.reliability;
        let ghost at = 3int;
        let reliable_frame_index = match read_index(buf, reliability.is_reliable()) {
            Ok(v) => v,
            Err(e) => {
                return Err(e);
            },
        };
        proof {
            if reliability.reliable() {
                lemma_at_skip(s, at, 0, 3);
            }
        }
        let ghost at = at + field_size(reliability.reliable(), 3);
        assert(buf.seq() == s.skip(at));
        let seq_frame_index = match read_index(buf, reliability.is_sequenced()) {
            Ok(v) => v,
            Err(e) => {
                return Err(e);
            },
        };
        proof {
            if reliability.sequenced() {
                lemma_at_skip(s, at, 0, 3);
            }
        }
        let ghost at = at + field_size(reliability.sequenced(), 3);
        assert(buf.seq() == s.skip(at));
        let ordered = match Ordered::read_if(buf, reliability.is_sequenced_or_ordered()) {
            Ok(v) => v,
            Err(e) => {
                return Err(e);
            },
        };
        proof {
            if reliability.sequenced_or_ordered() {
                lemma_at_skip(s, at, 0, 3);
                lemma_at_skip(s, at, 0, 4);
            }
        }
        let ghost at = at + field_size(reliability.sequenced_or_ordered(), 4);
        assert(buf.seq() == s.skip(at));
        let fragment = match Fragment::read_if(buf, flags.parted) {
            Ok(v) => v,
            Err(e) => {
                return Err(e);
            },
        };
        proof {
            if flags.parted {
                lemma_at_skip(s, at, 0, 4);
                lemma_at_skip(s, at, 4, 2);
                lemma_at_skip(s, at, 6, 4);
            }
        }
        let ghost at = at + field_size(flags.parted, 10);
        assert(buf.seq() == s.skip(at));
        if remaining(buf) < length {
            return Err(CodecError::InvalidPacketLength(SIZED));
        }
        proof {
            lemma_at_skip(s, at, 0, length as int);
        }
        assert(buf.seq().take(length as int) =~= buf.seq().subrange(0, length as int));
        let body = split_to(buf, length);
        Ok(Frame { flags, reliable_frame_index, seq_frame_index, ordered, fragment, body })
    }
}

impl<B: Body> Frame<B> {
    fn write_header(&self, buf: &mut BytesMut)
        requires
            self@.body.len() < BODY_LIMIT,
        ensures
            final(buf).seq() == old(buf).seq() + self@.header_bytes(),
    {
        let ghost s = buf.seq();
        self.flags.write(buf);
        // the length is written in bits
        let length: usize = self.body.body_len();
        put_u16(buf, (length * 8) as u16);
        if let Some(index) = self.reliable_frame_index {
            index.write(buf);
        }
        if let Some(index) = self.seq_frame_index {
            index.write(buf);
        }
        if let Some(ordered) = self.ordered {
            ordered.write(buf);
        }
        if let Some(fragment) = self.fragment {
            fragment.write(buf);
        }
        assert(buf.seq() =~= s + self@.header_bytes());
    }

    /// Appends the frame to `buf`.
    pub fn write(self, buf: &mut BytesMut)
        requires
            self@.body.len() < BODY_LIMIT,
        ensures
            final(buf).seq() == old(buf).seq() + self@.bytes(),
    {
        self.write_header(buf);
        self.body.put_into(buf);
        assert(buf.seq() =~= old(buf).seq() + self@.bytes());
    }

    /// Appends the frame to `buf` and keeps it.
    pub fn write_ref(&self, buf: &mut BytesMut)
        requires
            self@.body.len() < BODY_LIMIT,
        ensures
            final(buf).seq() == old(buf).seq() + self@.bytes(),
    {
        self.write_header(buf);
        self.body.share().put_into(buf);
        assert(buf.seq() =~= old(buf).seq() + self@.bytes());
    }

    /// How many bytes the frame takes in a packet.
    pub fn size(&self) -> (r: usize)
        requires
            self@.spec_size() <= usize::MAX,
        ensures
            r == self@.spec_size(),
    {
        let mut size: usize = self.flags.reliability.size();
        if self.fragment.is_some() {
            size = size + FRAGMENT_PART_SIZE;
        }
        size + self.body.body_len()
    }
}

/// A frame that the codec makes takes as many bytes as its size says.
pub proof fn lemma_frame_len(f: Frame<Seq<u8>>)
    requires
        f.wf(),
    ensures
        f.bytes().len() == f.spec_size(),
        f.header_bytes().len() == f.spec_size() - f.body.len(),
{
    lemma_be_roundtrip(f.body.len() * 8, 2);
    if let Some(v) = f.reliable_frame_index {
        lemma_le_roundtrip(v.0 as nat, 3);
    }
    if let Some(v) = f.seq_frame_index {
        lemma_le_roundtrip(v.0 as nat, 3);
    }
    if let Some(v) = f.ordered {
        lemma_le_roundtrip(v.frame_index.0 as nat, 3);
    }
    if let Some(v) = f.fragment {
        lemma_fragment_at(v, Seq::empty(), Seq::empty());
    }
}

proof fn lemma_index_at(v: u24, before: Seq<u8>, after: Seq<u8>)
    requires
        v.wf(),
    ensures
        v.bytes().len() == 3,
        u24(le_at(before + v.bytes() + after, before.len() as int, 3) as u32) == v,
{
    let s = before + v.bytes() + after;
    lemma_le_roundtrip(v.0 as nat, 3);
    lemma_pow256_values();
    let at = before.len() as int;
    assert(s.subrange(at, at + 3) =~= v.bytes());
}

proof fn lemma_ordered_at(v: Ordered, before: Seq<u8>, after: Seq<u8>)
    requires
        v.frame_index.wf(),
    ensures
        v.bytes().len() == 4,
        Ordered::at(before + v.bytes() + after, before.len() as int) == v,
{
    lemma_index_at(v.frame_index, before, seq![v.channel] + after);
    assert(before + v.bytes() + after =~= before + v.frame_index.bytes() + (seq![v.channel]
        + after));
}

proof fn lemma_fragment_at(v: Fragment, before: Seq<u8>, after: Seq<u8>)
    ensures
        v.bytes().len() == 10,
        Fragment::at(before + v.bytes() + after, before.len() as int) == v,
{
    let s = before + v.bytes() + after;
    let at = before.len() as int;
    lemma_be_roundtrip(v.parted_size as nat, 4);
    lemma_be_roundtrip(v.parted_id as nat, 2);
    lemma_be_roundtrip(v.parted_index as nat, 4);
    lemma_pow256_values();
    assert(s.subrange(at, at + 4) =~= be_bytes(v.parted_size as nat, 4));
    assert(s.subrange(at + 4, at + 6) =~= be_bytes(v.parted_id as nat, 2));
    assert(s.subrange(at + 6, at + 10) =~= be_bytes(v.parted_index as nat, 4));
}

/// A frame that was written is read back as it was, whatever follows it.
pub proof fn lemma_frame_roundtrip(f: Frame<Seq<u8>>, rest: Seq<u8>)
    requires
        f.wf(),
    ensures
        Frame::<Seq<u8>>::parse(f.bytes() + rest) == Ok::<(Frame<Seq<u8>>, int), CodecError>(
            (f, f.bytes().len() as int),
        ),
        (f.bytes() + rest).skip(f.bytes().len() as int) == rest,
{
    let s = f.bytes() + rest;
    let len = be_bytes(f.body.len() * 8, 2);
    let reliable = optional_bytes(f.reliable_frame_index);
    let sequenced = optional_bytes(f.seq_frame_index);
    let ordered = match f.ordered {
        Some(v) => v.bytes(),
        None => Seq::empty(),
    };
    let fragment = match f.fragment {
        Some(v) => v.bytes(),
        None => Seq::empty(),
    };
    let p0 = seq![f.flags.raw] + len;
    let p1 = p0 + reliable;
    let p2 = p1 + sequenced;
    let p3 = p2 + ordered;
    let p4 = p3 + fragment;
    let t4 = f.body + rest;
    let t3 = fragment + t4;
    let t2 = ordered + t3;
    let t1 = sequenced + t2;
    lemma_frame_len(f);
    lemma_field_sizes(f);
    lemma_flags_roundtrip(f.flags);
    lemma_concat_assoc(p4, f.body, rest);
    lemma_concat_assoc(p3, fragment, t4);
    lemma_concat_assoc(p2, ordered, t3);
    lemma_concat_assoc(p1, sequenced, t2);
    assert(be_at(s, 1, 2) == f.body.len() * 8) by {
        lemma_concat_assoc(p0, reliable, t1);
        lemma_be_roundtrip(f.body.len() * 8, 2);
        lemma_pow256_values();
        assert(s.subrange(1, 3) =~= len);
    }
    assert(s[0] == f.flags.raw);
    if let Some(v) = f.reliable_frame_index {
        lemma_index_at(v, p0, t1);
    }
    if let Some(v) = f.seq_frame_index {
        lemma_index_at(v, p1, t2);
    }
    if let Some(v) = f.ordered {
        lemma_ordered_at(v, p2, t3);
    }
    if let Some(v) = f.fragment {
        lemma_fragment_at(v, p3, t4);
    }
    let at = p4.len() as int;
    assert(s.subrange(at, at + f.body.len()) =~= f.body);
    assert(s.skip(f.bytes().len() as int) =~= rest);
    let r = f.flags.reliability;
    assert(p0.len() == 3);
    assert(p1.len() == 3 + field_size(r.reliable(), 3));
    assert(p2.len() == p1.len() + field_size(r.sequenced(), 3));
    assert(p3.len() == p2.len() + field_size(r.sequenced_or_ordered(), 4));
    assert(p4.len() == p3.len() + field_size(f.flags.parted, 10));
    assert(f.body.len() * 8 / 8 == f.body.len());
    let length = f.body.len() as int;
    assert(Frame::<Seq<u8>>::parse_fields(s, f.flags, length) == Ok::<
        (Frame<Seq<u8>>, int),
        CodecError,
    >((f, at + length)));
}

proof fn lemma_concat_assoc(a: Seq<u8>, b: Seq<u8>, c: Seq<u8>)
    ensures
        a + b + c == a + (b + c),
{
    assert(a + b + c =~= a + (b + c));
}

proof fn lemma_field_sizes(f: Frame<Seq<u8>>)
    requires
        f.wf(),
    ensures
        optional_bytes(f.reliable_frame_index).len() == field_size(
            f.flags.reliability.reliable(),
            3,
        ),
        optional_bytes(f.seq_frame_index).len() == field_size(f.flags.reliability.sequenced(), 3),
        f.ordered matches Some(v) ==> v.bytes().len() == 4,
        f.fragment matches Some(v) ==> v.bytes().len() == 10,
{
    if let Some(v) = f.reliable_frame_index {
        lemma_le_roundtrip(v.0 as nat, 3);
    }
    if let Some(v) = f.seq_frame_index {
        lemma_le_roundtrip(v.0 as nat, 3);
    }
    if let Some(v) = f.ordered {
        lemma_le_roundtrip(v.frame_index.0 as nat, 3);
    }
    if let Some(v) = f.fragment {
        lemma_fragment_at(v, Seq::empty(), Seq::empty());
    }
}

} // verus!
