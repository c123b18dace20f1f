//! A datagram of an established connection.
use bytes::BytesMut;
use vstd::prelude::*;

use crate::buf::{put_u8, Body, Contents};
use crate::errors::CodecError;
use crate::packet::connected::ack::{
    ack_bytes, parse_ack, records_count, records_wf, AckOrNack, Record,
    MAX_ACKNOWLEDGEMENT_PACKETS,
};
use crate::packet::connected::frame::Frame;
use crate::packet::connected::frame_set::{
    frame_set_bytes, frames_view, frames_wf, frames_writable, parse_frame_set, FrameSet,
};
use crate::packet::pack_type::{
    PackType, ACK_FLAG, CONTINUOUS_SEND_FLAG, NACK_FLAG, NEEDS_B_AND_AS_FLAG, VALID_FLAG,
};
use crate::uint24::u24;
use crate::wire::is_tail;

verus! {

/// A packet of an established connection.
#[derive(Debug, Clone, PartialEq, Eq)]
pub enum Packet<S> {
    FrameSet(FrameSet<S>),
    Ack(AckOrNack),
    Nack(AckOrNack),
}

/// What a packet of an established connection holds.
pub ghost enum PacketView {
    FrameSet(u24, Seq<Frame<Seq<u8>>>),
    Ack(Seq<Record>),
    Nack(Seq<Record>),
}

impl PacketView {
    /// The codec makes and reads packets like this one.
    pub open spec fn wf(self) -> bool {
        match self {
            PacketView::FrameSet(seq_num, fs) => seq_num.wf() && frames_wf(fs) && fs.len() > 0,
            PacketView::Ack(rs) => records_wf(rs),
            PacketView::Nack(rs) => records_wf(rs),
        }
    }

    /// The packet can be written.
    pub open spec fn writable(self) -> bool {
        match self {
            PacketView::FrameSet(_, fs) => fs.len() > 0 && frames_writable(fs),
            PacketView::Ack(rs) => rs.len() < u16::MAX,
            PacketView::Nack(rs) => rs.len() < u16::MAX,
        }
    }

    /// The packet as it is written. The first byte of a frame set has `CONTINUOUS_SEND_FLAG` set
    /// where its first frame carries a part of a split message.
    pub open spec fn bytes(self) -> Seq<u8> {
        match self {
            PacketView::FrameSet(seq_num, fs) => seq![
                if fs[0].flags.parted {
                    0b1000_1100u8
                } else {
                    0b1000_0100u8
                },
            ] + frame_set_bytes(seq_num, fs),
            PacketView::Ack(rs) => seq![ACK_FLAG] + ack_bytes(rs),
            PacketView::Nack(rs) => seq![NACK_FLAG] + ack_bytes(rs),
        }
    }

    /// An ACK or NACK covers no more sequence numbers than a reader accepts.
    pub open spec fn acceptable(self) -> bool {
        match self {
            PacketView::FrameSet(_, _) => true,
            PacketView::Ack(rs) => records_count(rs) <= MAX_ACKNOWLEDGEMENT_PACKETS,
            PacketView::Nack(rs) => records_count(rs) <= MAX_ACKNOWLEDGEMENT_PACKETS,
        }
    }
}

impl<B: Contents> View for Packet<Vec<Frame<B>>> {
    type V = PacketView;

    open spec fn view(&self) -> PacketView {
        match self {
            Packet::FrameSet(set) => PacketView::FrameSet(set.seq_num, frames_view(set.set@)),
            Packet::Ack(ack) => PacketView::Ack(ack.records@),
            Packet::Nack(ack) => PacketView::Nack(ack.records@),
        }
    }
}

impl<'a, B: Contents> View for Packet<&'a [Frame<B>]> {
    type V = PacketView;

    open spec fn view(&self) -> PacketView {
        match self {
            Packet::FrameSet(set) => PacketView::FrameSet(set.seq_num, frames_view(set.set@)),
            Packet::Ack(ack) => PacketView::Ack(ack.records@),
            Packet::Nack(ack) => PacketView::Nack(ack.records@),
        }
    }
}

impl<S> Packet<S> {
    /// The type that announces the packet.
    pub fn pack_type(&self) -> (r: PackType)
        ensures
            r == match *self {
                Packet::FrameSet(_) => PackType::FrameSet,
                Packet::Ack(_) => PackType::Ack,
                Packet::Nack(_) => PackType::Nack,
            },
    {
        match self {
            Packet::FrameSet(_) => PackType::FrameSet,
            Packet::Ack(_) => PackType::Ack,
            Packet::Nack(_) => PackType::Nack,
        }
    }
}

/// The packet behind its type, for each type that announces one of an established connection,
/// and how many bytes it takes.
pub open spec fn parse_connected(t: PackType, s: Seq<u8>) -> Result<
    (PacketView, int),
    CodecError,
> {
    match t {
        PackType::FrameSet => match parse_frame_set(s) {
            Ok((seq_num, fs)) => Ok((PacketView::FrameSet(seq_num, fs), s.len() as int)),
            Err(e) => Err(e),
        },
        PackType::Ack => match parse_ack(s) {
            Ok((rs, n)) => Ok((PacketView::Ack(rs), n)),
            Err(e) => Err(e),
        },
        PackType::Nack => match parse_ack(s) {
            Ok((rs, n)) => Ok((PacketView::Nack(rs), n)),
            Err(e) => Err(e),
        },
        _ => Err(CodecError::InvalidPacketType(t.code())),
    }
}

/// `r`, and what is left of the buffer, are what the parse says.
pub open spec fn agrees(
    r: Result<Packet<Vec<Frame<BytesMut>>>, CodecError>,
    left: Seq<u8>,
    s: Seq<u8>,
    parsed: Result<(PacketView, int), CodecError>,
) -> bool {
    &&& match parsed {
        Ok((p, n)) => r is Ok && r->Ok_0@ == p && p.wf() && left == s.skip(n) && 0 <= n <= s.len(),
        Err(e) => r == Err::<Packet<Vec<Frame<BytesMut>>>, CodecError>(e),
    }
    &&& is_tail(left, s)
}

impl Packet<Vec<Frame<BytesMut>>> {
    pub(crate) fn read_frame_set(buf: &mut BytesMut) -> (r: Result<Self, CodecError>)
        ensures
            agrees(
                r,
                final(buf).seq(),
                old(buf).seq(),
                parse_connected(PackType::FrameSet, old(buf).seq()),
            ),
    {
        let ghost s = buf.seq();
        match FrameSet::read(buf) {
            Ok(set) => {
                assert(buf.seq() =~= s.skip(s.len() as int));
                Ok(Packet::FrameSet(set))
            },
            Err(e) => Err(e),
        }
    }

    pub(crate) fn read_ack(buf: &mut BytesMut) -> (r: Result<Self, CodecError>)
        ensures
            agrees(
                r,
                final(buf).seq(),
                old(buf).seq(),
                parse_connected(PackType::Ack, old(buf).seq()),
            ),
    {
        match AckOrNack::read(buf) {
            Ok(ack) => Ok(Packet::Ack(ack)),
            Err(e) => Err(e),
        }
    }

    pub(crate) fn read_nack(buf: &mut BytesMut) -> (r: Result<Self, CodecError>)
        ensures
            agrees(
                r,
                final(buf).seq(),
                old(buf).seq(),
                parse_connected(PackType::Nack, old(buf).seq()),
            ),
    {
        match AckOrNack::read(buf) {
            Ok(ack) => Ok(Packet::Nack(ack)),
            Err(e) => Err(e),
        }
    }
}

impl<B: Body> Packet<Vec<Frame<B>>> {
    /// Appends the packet to `buf`.
    pub fn write(self, buf: &mut BytesMut)
        requires
            self@.writable(),
        ensures
            final(buf).seq() == old(buf).seq() + self@.bytes(),
    {
        match self {
            Packet::FrameSet(set) => {
                assert(frames_view(set.set@)[0] == set.set@[0]@);
                put_u8(buf, frame_set_flag(set.set[0].flags.parted));
                set.write(buf);
            },
            Packet::Ack(ack) => {
                put_u8(buf, ACK_FLAG);
                ack.write(buf);
            },
            Packet::Nack(ack) => {
                put_u8(buf, NACK_FLAG);
                ack.write(buf);
            },
        }
        assert(buf.seq() =~= old(buf).seq() + self@.bytes());
    }
}

impl<'a, B: Body> Packet<&'a [Frame<B>]> {
    /// Appends the packet to `buf`; the frames stay with their owner.
    pub fn write_ref(self, buf: &mut BytesMut)
        requires
            self@.writable(),
        ensures
            final(buf).seq() == old(buf).seq() + self@.bytes(),
    {
        let ghost view = self@;
        match self {
            Packet::FrameSet(set) => {
                assert(frames_view(set.set@)[0] == set.set@[0]@);
                put_u8(buf, frame_set_flag(set.set[0].flags.parted));
                set.write_ref(buf);
            },
            Packet::Ack(ack) => {
                put_u8(buf, ACK_FLAG);
                ack.write(buf);
            },
            Packet::Nack(ack) => {
                put_u8(buf, NACK_FLAG);
                ack.write(buf);
            },
        }
        assert(buf.seq() =~= old(buf).seq() + view.bytes());
    }
}

/// The first byte of a frame set.
fn frame_set_flag(parted: bool) -> (r: u8)
    ensures
        r == (if parted {
            0b1000_1100u8
        } else {
            0b1000_0100u8
        }),
{
    assert(0b1000_0000u8 | 0b100u8 == 0b1000_0100u8 && 0b1000_0000u8 | 0b100u8 | 0b1000u8
        == 0b1000_1100u8) by (bit_vector);
    if parted {
        VALID_FLAG | NEEDS_B_AND_AS_FLAG | CONTINUOUS_SEND_FLAG
    } else {
        VALID_FLAG | NEEDS_B_AND_AS_FLAG
    }
}

} // verus!
