//! Whole datagrams.
use bytes::{Bytes, BytesMut};
use vstd::prelude::*;

use crate::buf::{chunk, clear, get_u8, remaining, Body, Contents};
use crate::errors::CodecError;
use crate::packet::address::SIZED;
use crate::packet::connected::ack::lemma_ack_roundtrip;
use crate::packet::connected::frame::Frame;
use crate::packet::connected::frame_set::lemma_frame_set_roundtrip;
use crate::packet::connected::packet as connected;
use crate::packet::pack_type::{lemma_type_of, type_of, PackType};
use crate::packet::unconnected;
use crate::wire::is_tail;

verus! {

/// A packet of the protocol: all that one datagram carries.
#[derive(Debug, Clone, PartialEq, Eq)]
pub enum Packet<S> {
    Unconnected(unconnected::Packet<Bytes>),
    Connected(connected::Packet<S>),
}

/// What a packet holds.
pub ghost enum PacketView {
    Unconnected(unconnected::Packet<Seq<u8>>),
    Connected(connected::PacketView),
}

impl PacketView {
    /// The packet can be written.
    pub open spec fn writable(self) -> bool {
        match self {
            PacketView::Unconnected(_) => true,
            PacketView::Connected(p) => p.writable(),
        }
    }

    /// A reader takes the packet for what it is.
    pub open spec fn readable(self) -> bool {
        match self {
            PacketView::Unconnected(p) => p.faithful(),
            PacketView::Connected(p) => p.wf() && p.writable() && p.acceptable(),
        }
    }

    /// The packet as it is written.
    pub open spec fn bytes(self) -> Seq<u8> {
        match self {
            PacketView::Unconnected(p) => p.bytes(),
            PacketView::Connected(p) => p.bytes(),
        }
    }
}

impl<B: Contents> View for Packet<Vec<Frame<B>>> {
    type V = PacketView;

    open spec fn view(&self) -> PacketView {
        match self {
            Packet::Unconnected(p) => PacketView::Unconnected(p@),
            Packet::Connected(p) => PacketView::Connected(p@),
        }
    }
}

/// The packet that `s` starts with, and how many bytes it takes. There is none in an empty `s`,
/// nor in one that starts with a zero byte, which is dropped whole.
pub open spec fn parse_packet(s: Seq<u8>) -> Result<(Option<PacketView>, int), CodecError> {
    if s.len() == 0 || s[0] == 0 {
        Ok((None, s.len() as int))
    } else {
        match type_of(s[0]) {
            None => Err(CodecError::InvalidPacketType(s[0])),
            Some(t) => {
                if t is FrameSet || t is Ack || t is Nack {
                    match connected::parse_connected(t, s.skip(1)) {
                        Ok((p, n)) => Ok((Some(PacketView::Connected(p)), 1 + n)),
                        Err(e) => Err(e),
                    }
                } else {
                    match unconnected::parse_unconnected(t, s.skip(1)) {
                        Ok((p, n)) => Ok((Some(PacketView::Unconnected(p)), 1 + n)),
                        Err(e) => Err(e),
                    }
                }
            },
        }
    }
}

impl Packet<Vec<Frame<BytesMut>>> {
    /// Takes a packet off the front of `buf`. `None` asks for more data.
    pub fn read(buf: &mut BytesMut) -> (r: Result<Option<Self>, CodecError>)
        ensures
            match parse_packet(old(buf).seq()) {
                Ok((None, n)) => r == Ok::<Option<Self>, CodecError>(None) && final(buf).seq().len()
                    == 0,
                Ok((Some(p), n)) => {
                    &&& r is Ok && r->Ok_0 is Some && r->Ok_0->Some_0@ == p
                    &&& p matches PacketView::Connected(c) ==> c.wf()
                    &&& final(buf).seq() == old(buf).seq().skip(n)
                },
                Err(e) => r == Err::<Option<Self>, CodecError>(e),
            },
            is_tail(final(buf).seq(), old(buf).seq()),
    {
        let ghost s = buf.seq();
        if remaining(buf) == 0 {
            return Ok(None);
        }
        if chunk(buf)[0] == 0 {
            clear(buf);
            return Ok(None);
        }
        let id: u8 = get_u8(buf);
        let pack_type = match PackType::from_u8(id) {
            Ok(t) => t,
            Err(e) => {
                return Err(e);
            },
        };
        proof {
            lemma_type_of(id, pack_type);
        }
        let ghost body = buf.seq();
        if pack_type.is_frame_set() {
            let r = connected::Packet::read_frame_set(buf);
            proof {
                lemma_behind_type(s, buf.seq());
            }
            return Packet::connected(r);
        }
        if pack_type.is_ack() {
            let r = connected::Packet::read_ack(buf);
            proof {
                lemma_behind_type(s, buf.seq());
            }
            return Packet::connected(r);
        }
        if pack_type.is_nack() {
            let r = connected::Packet::read_nack(buf);
            proof {
                lemma_behind_type(s, buf.seq());
            }
            return Packet::connected(r);
        }
        let r = Packet::read_unconnected(buf, pack_type);
        proof {
            lemma_behind_type(s, buf.seq());
        }
        match r {
            Ok(packet) => Ok(Some(Packet::Unconnected(packet))),
            Err(e) => Err(e),
        }
    }

    fn connected(r: Result<connected::Packet<Vec<Frame<BytesMut>>>, CodecError>) -> (res: Result<
        Option<Self>,
        CodecError,
    >)
        ensures
            match r {
                Ok(p) => res == Ok::<Option<Self>, CodecError>(Some(Packet::Connected(p))),
                Err(e) => res == Err::<Option<Self>, CodecError>(e),
            },
    {
        match r {
            Ok(p) => Ok(Some(Packet::Connected(p))),
            Err(e) => Err(e),
        }
    }

    fn read_unconnected(buf: &mut BytesMut, pack_type: PackType) -> (r: Result<
        unconnected::Packet<Bytes>,
        CodecError,
    >)
        requires
            !(pack_type is FrameSet || pack_type is Ack || pack_type is Nack),
        ensures
            unconnected::agrees(
                r,
                final(buf).seq(),
                old(buf).seq(),
                unconnected::parse_unconnected(pack_type, old(buf).seq()),
            ),
    {
        let len: usize = remaining(buf);
        let least: usize = match pack_type {
            PackType::UnconnectedPing1 | PackType::UnconnectedPing2 => 32,
            PackType::UnconnectedPong => 34,
            PackType::OpenConnectionRequest1 => 19,
            PackType::OpenConnectionReply1 => 27,
            PackType::IncompatibleProtocolVersion => 25,
            PackType::AlreadyConnected => 24,
            PackType::ConnectionRequestFailed => 24,
            _ => 0,
        };
        if len < least {
            return Err(CodecError::InvalidPacketLength(SIZED));
        }
        match pack_type {
            PackType::UnconnectedPing1 | PackType::UnconnectedPing2 => {
                unconnected::Packet::read_unconnected_ping(buf)
            },
            PackType::UnconnectedPong => unconnected::Packet::read_unconnected_pong(buf),
            PackType::OpenConnectionRequest1 => {
                unconnected::Packet::read_open_connection_request1(buf)
            },
            PackType::OpenConnectionReply1 => unconnected::Packet::read_open_connection_reply1(buf),
            PackType::IncompatibleProtocolVersion => {
                unconnected::Packet::read_incompatible_protocol(buf)
            },
            PackType::AlreadyConnected => unconnected::Packet::read_already_connected(buf),
            PackType::ConnectionRequestFailed => {
                unconnected::Packet::read_connection_request_failed(buf)
            },
            PackType::OpenConnectionRequest2 => {
                unconnected::Packet::read_open_connection_request2(buf)
            },
            PackType::OpenConnectionReply2 => unconnected::Packet::read_open_connection_reply2(buf),
            _ => Err(CodecError::InvalidPacketType(pack_type.to_u8())),
        }
    }
}

impl<B: Body> Packet<Vec<Frame<B>>> {
    /// Appends the packet to `buf`.
    pub fn write(self, buf: &mut BytesMut)
        requires
            self@.writable(),
        ensures
            final(buf).seq() == old(buf).seq() + self@.bytes(),
    {
        match self {
            Packet::Unconnected(packet) => {
                packet.write(buf);
            },
            Packet::Connected(packet) => {
                packet.write(buf);
            },
        }
    }
}

proof fn lemma_behind_type(s: Seq<u8>, left: Seq<u8>)
    requires
        s.len() > 0,
        is_tail(left, s.skip(1)),
    ensures
        is_tail(left, s),
        forall|n: int| 0 <= n < s.len() ==> s.skip(1).skip(n) == #[trigger] s.skip(1 + n),
{
    assert(left =~= s.skip(s.len() - left.len()));
    assert forall|n: int| 0 <= n < s.len() implies s.skip(1).skip(n) == #[trigger] s.skip(1 + n) by {
        assert(s.skip(1).skip(n) =~= s.skip(1 + n));
    }
}

/// A packet that was written is read back as it was.
pub proof fn lemma_packet_roundtrip(p: PacketView)
    requires
        p.readable(),
    ensures
        parse_packet(p.bytes()) == Ok::<(Option<PacketView>, int), CodecError>(
            (Some(p), p.bytes().len() as int),
        ),
{
    let s = p.bytes();
    match p {
        PacketView::Unconnected(u) => {
            unconnected::lemma_unconnected_roundtrip(u, Seq::empty());
            assert(s + Seq::empty() =~= s);
            lemma_type_of(s[0], u.spec_pack_type());
        },
        PacketView::Connected(c) => match c {
            connected::PacketView::FrameSet(seq_num, fs) => {
                lemma_type_of(s[0], PackType::FrameSet);
                lemma_frame_set_roundtrip(seq_num, fs);
                assert(s.skip(1) =~= crate::packet::connected::frame_set::frame_set_bytes(
                    seq_num,
                    fs,
                ));
            },
            connected::PacketView::Ack(rs) => {
                lemma_type_of(s[0], PackType::Ack);
                lemma_ack_roundtrip(rs, Seq::empty());
                assert(s.skip(1) =~= crate::packet::connected::ack::ack_bytes(rs) + Seq::empty());
            },
            connected::PacketView::Nack(rs) => {
                lemma_type_of(s[0], PackType::Nack);
                lemma_ack_roundtrip(rs, Seq::empty());
                assert(s.skip(1) =~= crate::packet::connected::ack::ack_bytes(rs) + Seq::empty());
            },
        },
    }
}

} // verus!
