//! Datagrams in and out of a socket: what was received is decoded, one packet per datagram, and
//! what is to be sent is encoded.
use bytes::{Bytes, BytesMut};
use vstd::prelude::*;

use crate::buf::{clear, new_buf, remaining, Contents};
use crate::errors::CodecError;
use crate::packet::address::SocketAddr;
use crate::packet::connected::frame::Frame;
use crate::packet::connected::packet as connected;
use crate::packet::datagram::{parse_packet, Packet, PacketView};
use crate::packet::unconnected;

verus! {

/// A base structure for socket communication. It supports both receiving and sending unconnected
/// and connected packets.
pub struct Framed {
    /// A buffer for storing incoming data read from the socket.
    pub rd: BytesMut,
    /// A buffer for writing bytes.
    pub wr: BytesMut,
    /// The socket address to which the data will be sent.
    pub out_addr: SocketAddr,
    /// Indicates whether the data has been sent to the peer, and the `wr` buffer has been cleared.
    pub flushed: bool,
    /// The address of the peer whose datagram was written into the `rd` buffer and is ready for
    /// decoding.
    pub readable: Option<SocketAddr>,
}

impl Framed {
    /// Nothing was received and nothing is to be sent.
    pub fn new() -> (r: Framed)
        ensures
            r.rd.seq() == Seq::<u8>::empty(),
            r.wr.seq() == Seq::<u8>::empty(),
            r.out_addr == (SocketAddr::V4 { ip: 0, port: 0 }),
            r.flushed,
            r.readable is None,
    {
        Framed {
            rd: new_buf(),
            wr: new_buf(),
            out_addr: SocketAddr::V4 { ip: 0, port: 0 },
            flushed: true,
            readable: None,
        }
    }

    /// A datagram from `addr` was written into `rd`.
    pub fn received(&mut self, addr: SocketAddr)
        ensures
            *final(self) == (Framed { readable: Some(addr), ..*old(self) }),
    {
        self.readable = Some(addr);
    }

    /// No datagram could be received.
    pub fn receive_failed(&mut self)
        ensures
            final(self).rd.seq() == Seq::<u8>::empty(),
            *final(self) == (Framed { rd: final(self).rd, ..*old(self) }),
    {
        clear(&mut self.rd);
    }

    /// Decodes the datagram that was received, where there is one. `None` asks for the next one.
    /// Whatever came of it, the datagram is used up.
    pub fn decode(&mut self) -> (r: Result<
        Option<(Packet<Vec<Frame<BytesMut>>>, SocketAddr)>,
        CodecError,
    >)
        ensures
            final(self).readable is None,
            final(self).wr == old(self).wr,
            final(self).out_addr == old(self).out_addr,
            final(self).flushed == old(self).flushed,
            match old(self).readable {
                None => r matches Ok(None) && final(self).rd == old(self).rd,
                Some(addr) => {
                    &&& final(self).rd.seq() == Seq::<u8>::empty()
                    &&& match parse_packet(old(self).rd.seq()) {
                        Ok((None, _)) => r matches Ok(None),
                        Ok((Some(p), _)) => r matches Ok(Some((packet, from))) && packet@ == p
                            && from == addr && (p matches PacketView::Connected(c) ==> c.wf()),
                        Err(e) => r matches Err(f) && f == e,
                    }
                },
            },
    {
        let addr = match self.readable {
            Some(addr) => addr,
            None => {
                return Ok(None);
            },
        };
        self.readable = None;
        // decode one packet at a time
        let res = Packet::read(&mut self.rd);
        clear(&mut self.rd);
        match res {
            Ok(Some(packet)) => Ok(Some((packet, addr))),
            Ok(None) => Ok(None),
            Err(e) => Err(e),
        }
    }

    /// Whether the next packet may be written: what was written before is sent.
    pub fn ready(&self) -> (r: bool)
        ensures
            r == self.flushed,
    {
        self.flushed
    }

    /// Something was written into `wr` that is to be sent to `addr`.
    pub fn written(&mut self, addr: SocketAddr)
        ensures
            *final(self) == (Framed { out_addr: addr, flushed: false, ..*old(self) }),
    {
        self.out_addr = addr;
        self.flushed = false;
    }

    /// Writes a packet of an established connection that is to be sent to `addr`. The frames stay
    /// with their owner.
    pub fn send_connected<'a>(
        &mut self,
        packet: connected::Packet<&'a [Frame<Bytes>]>,
        addr: SocketAddr,
    )
        requires
            packet@.writable(),
        ensures
            final(self).wr.seq() == old(self).wr.seq() + packet@.bytes(),
            *final(self) == (Framed {
                wr: final(self).wr,
                out_addr: addr,
                flushed: false,
                ..*old(self)
            }),
    {
        packet.write_ref(&mut self.wr);
        self.written(addr);
    }

    /// Writes an unconnected packet that is to be sent to `addr`.
    pub fn send_unconnected(&mut self, packet: unconnected::Packet<Bytes>, addr: SocketAddr)
        ensures
            final(self).wr.seq() == old(self).wr.seq() + packet@.bytes(),
            *final(self) == (Framed {
                wr: final(self).wr,
                out_addr: addr,
                flushed: false,
                ..*old(self)
            }),
    {
        packet.write(&mut self.wr);
        self.written(addr);
    }

    /// The socket took `n` bytes of the datagram. Returns whether that was all of it; the rest is
    /// not sent.
    pub fn sent(&mut self, n: usize) -> (r: bool)
        ensures
            r == (n == old(self).wr.seq().len()),
            final(self).wr.seq() == Seq::<u8>::empty(),
            *final(self) == (Framed { wr: final(self).wr, flushed: true, ..*old(self) }),
    {
        let wrote_all = n == remaining(&self.wr);
        clear(&mut self.wr);
        self.flushed = true;
        wrote_all
    }
}

} // verus!
