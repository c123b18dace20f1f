//! The packets that are exchanged before a connection is established.
use bytes::{Bytes, BytesMut};
use vstd::prelude::*;

use crate::buf::{
    bytes_len, freeze, get_i64, get_u16, get_u64, get_u8, put_bytes, put_i64, put_u16, put_u64,
    put_u8, remaining, split_to, Contents,
};
use crate::errors::CodecError;
use crate::packet::address::{
    get_socket_addr, lemma_addr_len, lemma_addr_roundtrip, put_socket_addr, SocketAddr, SIZED,
};
use crate::packet::magic::{check_magic, get_checked_magic, lemma_magic_accepted, put_magic, MAGIC};
use crate::packet::pack_type::PackType;
use crate::wire::{
    be_at, be_bytes, i64_at, i64_bits, is_tail, lemma_at_skip, lemma_be_roundtrip,
    lemma_i64_bits_roundtrip, lemma_pow256_values,
};

verus! {

/// A request or a reply that is sent before a connection is established.
#[derive(Debug, Clone, PartialEq, Eq)]
pub enum Packet<D> {
    UnconnectedPing { send_timestamp: i64, client_guid: u64 },
    UnconnectedPong { send_timestamp: i64, server_guid: u64, data: D },
    OpenConnectionRequest1 { protocol_version: u8, mtu: u16 },
    OpenConnectionReply1 { server_guid: u64, use_encryption: bool, mtu: u16 },
    OpenConnectionRequest2 { server_address: SocketAddr, mtu: u16, client_guid: u64 },
    OpenConnectionReply2 {
        server_guid: u64,
        client_address: SocketAddr,
        mtu: u16,
        encryption_enabled: bool,
    },
    IncompatibleProtocol { server_protocol: u8, server_guid: u64 },
    AlreadyConnected { server_guid: u64 },
    ConnectionRequestFailed { server_guid: u64 },
}

impl<D: Contents> View for Packet<D> {
    type V = Packet<Seq<u8>>;

    open spec fn view(&self) -> Packet<Seq<u8>> {
        match *self {
            Packet::UnconnectedPing { send_timestamp, client_guid } => Packet::UnconnectedPing {
                send_timestamp,
                client_guid,
            },
            Packet::UnconnectedPong { send_timestamp, server_guid, data } => {
                Packet::UnconnectedPong { send_timestamp, server_guid, data: data.seq() }
            },
            Packet::OpenConnectionRequest1 { protocol_version, mtu } => {
                Packet::OpenConnectionRequest1 { protocol_version, mtu }
            },
            Packet::OpenConnectionReply1 { server_guid, use_encryption, mtu } => {
                Packet::OpenConnectionReply1 { server_guid, use_encryption, mtu }
            },
            Packet::OpenConnectionRequest2 { server_address, mtu, client_guid } => {
                Packet::OpenConnectionRequest2 { server_address, mtu, client_guid }
            },
            Packet::OpenConnectionReply2 {
                server_guid,
                client_address,
                mtu,
                encryption_enabled,
            } => Packet::OpenConnectionReply2 {
                server_guid,
                client_address,
                mtu,
                encryption_enabled,
            },
            Packet::IncompatibleProtocol { server_protocol, server_guid } => {
                Packet::IncompatibleProtocol { server_protocol, server_guid }
            },
            Packet::AlreadyConnected { server_guid } => Packet::AlreadyConnected { server_guid },
            Packet::ConnectionRequestFailed { server_guid } => {
                Packet::ConnectionRequestFailed { server_guid }
            },
        }
    }
}

impl<D> Packet<D> {
    /// The type that announces the packet. A ping is announced as `UnconnectedPing1`.
    pub open spec fn spec_pack_type(self) -> PackType {
        match self {
            Packet::UnconnectedPing { .. } => PackType::UnconnectedPing1,
            Packet::UnconnectedPong { .. } => PackType::UnconnectedPong,
            Packet::OpenConnectionRequest1 { .. } => PackType::OpenConnectionRequest1,
            Packet::OpenConnectionReply1 { .. } => PackType::OpenConnectionReply1,
            Packet::OpenConnectionRequest2 { .. } => PackType::OpenConnectionRequest2,
            Packet::OpenConnectionReply2 { .. } => PackType::OpenConnectionReply2,
            Packet::IncompatibleProtocol { .. } => PackType::IncompatibleProtocolVersion,
            Packet::AlreadyConnected { .. } => PackType::AlreadyConnected,
            Packet::ConnectionRequestFailed { .. } => PackType::ConnectionRequestFailed,
        }
    }

    /// The type that announces the packet.
    pub fn pack_type(&self) -> (r: PackType)
        ensures
            r == self.spec_pack_type(),
    {
        match self {
            Packet::UnconnectedPing { .. } => PackType::UnconnectedPing1,
            Packet::UnconnectedPong { .. } => PackType::UnconnectedPong,
            Packet::OpenConnectionRequest1 { .. } => PackType::OpenConnectionRequest1,
            Packet::OpenConnectionReply1 { .. } => PackType::OpenConnectionReply1,
            Packet::OpenConnectionRequest2 { .. } => PackType::OpenConnectionRequest2,
            Packet::OpenConnectionReply2 { .. } => PackType::OpenConnectionReply2,
            Packet::IncompatibleProtocol { .. } => PackType::IncompatibleProtocolVersion,
            Packet::AlreadyConnected { .. } => PackType::AlreadyConnected,
            Packet::ConnectionRequestFailed { .. } => PackType::ConnectionRequestFailed,
        }
    }
}

impl Packet<Seq<u8>> {
    /// The packet as it is written. Whether there is encryption is not passed on: the library
    /// offers none, and the field is written as 0. A length is cut down to its field.
    pub open spec fn bytes(self) -> Seq<u8> {
        seq![self.spec_pack_type().code()] + match self {
            Packet::UnconnectedPing { send_timestamp, client_guid } => {
                be_bytes(i64_bits(send_timestamp), 8) + MAGIC@ + be_bytes(client_guid as nat, 8)
            },
            Packet::UnconnectedPong { send_timestamp, server_guid, data } => {
                be_bytes(i64_bits(send_timestamp), 8) + be_bytes(server_guid as nat, 8) + MAGIC@
                    + be_bytes(data.len(), 2) + data
            },
            Packet::OpenConnectionRequest1 { protocol_version, mtu } => {
                MAGIC@ + seq![protocol_version] + be_bytes(mtu as nat, 2)
            },
            Packet::OpenConnectionReply1 { server_guid, use_encryption, mtu } => {
                MAGIC@ + be_bytes(server_guid as nat, 8) + seq![0u8] + be_bytes(mtu as nat, 2)
            },
            Packet::OpenConnectionRequest2 { server_address, mtu, client_guid } => {
                MAGIC@ + server_address.bytes() + be_bytes(mtu as nat, 2) + be_bytes(
                    client_guid as nat,
                    8,
                )
            },
            Packet::OpenConnectionReply2 {
                server_guid,
                client_address,
                mtu,
                encryption_enabled,
            } => {
                MAGIC@ + be_bytes(server_guid as nat, 8) + client_address.bytes() + be_bytes(
                    mtu as nat,
                    2,
                ) + seq![0u8]
            },
            Packet::IncompatibleProtocol { server_protocol, server_guid } => {
                seq![server_protocol] + MAGIC@ + be_bytes(server_guid as nat, 8)
            },
            Packet::AlreadyConnected { server_guid } => MAGIC@ + be_bytes(server_guid as nat, 8),
            Packet::ConnectionRequestFailed { server_guid } => {
                MAGIC@ + be_bytes(server_guid as nat, 8)
            },
        }
    }

    /// What the packet says of encryption, and the length of its data, can be written.
    pub open spec fn faithful(self) -> bool {
        match self {
            Packet::UnconnectedPong { data, .. } => data.len() <= u16::MAX,
            Packet::OpenConnectionReply1 { use_encryption, .. } => !use_encryption,
            Packet::OpenConnectionReply2 { encryption_enabled, .. } => !encryption_enabled,
            _ => true,
        }
    }
}

/// A fixed number of bytes is missing.
pub open spec fn too_short<T>() -> Result<T, CodecError> {
    Err(CodecError::InvalidPacketLength(SIZED))
}

/// `p` in the first `n` bytes of `s`, where the magic sequence stands at `at` in it.
pub open spec fn with_magic(s: Seq<u8>, at: int, p: Packet<Seq<u8>>, n: int) -> Result<
    (Packet<Seq<u8>>, int),
    CodecError,
> {
    if s.len() < n {
        too_short()
    } else {
        match check_magic(s, at) {
            Err(e) => Err(e),
            Ok(_) => Ok((p, n)),
        }
    }
}

/// The ping behind its type.
pub open spec fn parse_ping(s: Seq<u8>) -> Result<(Packet<Seq<u8>>, int), CodecError> {
    with_magic(
        s,
        8,
        (Packet::UnconnectedPing {
            send_timestamp: i64_at(s, 0),
            client_guid: be_at(s, 24, 8) as u64,
        }),
        32,
    )
}

/// The pong behind its type. Its data are as long as it announces.
pub open spec fn parse_pong(s: Seq<u8>) -> Result<(Packet<Seq<u8>>, int), CodecError> {
    if s.len() < 34 {
        too_short()
    } else {
        match check_magic(s, 16) {
            Err(e) => Err(e),
            Ok(_) => {
                let len = be_at(s, 32, 2) as int;
                if s.len() < 34 + len {
                    too_short()
                } else {
                    Ok(
                        (
                            Packet::UnconnectedPong {
                                send_timestamp: i64_at(s, 0),
                                server_guid: be_at(s, 8, 8) as u64,
                                data: s.subrange(34, 34 + len),
                            },
                            34 + len,
                        ),
                    )
                }
            },
        }
    }
}

/// The first request behind its type.
pub open spec fn parse_request1(s: Seq<u8>) -> Result<(Packet<Seq<u8>>, int), CodecError> {
    with_magic(
        s,
        0,
        (Packet::OpenConnectionRequest1 { protocol_version: s[16], mtu: be_at(s, 17, 2) as u16 }),
        19,
    )
}

/// The first reply behind its type.
pub open spec fn parse_reply1(s: Seq<u8>) -> Result<(Packet<Seq<u8>>, int), CodecError> {
    with_magic(
        s,
        0,
        (Packet::OpenConnectionReply1 {
            server_guid: be_at(s, 16, 8) as u64,
            use_encryption: s[24] != 0,
            mtu: be_at(s, 25, 2) as u16,
        }),
        27,
    )
}

/// The second request behind its type.
pub open spec fn parse_request2(s: Seq<u8>) -> Result<(Packet<Seq<u8>>, int), CodecError> {
    if s.len() < 16 {
        too_short()
    } else {
        match check_magic(s, 0) {
            Err(e) => Err(e),
            Ok(_) => match SocketAddr::parse(s.skip(16)) {
                Err(e) => Err(e),
                Ok((server_address, n)) => {
                    if s.len() < 16 + n + 10 {
                        too_short()
                    } else {
                        Ok(
                            (
                                Packet::OpenConnectionRequest2 {
                                    server_address,
                                    mtu: be_at(s, 16 + n, 2) as u16,
                                    client_guid: be_at(s, 18 + n, 8) as u64,
                                },
                                26 + n,
                            ),
                        )
                    }
                },
            },
        }
    }
}

/// The second reply behind its type.
pub open spec fn parse_reply2(s: Seq<u8>) -> Result<(Packet<Seq<u8>>, int), CodecError> {
    if s.len() < 16 {
        too_short()
    } else {
        match check_magic(s, 0) {
            Err(e) => Err(e),
            Ok(_) => {
                if s.len() < 24 {
                    too_short()
                } else {
                    match SocketAddr::parse(s.skip(24)) {
                        Err(e) => Err(e),
                        Ok((client_address, n)) => {
                            if s.len() < 24 + n + 3 {
                                too_short()
                            } else {
                                Ok(
                                    (
                                        Packet::OpenConnectionReply2 {
                                            server_guid: be_at(s, 16, 8) as u64,
                                            client_address,
                                            mtu: be_at(s, 24 + n, 2) as u16,
                                            encryption_enabled: s[26 + n] != 0,
                                        },
                                        27 + n,
                                    ),
                                )
                            }
                        },
                    }
                }
            },
        }
    }
}

/// The refusal of a protocol version behind its type.
pub open spec fn parse_incompatible(s: Seq<u8>) -> Result<(Packet<Seq<u8>>, int), CodecError> {
    with_magic(
        s,
        1,
        (Packet::IncompatibleProtocol { server_protocol: s[0], server_guid: be_at(s, 17, 8) as u64 }),
        25,
    )
}

/// The notice that there is a connection already, behind its type.
pub open spec fn parse_already(s: Seq<u8>) -> Result<(Packet<Seq<u8>>, int), CodecError> {
    with_magic(
        s,
        0,
        (Packet::AlreadyConnected { server_guid: be_at(s, 16, 8) as u64 }),
        24,
    )
}

/// The refusal of a connection behind its type.
pub open spec fn parse_failed(s: Seq<u8>) -> Result<(Packet<Seq<u8>>, int), CodecError> {
    with_magic(
        s,
        0,
        (Packet::ConnectionRequestFailed { server_guid: be_at(s, 16, 8) as u64 }),
        24,
    )
}

/// `r`, and what is left of the buffer, are what the parse says.
pub open spec fn agrees(
    r: Result<Packet<Bytes>, CodecError>,
    left: Seq<u8>,
    s: Seq<u8>,
    parsed: Result<(Packet<Seq<u8>>, int), CodecError>,
) -> bool {
    &&& match parsed {
        Ok((p, n)) => r is Ok && r->Ok_0@ == p && left == s.skip(n) && 0 <= n <= s.len(),
        Err(e) => r == Err::<Packet<Bytes>, CodecError>(e),
    }
    &&& is_tail(left, s)
}

impl Packet<Bytes> {
    pub(crate) fn read_unconnected_ping(buf: &mut BytesMut) -> (r: Result<Self, CodecError>)
        requires
            old(buf).seq().len() >= 32,
        ensures
            agrees(r, final(buf).seq(), old(buf).seq(), parse_ping(old(buf).seq())),
    {
        let ghost s = buf.seq();
        let send_timestamp: i64 = get_i64(buf);
        proof {
            lemma_at_skip(s, 8, 0, 16);
            lemma_at_skip(s, 24, 0, 8);
        }
        if let Err(e) = get_checked_magic(buf) {
            return Err(e);
        }
        let client_guid: u64 = get_u64(buf);
        Ok(Packet::UnconnectedPing { send_timestamp, client_guid })
    }

    pub(crate) fn read_unconnected_pong(buf: &mut BytesMut) -> (r: Result<Self, CodecError>)
        requires
            old(buf).seq().len() >= 34,
        ensures
            agrees(r, final(buf).seq(), old(buf).seq(), parse_pong(old(buf).seq())),
    {
        let ghost s = buf.seq();
        proof {
            lemma_at_skip(s, 8, 0, 8);
            lemma_at_skip(s, 16, 0, 16);
            lemma_at_skip(s, 32, 0, 2);
        }
        let send_timestamp: i64 = get_i64(buf);
        let server_guid: u64 = get_u64(buf);
        if let Err(e) = get_checked_magic(buf) {
            return Err(e);
        }
        let len: u16 = get_u16(buf);
        if remaining(buf) < len as usize {
            return Err(CodecError::InvalidPacketLength(SIZED));
        }
        proof {
            lemma_at_skip(s, 34, 0, len as int);
        }
        let data = freeze(split_to(buf, len as usize));
        Ok(Packet::UnconnectedPong { send_timestamp, server_guid, data })
    }

    pub(crate) fn read_open_connection_request1(buf: &mut BytesMut) -> (r: Result<Self, CodecError>)
        requires
            old(buf).seq().len() >= 19,
        ensures
            agrees(r, final(buf).seq(), old(buf).seq(), parse_request1(old(buf).seq())),
    {
        let ghost s = buf.seq();
        proof {
            lemma_at_skip(s, 16, 0, 1);
            lemma_at_skip(s, 17, 0, 2);
        }
        if let Err(e) = get_checked_magic(buf) {
            return Err(e);
        }
        let protocol_version: u8 = get_u8(buf);
        let mtu: u16 = get_u16(buf);
        Ok(Packet::OpenConnectionRequest1 { protocol_version, mtu })
    }

    pub(crate) fn read_open_connection_reply1(buf: &mut BytesMut) -> (r: Result<Self, CodecError>)
        requires
            old(buf).seq().len() >= 27,
        ensures
            agrees(r, final(buf).seq(), old(buf).seq(), parse_reply1(old(buf).seq())),
    {
        let ghost s = buf.seq();
        proof {
            lemma_at_skip(s, 16, 0, 8);
            lemma_at_skip(s, 24, 0, 1);
            lemma_at_skip(s, 25, 0, 2);
        }
        if let Err(e) = get_checked_magic(buf) {
            return Err(e);
        }
        let server_guid: u64 = get_u64(buf);
        let use_encryption = get_u8(buf) != 0;
        let mtu: u16 = get_u16(buf);
        Ok(Packet::OpenConnectionReply1 { server_guid, use_encryption, mtu })
    }

    pub(crate) fn read_open_connection_request2(buf: &mut BytesMut) -> (r: Result<Self, CodecError>)
        ensures
            agrees(r, final(buf).seq(), old(buf).seq(), parse_request2(old(buf).seq())),
    {
        let ghost s = buf.seq();
        if remaining(buf) < 16 {
            return Err(CodecError::InvalidPacketLength(SIZED));
        }
        if let Err(e) = get_checked_magic(buf) {
            return Err(e);
        }
        let server_address = match get_socket_addr(buf) {
            Ok(addr) => addr,
            Err(e) => {
                return Err(e);
            },
        };
        let ghost n = s.len() - 16 - buf.seq().len();
        assert(buf.seq() =~= s.skip(16 + n));
        if remaining(buf) < 2 {
            return Err(CodecError::InvalidPacketLength(SIZED));
        }
        proof {
            lemma_at_skip(s, 16 + n, 0, 2);
        }
        let mtu: u16 = get_u16(buf);
        if remaining(buf) < 8 {
            return Err(CodecError::InvalidPacketLength(SIZED));
        }
        proof {
            lemma_at_skip(s, 18 + n, 0, 8);
        }
        let client_guid: u64 = get_u64(buf);
        Ok(Packet::OpenConnectionRequest2 { server_address, mtu, client_guid })
    }

    pub(crate) fn read_open_connection_reply2(buf: &mut BytesMut) -> (r: Result<Self, CodecError>)
        ensures
            agrees(r, final(buf).seq(), old(buf).seq(), parse_reply2(old(buf).seq())),
    {
        let ghost s = buf.seq();
        if remaining(buf) < 16 {
            return Err(CodecError::InvalidPacketLength(SIZED));
        }
        if let Err(e) = get_checked_magic(buf) {
            return Err(e);
        }
        if remaining(buf) < 8 {
            return Err(CodecError::InvalidPacketLength(SIZED));
        }
        proof {
            lemma_at_skip(s, 16, 0, 8);
        }
        let server_guid: u64 = get_u64(buf);
        let client_address = match get_socket_addr(buf) {
            Ok(addr) => addr,
            Err(e) => {
                return Err(e);
            },
        };
        let ghost n = s.len() - 24 - buf.seq().len();
        assert(buf.seq() =~= s.skip(24 + n));
        if remaining(buf) < 2 {
            return Err(CodecError::InvalidPacketLength(SIZED));
        }
        proof {
            lemma_at_skip(s, 24 + n, 0, 2);
        }
        let mtu: u16 = get_u16(buf);
        if remaining(buf) < 1 {
            return Err(CodecError::InvalidPacketLength(SIZED));
        }
        proof {
            lemma_at_skip(s, 26 + n, 0, 1);
        }
        let encryption_enabled = get_u8(buf) != 0;
        Ok(Packet::OpenConnectionReply2 { server_guid, client_address, mtu, encryption_enabled })
    }

    pub(crate) fn read_incompatible_protocol(buf: &mut BytesMut) -> (r: Result<Self, CodecError>)
        requires
            old(buf).seq().len() >= 25,
        ensures
            agrees(r, final(buf).seq(), old(buf).seq(), parse_incompatible(old(buf).seq())),
    {
        let ghost s = buf.seq();
        proof {
            lemma_at_skip(s, 1, 0, 16);
            lemma_at_skip(s, 17, 0, 8);
        }
        let server_protocol: u8 = get_u8(buf);
        if let Err(e) = get_checked_magic(buf) {
            return Err(e);
        }
        let server_guid: u64 = get_u64(buf);
        Ok(Packet::IncompatibleProtocol { server_protocol, server_guid })
    }

    pub(crate) fn read_already_connected(buf: &mut BytesMut) -> (r: Result<Self, CodecError>)
        requires
            old(buf).seq().len() >= 24,
        ensures
            agrees(r, final(buf).seq(), old(buf).seq(), parse_already(old(buf).seq())),
    {
        let ghost s = buf.seq();
        proof {
            lemma_at_skip(s, 16, 0, 8);
        }
        if let Err(e) = get_checked_magic(buf) {
            return Err(e);
        }
        let server_guid: u64 = get_u64(buf);
        Ok(Packet::AlreadyConnected { server_guid })
    }

    pub(crate) fn read_connection_request_failed(buf: &mut BytesMut) -> (r: Result<
        Self,
        CodecError,
    >)
        requires
            old(buf).seq().len() >= 24,
        ensures
            agrees(r, final(buf).seq(), old(buf).seq(), parse_failed(old(buf).seq())),
    {
        let ghost s = buf.seq();
        proof {
            lemma_at_skip(s, 16, 0, 8);
        }
        if let Err(e) = get_checked_magic(buf) {
            return Err(e);
        }
        let server_guid: u64 = get_u64(buf);
        Ok(Packet::ConnectionRequestFailed { server_guid })
    }

    /// Appends the packet to `buf`.
    pub fn write(self, buf: &mut BytesMut)
        ensures
            final(buf).seq() == old(buf).seq() + self@.bytes(),
    {
        let ghost view = self@;
        put_u8(buf, self.pack_type().to_u8());
        match self {
            Packet::UnconnectedPing { send_timestamp, client_guid } => {
                put_i64(buf, send_timestamp);
                put_magic(buf);
                put_u64(buf, client_guid);
            },
            Packet::UnconnectedPong { send_timestamp, server_guid, data } => {
                put_i64(buf, send_timestamp);
                put_u64(buf, server_guid);
                put_magic(buf);
                let len: usize = bytes_len(&data);
                proof {
                    lemma_be_low_bytes(len as nat);
                }
                put_u16(buf, (len % 0x1_0000) as u16);
                put_bytes(buf, data);
            },
            Packet::OpenConnectionRequest1 { protocol_version, mtu } => {
                put_magic(buf);
                put_u8(buf, protocol_version);
                put_u16(buf, mtu);
            },
            Packet::OpenConnectionReply1 { server_guid, use_encryption: _, mtu } => {
                put_magic(buf);
                put_u64(buf, server_guid);
                put_u8(buf, 0);
                put_u16(buf, mtu);
            },
            Packet::OpenConnectionRequest2 { server_address, mtu, client_guid } => {
                put_magic(buf);
                put_socket_addr(buf, server_address);
                put_u16(buf, mtu);
                put_u64(buf, client_guid);
            },
            Packet::OpenConnectionReply2 {
                server_guid,
                client_address,
                mtu,
                encryption_enabled: _,
            } => {
                put_magic(buf);
                put_u64(buf, server_guid);
                put_socket_addr(buf, client_address);
                put_u16(buf, mtu);
                put_u8(buf, 0);
            },
            Packet::IncompatibleProtocol { server_protocol, server_guid } => {
                put_u8(buf, server_protocol);
                put_magic(buf);
                put_u64(buf, server_guid);
            },
            Packet::AlreadyConnected { server_guid } => {
                put_magic(buf);
                put_u64(buf, server_guid);
            },
            Packet::ConnectionRequestFailed { server_guid } => {
                put_magic(buf);
                put_u64(buf, server_guid);
            },
        }
        assert(buf.seq() =~= old(buf).seq() + view.bytes());
    }
}

proof fn lemma_be_low_bytes(v: nat)
    ensures
        be_bytes(v, 2) == be_bytes(v % 0x1_0000, 2),
{
    reveal_with_fuel(be_bytes, 3);
    let w = v % 0x1_0000;
    assert(v % 256 == w % 256);
    assert((v / 256) % 256 == (w / 256) % 256);
}

/// The unconnected packet behind its type, for each type that announces one.
pub open spec fn parse_unconnected(t: PackType, s: Seq<u8>) -> Result<
    (Packet<Seq<u8>>, int),
    CodecError,
> {
    match t {
        PackType::UnconnectedPing1 => parse_ping(s),
        PackType::UnconnectedPing2 => parse_ping(s),
        PackType::UnconnectedPong => parse_pong(s),
        PackType::OpenConnectionRequest1 => parse_request1(s),
        PackType::OpenConnectionReply1 => parse_reply1(s),
        PackType::IncompatibleProtocolVersion => parse_incompatible(s),
        PackType::AlreadyConnected => parse_already(s),
        PackType::ConnectionRequestFailed => parse_failed(s),
        PackType::OpenConnectionRequest2 => parse_request2(s),
        PackType::OpenConnectionReply2 => parse_reply2(s),
        _ => Err(CodecError::InvalidPacketType(t.code())),
    }
}

proof fn lemma_field_at(before: Seq<u8>, v: nat, n: nat, after: Seq<u8>)
    requires
        n == 2 || n == 8,
        n == 2 ==> v < 0x1_0000,
        n == 8 ==> v < 0x1_0000_0000_0000_0000,
    ensures
        be_bytes(v, n).len() == n,
        be_at(before + be_bytes(v, n) + after, before.len() as int, n as int) == v,
{
    lemma_be_roundtrip(v, n);
    lemma_pow256_values();
    let at = before.len() as int;
    assert((before + be_bytes(v, n) + after).subrange(at, at + n) =~= be_bytes(v, n));
}

proof fn lemma_magic_at(before: Seq<u8>, after: Seq<u8>)
    ensures
        check_magic(before + MAGIC@ + after, before.len() as int) == Ok::<(), CodecError>(()),
{
    let at = before.len() as int;
    assert((before + MAGIC@ + after).subrange(at, at + 16) =~= MAGIC@);
    lemma_magic_accepted(before + MAGIC@ + after, at);
}

proof fn lemma_ping_roundtrip(p: Packet<Seq<u8>>, rest: Seq<u8>)
    requires
        p is UnconnectedPing,
        p.faithful(),
    ensures
        parse_ping((p.bytes() + rest).skip(1)) == Ok::<(Packet<Seq<u8>>, int), CodecError>(
            (p, p.bytes().len() - 1),
        ),
{
    let s = (p.bytes() + rest).skip(1);
    let none = Seq::<u8>::empty();
    if let Packet::UnconnectedPing { send_timestamp, client_guid } = p {
        let a = be_bytes(i64_bits(send_timestamp), 8);
        let b = be_bytes(client_guid as nat, 8);
        lemma_i64_bits_roundtrip(send_timestamp);
        lemma_field_at(none, i64_bits(send_timestamp), 8, MAGIC@ + b + rest);
        lemma_magic_at(a, b + rest);
        lemma_field_at(a + MAGIC@, client_guid as nat, 8, rest);
        assert(s =~= none + a + (MAGIC@ + b + rest));
        assert(s =~= a + MAGIC@ + (b + rest));
        assert(s =~= a + MAGIC@ + b + rest);
    }
}

proof fn lemma_pong_roundtrip(p: Packet<Seq<u8>>, rest: Seq<u8>)
    requires
        p is UnconnectedPong,
        p.faithful(),
    ensures
        parse_pong((p.bytes() + rest).skip(1)) == Ok::<(Packet<Seq<u8>>, int), CodecError>(
            (p, p.bytes().len() - 1),
        ),
{
    let s = (p.bytes() + rest).skip(1);
    let none = Seq::<u8>::empty();
    if let Packet::UnconnectedPong { send_timestamp, server_guid, data } = p {
        let a = be_bytes(i64_bits(send_timestamp), 8);
        let b = be_bytes(server_guid as nat, 8);
        let c = be_bytes(data.len(), 2);
        lemma_i64_bits_roundtrip(send_timestamp);
        lemma_field_at(none, i64_bits(send_timestamp), 8, b + MAGIC@ + c + data + rest);
        lemma_field_at(a, server_guid as nat, 8, MAGIC@ + c + data + rest);
        lemma_magic_at(a + b, c + data + rest);
        lemma_field_at(a + b + MAGIC@, data.len(), 2, data + rest);
        assert(s =~= none + a + (b + MAGIC@ + c + data + rest));
        assert(s =~= a + b + (MAGIC@ + c + data + rest));
        assert(s =~= a + b + MAGIC@ + (c + data + rest));
        assert(s =~= a + b + MAGIC@ + c + (data + rest));
        assert(s.subrange(34, 34int + data.len()) =~= data);
    }
}

proof fn lemma_request1_roundtrip(p: Packet<Seq<u8>>, rest: Seq<u8>)
    requires
        p is OpenConnectionRequest1,
        p.faithful(),
    ensures
        parse_request1((p.bytes() + rest).skip(1)) == Ok::<(Packet<Seq<u8>>, int), CodecError>(
            (p, p.bytes().len() - 1),
        ),
{
    let s = (p.bytes() + rest).skip(1);
    let none = Seq::<u8>::empty();
    if let Packet::OpenConnectionRequest1 { protocol_version, mtu } = p {
        let b = be_bytes(mtu as nat, 2);
        lemma_magic_at(none, seq![protocol_version] + b + rest);
        lemma_field_at(MAGIC@ + seq![protocol_version], mtu as nat, 2, rest);
        assert(s =~= none + MAGIC@ + (seq![protocol_version] + b + rest));
        assert(s =~= MAGIC@ + seq![protocol_version] + b + rest);
    }
}

proof fn lemma_reply1_roundtrip(p: Packet<Seq<u8>>, rest: Seq<u8>)
    requires
        p is OpenConnectionReply1,
        p.faithful(),
    ensures
        parse_reply1((p.bytes() + rest).skip(1)) == Ok::<(Packet<Seq<u8>>, int), CodecError>(
            (p, p.bytes().len() - 1),
        ),
{
    let s = (p.bytes() + rest).skip(1);
    let none = Seq::<u8>::empty();
    if let Packet::OpenConnectionReply1 { server_guid, use_encryption, mtu } = p {
        let a = be_bytes(server_guid as nat, 8);
        let b = be_bytes(mtu as nat, 2);
        lemma_magic_at(none, a + seq![0u8] + b + rest);
        lemma_field_at(MAGIC@, server_guid as nat, 8, seq![0u8] + b + rest);
        lemma_field_at(MAGIC@ + a + seq![0u8], mtu as nat, 2, rest);
        assert(s =~= none + MAGIC@ + (a + seq![0u8] + b + rest));
        assert(s =~= MAGIC@ + a + (seq![0u8] + b + rest));
        assert(s =~= MAGIC@ + a + seq![0u8] + b + rest);
    }
}

proof fn lemma_request2_roundtrip(p: Packet<Seq<u8>>, rest: Seq<u8>)
    requires
        p is OpenConnectionRequest2,
        p.faithful(),
    ensures
        parse_request2((p.bytes() + rest).skip(1)) == Ok::<(Packet<Seq<u8>>, int), CodecError>(
            (p, p.bytes().len() - 1),
        ),
{
    let s = (p.bytes() + rest).skip(1);
    let none = Seq::<u8>::empty();
    if let Packet::OpenConnectionRequest2 { server_address, mtu, client_guid } = p {
        let a = server_address.bytes();
        let b = be_bytes(mtu as nat, 2);
        let c = be_bytes(client_guid as nat, 8);
        lemma_magic_at(none, a + b + c + rest);
        lemma_addr_len(server_address);
        lemma_addr_roundtrip(server_address, b + c + rest);
        lemma_field_at(MAGIC@ + a, mtu as nat, 2, c + rest);
        lemma_field_at(MAGIC@ + a + b, client_guid as nat, 8, rest);
        assert(s =~= none + MAGIC@ + (a + b + c + rest));
        assert(s.skip(16) =~= a + (b + c + rest));
        assert(s =~= MAGIC@ + a + b + (c + rest));
        assert(s =~= MAGIC@ + a + b + c + rest);
    }
}

proof fn lemma_reply2_roundtrip(p: Packet<Seq<u8>>, rest: Seq<u8>)
    requires
        p is OpenConnectionReply2,
        p.faithful(),
    ensures
        parse_reply2((p.bytes() + rest).skip(1)) == Ok::<(Packet<Seq<u8>>, int), CodecError>(
            (p, p.bytes().len() - 1),
        ),
{
    let s = (p.bytes() + rest).skip(1);
    let none = Seq::<u8>::empty();
    if let Packet::OpenConnectionReply2 { server_guid, client_address, mtu, encryption_enabled } = p {
        let a = be_bytes(server_guid as nat, 8);
        let b = client_address.bytes();
        let c = be_bytes(mtu as nat, 2);
        lemma_magic_at(none, a + b + c + seq![0u8] + rest);
        lemma_field_at(MAGIC@, server_guid as nat, 8, b + c + seq![0u8] + rest);
        lemma_addr_len(client_address);
        lemma_addr_roundtrip(client_address, c + seq![0u8] + rest);
        lemma_field_at(MAGIC@ + a + b, mtu as nat, 2, seq![0u8] + rest);
        assert(s =~= none + MAGIC@ + (a + b + c + seq![0u8] + rest));
        assert(s =~= MAGIC@ + a + (b + c + seq![0u8] + rest));
        assert(s.skip(24) =~= b + (c + seq![0u8] + rest));
        assert(s =~= MAGIC@ + a + b + c + (seq![0u8] + rest));
    }
}

proof fn lemma_incompatible_roundtrip(p: Packet<Seq<u8>>, rest: Seq<u8>)
    requires
        p is IncompatibleProtocol,
        p.faithful(),
    ensures
        parse_incompatible((p.bytes() + rest).skip(1)) == Ok::<(Packet<Seq<u8>>, int), CodecError>(
            (p, p.bytes().len() - 1),
        ),
{
    let s = (p.bytes() + rest).skip(1);
    let none = Seq::<u8>::empty();
    if let Packet::IncompatibleProtocol { server_protocol, server_guid } = p {
        let a = be_bytes(server_guid as nat, 8);
        lemma_magic_at(seq![server_protocol], a + rest);
        lemma_field_at(seq![server_protocol] + MAGIC@, server_guid as nat, 8, rest);
        assert(s =~= seq![server_protocol] + MAGIC@ + (a + rest));
        assert(s =~= seq![server_protocol] + MAGIC@ + a + rest);
    }
}

proof fn lemma_already_roundtrip(p: Packet<Seq<u8>>, rest: Seq<u8>)
    requires
        p is AlreadyConnected,
        p.faithful(),
    ensures
        parse_already((p.bytes() + rest).skip(1)) == Ok::<(Packet<Seq<u8>>, int), CodecError>(
            (p, p.bytes().len() - 1),
        ),
{
    let s = (p.bytes() + rest).skip(1);
    let none = Seq::<u8>::empty();
    if let Packet::AlreadyConnected { server_guid } = p {
        let a = be_bytes(server_guid as nat, 8);
        lemma_magic_at(none, a + rest);
        lemma_field_at(MAGIC@, server_guid as nat, 8, rest);
        assert(s =~= none + MAGIC@ + (a + rest));
        assert(s =~= MAGIC@ + a + rest);
    }
}

proof fn lemma_failed_roundtrip(p: Packet<Seq<u8>>, rest: Seq<u8>)
    requires
        p is ConnectionRequestFailed,
        p.faithful(),
    ensures
        parse_failed((p.bytes() + rest).skip(1)) == Ok::<(Packet<Seq<u8>>, int), CodecError>(
            (p, p.bytes().len() - 1),
        ),
{
    let s = (p.bytes() + rest).skip(1);
    let none = Seq::<u8>::empty();
    if let Packet::ConnectionRequestFailed { server_guid } = p {
        let a = be_bytes(server_guid as nat, 8);
        lemma_magic_at(none, a + rest);
        lemma_field_at(MAGIC@, server_guid as nat, 8, rest);
        assert(s =~= none + MAGIC@ + (a + rest));
        assert(s =~= MAGIC@ + a + rest);
    }
}

/// An unconnected packet that was written is read back as it was, whatever follows it.
pub proof fn lemma_unconnected_roundtrip(p: Packet<Seq<u8>>, rest: Seq<u8>)
    requires
        p.faithful(),
    ensures
        p.bytes().len() > 0,
        p.bytes()[0] == p.spec_pack_type().code(),
        parse_unconnected(p.spec_pack_type(), (p.bytes() + rest).skip(1)) == Ok::<
            (Packet<Seq<u8>>, int),
            CodecError,
        >((p, p.bytes().len() - 1)),
{
    match p {
        Packet::UnconnectedPing { .. } => lemma_ping_roundtrip(p, rest),
        Packet::UnconnectedPong { .. } => lemma_pong_roundtrip(p, rest),
        Packet::OpenConnectionRequest1 { .. } => lemma_request1_roundtrip(p, rest),
        Packet::OpenConnectionReply1 { .. } => lemma_reply1_roundtrip(p, rest),
        Packet::OpenConnectionRequest2 { .. } => lemma_request2_roundtrip(p, rest),
        Packet::OpenConnectionReply2 { .. } => lemma_reply2_roundtrip(p, rest),
        Packet::IncompatibleProtocol { .. } => lemma_incompatible_roundtrip(p, rest),
        Packet::AlreadyConnected { .. } => lemma_already_roundtrip(p, rest),
        Packet::ConnectionRequestFailed { .. } => lemma_failed_roundtrip(p, rest),
    }
}

} // verus!
