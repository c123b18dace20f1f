//! Socket addresses as they stand in packets.
use bytes::BytesMut;
use vstd::prelude::*;

use crate::buf::{
    get_u128, get_u16, get_u32, get_u8, put_u128, put_u16, put_u32, put_u8, remaining, Contents,
};
use crate::errors::CodecError;
use crate::wire::{be_at, be_bytes, is_tail, lemma_be_roundtrip, lemma_pow256_values};

verus! {

/// The place named by every length check on fields of a fixed size.
pub const SIZED: &'static str = "particular sized pack";

/// An IPv6 address is announced with this family.
pub const IPV6_FAMILY: u16 = 0x17;

/// An internet socket address.
#[allow(inconsistent_fields)]
#[derive(Debug, Clone, Copy, PartialEq, Eq, Hash, Structural)]
pub enum SocketAddr {
    V4 { ip: u32, port: u16 },
    V6 { ip: u128, port: u16, flow_info: u32, scope_id: u32 },
}

impl SocketAddr {
    /// The address as it is written in a packet.
    pub open spec fn bytes(self) -> Seq<u8> {
        match self {
            SocketAddr::V4 { ip, port } => {
                seq![4u8] + be_bytes(ip as nat, 4) + be_bytes(port as nat, 2)
            },
            SocketAddr::V6 { ip, port, flow_info, scope_id } => {
                seq![6u8] + be_bytes(IPV6_FAMILY as nat, 2) + be_bytes(port as nat, 2) + be_bytes(
                    flow_info as nat,
                    4,
                ) + be_bytes(ip as nat, 16) + be_bytes(scope_id as nat, 4)
            },
        }
    }

    /// The address that `s` starts with, and how many bytes it takes.
    pub open spec fn parse(s: Seq<u8>) -> Result<(SocketAddr, int), CodecError> {
        if s.len() < 1 {
            Err(CodecError::InvalidPacketLength(SIZED))
        } else if s[0] == 4 {
            if s.len() < 7 {
                Err(CodecError::InvalidPacketLength(SIZED))
            } else {
                Ok((SocketAddr::V4 { ip: be_at(s, 1, 4) as u32, port: be_at(s, 5, 2) as u16 }, 7))
            }
        } else if s[0] == 6 {
            if s.len() < 29 {
                Err(CodecError::InvalidPacketLength(SIZED))
            } else if be_at(s, 1, 2) != IPV6_FAMILY {
                Err(CodecError::InvalidIPV6Family(be_at(s, 1, 2) as u16))
            } else {
                Ok(
                    (
                        SocketAddr::V6 {
                            ip: be_at(s, 9, 16) as u128,
                            port: be_at(s, 3, 2) as u16,
                            flow_info: be_at(s, 5, 4) as u32,
                            scope_id: be_at(s, 25, 4) as u32,
                        },
                        29,
                    ),
                )
            }
        } else {
            Err(CodecError::InvalidIPVer(s[0]))
        }
    }
}

/// Takes an address off the front of `buf`.
pub(crate) fn get_socket_addr(buf: &mut BytesMut) -> (r: Result<SocketAddr, CodecError>)
    ensures
        match SocketAddr::parse(old(buf).seq()) {
            Ok((addr, n)) => r == Ok::<SocketAddr, CodecError>(addr) && final(buf).seq() == old(
                buf,
            ).seq().skip(n),
            Err(e) => r == Err::<SocketAddr, CodecError>(e),
        },
        is_tail(final(buf).seq(), old(buf).seq()),
{
    let ghost s = buf.seq();
    if remaining(buf) < 1 {
        return Err(CodecError::InvalidPacketLength(SIZED));
    }
    let ver: u8 = get_u8(buf);
    match ver {
        4 => {
            if remaining(buf) < 6 {
                return Err(CodecError::InvalidPacketLength(SIZED));
            }
            assert(buf.seq().take(4) =~= s.subrange(1, 5));
            let ip: u32 = get_u32(buf);
            assert(buf.seq().take(2) =~= s.subrange(5, 7));
            let port: u16 = get_u16(buf);
            assert(buf.seq() =~= s.skip(7));
            Ok(SocketAddr::V4 { ip, port })
        },
        6 => {
            if remaining(buf) < 28 {
                return Err(CodecError::InvalidPacketLength(SIZED));
            }
            assert(buf.seq().take(2) =~= s.subrange(1, 3));
            let family: u16 = get_u16(buf);
            if family != IPV6_FAMILY {
                return Err(CodecError::InvalidIPV6Family(family));
            }
            assert(buf.seq().take(2) =~= s.subrange(3, 5));
            let port: u16 = get_u16(buf);
            assert(buf.seq().take(4) =~= s.subrange(5, 9));
            let flow_info: u32 = get_u32(buf);
            assert(buf.seq().take(16) =~= s.subrange(9, 25));
            let ip: u128 = get_u128(buf);
            assert(buf.seq().take(4) =~= s.subrange(25, 29));
            let scope_id: u32 = get_u32(buf);
            assert(buf.seq() =~= s.skip(29));
            Ok(SocketAddr::V6 { ip, port, flow_info, scope_id })
        },
        _ => Err(CodecError::InvalidIPVer(ver)),
    }
}

/// Appends an address to `buf`.
pub(crate) fn put_socket_addr(buf: &mut BytesMut, addr: SocketAddr)
    ensures
        final(buf).seq() == old(buf).seq() + addr.bytes(),
{
    match addr {
        SocketAddr::V4 { ip, port } => {
            put_u8(buf, 4);
            put_u32(buf, ip);
            put_u16(buf, port);
        },
        SocketAddr::V6 { ip, port, flow_info, scope_id } => {
            put_u8(buf, 6);
            put_u16(buf, IPV6_FAMILY);
            put_u16(buf, port);
            put_u32(buf, flow_info);
            put_u128(buf, ip);
            put_u32(buf, scope_id);
        },
    }
    assert(buf.seq() =~= old(buf).seq() + addr.bytes());
}

/// How many bytes an address takes in a packet.
pub proof fn lemma_addr_len(addr: SocketAddr)
    ensures
        addr.bytes().len() == (if addr is V4 {
            7int
        } else {
            29int
        }),
{
    match addr {
        SocketAddr::V4 { ip, port } => {
            lemma_be_roundtrip(ip as nat, 4);
            lemma_be_roundtrip(port as nat, 2);
        },
        SocketAddr::V6 { ip, port, flow_info, scope_id } => {
            lemma_be_roundtrip(IPV6_FAMILY as nat, 2);
            lemma_be_roundtrip(ip as nat, 16);
            lemma_be_roundtrip(port as nat, 2);
            lemma_be_roundtrip(flow_info as nat, 4);
            lemma_be_roundtrip(scope_id as nat, 4);
        },
    }
}

/// An address that was written is read back as it was, whatever follows it.
pub proof fn lemma_addr_roundtrip(addr: SocketAddr, rest: Seq<u8>)
    ensures
        SocketAddr::parse(addr.bytes() + rest) == Ok::<(SocketAddr, int), CodecError>(
            (addr, addr.bytes().len() as int),
        ),
{
    lemma_addr_len(addr);
    lemma_pow256_values();
    let s = addr.bytes() + rest;
    match addr {
        SocketAddr::V4 { ip, port } => {
            lemma_be_roundtrip(ip as nat, 4);
            lemma_be_roundtrip(port as nat, 2);
            assert(s.subrange(1, 5) =~= be_bytes(ip as nat, 4));
            assert(s.subrange(5, 7) =~= be_bytes(port as nat, 2));
        },
        SocketAddr::V6 { ip, port, flow_info, scope_id } => {
            lemma_be_roundtrip(IPV6_FAMILY as nat, 2);
            lemma_be_roundtrip(ip as nat, 16);
            lemma_be_roundtrip(port as nat, 2);
            lemma_be_roundtrip(flow_info as nat, 4);
            lemma_be_roundtrip(scope_id as nat, 4);
            assert(s.subrange(1, 3) =~= be_bytes(IPV6_FAMILY as nat, 2));
            assert(s.subrange(3, 5) =~= be_bytes(port as nat, 2));
            assert(s.subrange(5, 9) =~= be_bytes(flow_info as nat, 4));
            assert(s.subrange(9, 25) =~= be_bytes(ip as nat, 16));
            assert(s.subrange(25, 29) =~= be_bytes(scope_id as nat, 4));
        },
    }
}

} // verus!
