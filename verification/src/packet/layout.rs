//! The form on the wire of the packets that are exchanged before a connection is established, byte
//! by byte: where each field stands, how wide it is, and in which order its bytes come.
use vstd::prelude::*;

use crate::errors::CodecError;
use crate::packet::address::{lemma_addr_len, SocketAddr, IPV6_FAMILY};
use crate::packet::datagram::{parse_packet, PacketView};
use crate::packet::magic::{check_magic, magic_mismatch, MAGIC};
use crate::packet::pack_type::{lemma_type_of, PackType};
use crate::packet::unconnected::Packet;
use crate::wire::{
    be_at, be_bytes, i64_bits, le_at, le_bytes, le_value, lemma_at_skip, lemma_be_roundtrip,
    lemma_le_roundtrip, lemma_pow256_values, pow256,
};

verus! {

/// The two bytes at `at`, the more significant one first.
pub open spec fn be16(s: Seq<u8>, at: int) -> int {
    s[at] * 256 + s[at + 1]
}

/// The four bytes at `at`, the most significant one first.
pub open spec fn be32(s: Seq<u8>, at: int) -> int {
    be16(s, at) * 0x1_0000 + be16(s, at + 2)
}

/// The eight bytes at `at`, the most significant one first.
pub open spec fn be64(s: Seq<u8>, at: int) -> int {
    be32(s, at) * 0x1_0000_0000 + be32(s, at + 4)
}

/// The sixteen bytes at `at`, the most significant one first.
pub open spec fn be128(s: Seq<u8>, at: int) -> int {
    be64(s, at) * 0x1_0000_0000_0000_0000 + be64(s, at + 8)
}

/// The three bytes at `at`, the least significant one first.
pub open spec fn le24(s: Seq<u8>, at: int) -> int {
    s[at] + s[at + 1] * 0x100 + s[at + 2] * 0x1_0000
}

/// The eight bytes at `at` as a number in two's complement.
pub open spec fn signed64(s: Seq<u8>, at: int) -> int {
    if s[at] < 0x80 {
        be64(s, at)
    } else {
        be64(s, at) - 0x1_0000_0000_0000_0000
    }
}

/// The bytes of the magic sequence.
pub open spec fn magic_byte(i: int) -> u8 {
    seq![
        0x00u8,
        0xffu8,
        0xffu8,
        0x00u8,
        0xfeu8,
        0xfeu8,
        0xfeu8,
        0xfeu8,
        0xfdu8,
        0xfdu8,
        0xfdu8,
        0xfdu8,
        0x12u8,
        0x34u8,
        0x56u8,
        0x78u8,
    ][i]
}

/// The magic sequence stands at `at`.
pub open spec fn magic_stands(s: Seq<u8>, at: int) -> bool {
    forall|i: int| 0 <= i < 16 ==> s[at + i] == #[trigger] magic_byte(i)
}

/// The error names the first of the 16 bytes at `at` that breaks the magic sequence.
pub open spec fn names_break<T>(r: Result<T, CodecError>, s: Seq<u8>, at: int) -> bool {
    r matches Err(CodecError::MagicNotMatched(i, b)) && i < 16 && b == s[at + i] && b != magic_byte(
        i as int,
    ) && forall|j: int| 0 <= j < i ==> s[at + j] == #[trigger] magic_byte(j)
}

/// Bytes are missing.
pub open spec fn is_short<T>(r: Result<T, CodecError>) -> bool {
    r matches Err(CodecError::InvalidPacketLength(_))
}

pub(crate) proof fn lemma_be_step(s: Seq<u8>, at: int, n: int)
    requires
        0 <= at,
        0 <= n,
        at + n < s.len(),
    ensures
        be_at(s, at, n + 1) == be_at(s, at, n) * 256 + s[at + n],
{
    let t = s.subrange(at, at + n + 1);
    assert(t.drop_last() =~= s.subrange(at, at + n));
    assert(t.last() == s[at + n]);
}

/// A field of two bytes is read with the more significant byte first.
pub proof fn lemma_be16(s: Seq<u8>, at: int)
    requires
        0 <= at,
        at + 2 <= s.len(),
    ensures
        be_at(s, at, 2) == be16(s, at),
        0 <= be16(s, at) < 0x1_0000,
{
    assert(s.subrange(at, at) =~= Seq::<u8>::empty());
    lemma_be_step(s, at, 0);
    lemma_be_step(s, at, 1);
}

/// A field of four bytes is read with the most significant byte first.
pub proof fn lemma_be32(s: Seq<u8>, at: int)
    requires
        0 <= at,
        at + 4 <= s.len(),
    ensures
        be_at(s, at, 4) == be32(s, at),
        0 <= be32(s, at) < 0x1_0000_0000,
{
    lemma_be16(s, at);
    lemma_be16(s, at + 2);
    lemma_be_step(s, at, 2);
    lemma_be_step(s, at, 3);
}

/// A field of eight bytes is read with the most significant byte first.
pub proof fn lemma_be64(s: Seq<u8>, at: int)
    requires
        0 <= at,
        at + 8 <= s.len(),
    ensures
        be_at(s, at, 8) == be64(s, at),
        0 <= be64(s, at) < 0x1_0000_0000_0000_0000,
        s[at] < 0x80 <==> be64(s, at) < 0x8000_0000_0000_0000,
{
    lemma_be32(s, at);
    lemma_be32(s, at + 4);
    lemma_be_step(s, at, 4);
    lemma_be_step(s, at, 5);
    lemma_be_step(s, at, 6);
    lemma_be_step(s, at, 7);
}

/// A field of sixteen bytes is read with the most significant byte first.
pub proof fn lemma_be128(s: Seq<u8>, at: int)
    requires
        0 <= at,
        at + 16 <= s.len(),
    ensures
        be_at(s, at, 16) == be128(s, at),
        0 <= be128(s, at) < 0x1_0000_0000_0000_0000_0000_0000_0000_0000,
{
    lemma_be64(s, at);
    lemma_be64(s, at + 8);
    lemma_be_step(s, at, 8);
    lemma_be_step(s, at, 9);
    lemma_be_step(s, at, 10);
    lemma_be_step(s, at, 11);
    lemma_be_step(s, at, 12);
    lemma_be_step(s, at, 13);
    lemma_be_step(s, at, 14);
    lemma_be_step(s, at, 15);
}

/// A field of three bytes is read with the least significant byte first.
pub proof fn lemma_le24(s: Seq<u8>, at: int)
    requires
        0 <= at,
        at + 3 <= s.len(),
    ensures
        le_at(s, at, 3) == le24(s, at),
        0 <= le24(s, at) < 0x100_0000,
{
    reveal_with_fuel(le_value, 4);
    let t = s.subrange(at, at + 3);
    assert(t.drop_first().drop_first().drop_first().len() == 0);
    assert(t[0] == s[at] && t.drop_first()[0] == s[at + 1] && t.drop_first().drop_first()[0] == s[at
        + 2]);
}

/// What `n` bytes say that were written for `v`.
pub(crate) proof fn lemma_written(s: Seq<u8>, at: int, v: nat, n: nat)
    requires
        0 <= at,
        at + n <= s.len(),
        s.subrange(at, at + n) == be_bytes(v, n),
        v < pow256(n),
    ensures
        be_at(s, at, n as int) == v,
{
    lemma_be_roundtrip(v, n);
}

/// The lengths of written fields.
pub(crate) proof fn lemma_widths(v: nat)
    ensures
        be_bytes(v, 2).len() == 2,
        be_bytes(v, 4).len() == 4,
        be_bytes(v, 8).len() == 8,
        be_bytes(v, 16).len() == 16,
        le_bytes(v, 3).len() == 3,
{
    lemma_be_roundtrip(v, 2);
    lemma_be_roundtrip(v, 4);
    lemma_be_roundtrip(v, 8);
    lemma_be_roundtrip(v, 16);
    lemma_le_roundtrip(v, 3);
}

proof fn lemma_mismatch(t: Seq<u8>, i: int)
    requires
        t.len() == 16,
        0 <= i <= 16,
    ensures
        ({
            let m = magic_mismatch(t, i);
            &&& i <= m <= 16
            &&& m < 16 ==> t[m] != MAGIC@[m]
            &&& forall|j: int| i <= j < m ==> t[j] == #[trigger] MAGIC@[j]
        }),
    decreases 16 - i,
{
    if i < 16 {
        lemma_mismatch(t, i + 1);
    }
}

proof fn lemma_magic_bytes(i: int)
    requires
        0 <= i < 16,
    ensures
        MAGIC@[i] == magic_byte(i),
{
}

/// The magic sequence is taken for what it is just where each of its bytes stands at its place,
/// and where it is broken the error names the first byte that breaks it.
pub proof fn lemma_magic_check(s: Seq<u8>, at: int)
    requires
        0 <= at,
        at + 16 <= s.len(),
    ensures
        magic_stands(s, at) ==> check_magic(s, at) is Ok,
        !magic_stands(s, at) ==> names_break(check_magic(s, at), s, at),
{
    let t = s.subrange(at, at + 16);
    lemma_mismatch(t, 0);
    let m = magic_mismatch(t, 0);
    assert forall|i: int| 0 <= i < 16 implies MAGIC@[i] == #[trigger] magic_byte(i) by {
        lemma_magic_bytes(i);
    }
    if m < 16 {
        assert(s[at + m] == t[m]);
        assert(t[m] != magic_byte(m));
        assert forall|j: int| 0 <= j < m implies s[at + j] == #[trigger] magic_byte(j) by {
            assert(t[j] == MAGIC@[j]);
        }
    } else {
        assert forall|j: int| 0 <= j < 16 implies s[at + j] == #[trigger] magic_byte(j) by {
            assert(t[j] == MAGIC@[j]);
        }
    }
}

proof fn lemma_magic_written(s: Seq<u8>, at: int)
    requires
        0 <= at,
        at + 16 <= s.len(),
        s.subrange(at, at + 16) == MAGIC@,
    ensures
        magic_stands(s, at),
{
    assert forall|i: int| 0 <= i < 16 implies s[at + i] == #[trigger] magic_byte(i) by {
        lemma_magic_bytes(i);
        assert(s.subrange(at, at + 16)[i] == s[at + i]);
    }
}

proof fn lemma_magic_behind_type(s: Seq<u8>, at: int)
    requires
        1 <= at,
        at + 16 <= s.len(),
    ensures
        magic_stands(s, at) ==> check_magic(s.skip(1), at - 1) is Ok,
        !magic_stands(s, at) ==> names_break(check_magic(s.skip(1), at - 1), s, at),
{
    let t = s.skip(1);
    lemma_magic_check(t, at - 1);
    assert forall|i: int| 0 <= i < t.len() implies #[trigger] t[i] == s[i + 1] by {}
    if magic_stands(s, at) {
        assert forall|i: int| 0 <= i < 16 implies t[at - 1 + i] == #[trigger] magic_byte(i) by {
            assert(s[at + i] == magic_byte(i));
        }
    } else if magic_stands(t, at - 1) {
        assert forall|i: int| 0 <= i < 16 implies s[at + i] == #[trigger] magic_byte(i) by {
            assert(t[at - 1 + i] == magic_byte(i));
        }
    } else if let Err(CodecError::MagicNotMatched(m, b)) = check_magic(t, at - 1) {
        assert forall|j: int| 0 <= j < m implies s[at + j] == #[trigger] magic_byte(j) by {
            assert(t[at - 1 + j] == magic_byte(j));
        }
    }
}

proof fn lemma_number_behind_type(s: Seq<u8>, at: int)
    requires
        1 <= at <= s.len(),
    ensures
        at + 2 <= s.len() ==> be_at(s.skip(1), at - 1, 2) == be16(s, at) && 0 <= be16(s, at)
            < 0x1_0000,
        at + 4 <= s.len() ==> be_at(s.skip(1), at - 1, 4) == be32(s, at) && 0 <= be32(s, at)
            < 0x1_0000_0000,
        at + 8 <= s.len() ==> be_at(s.skip(1), at - 1, 8) == be64(s, at) && 0 <= be64(s, at)
            < 0x1_0000_0000_0000_0000 && (s[at] < 0x80 <==> be64(s, at) < 0x8000_0000_0000_0000),
{
    if at + 2 <= s.len() {
        lemma_at_skip(s, 1, at - 1, 2);
        lemma_be16(s, at);
    }
    if at + 4 <= s.len() {
        lemma_at_skip(s, 1, at - 1, 4);
        lemma_be32(s, at);
    }
    if at + 8 <= s.len() {
        lemma_at_skip(s, 1, at - 1, 8);
        lemma_be64(s, at);
    }
}

/// An address of version 4 takes 7 bytes: 4, the address and the port.
pub proof fn lemma_v4_written(ip: u32, port: u16)
    ensures
        ({
            let s = SocketAddr::V4 { ip, port }.bytes();
            &&& s.len() == 7
            &&& s[0] == 4
            &&& be32(s, 1) == ip
            &&& be16(s, 5) == port
        }),
{
    let s = SocketAddr::V4 { ip, port }.bytes();
    lemma_pow256_values();
    lemma_widths(ip as nat);
    lemma_widths(port as nat);
    assert(s.subrange(1, 5) =~= be_bytes(ip as nat, 4));
    assert(s.subrange(5, 7) =~= be_bytes(port as nat, 2));
    lemma_written(s, 1, ip as nat, 4);
    lemma_written(s, 5, port as nat, 2);
    lemma_be32(s, 1);
    lemma_be16(s, 5);
}

/// An address of version 6 takes 29 bytes: 6, the family, which is 0x17, the port, the flow
/// information, the address and the scope.
pub proof fn lemma_v6_written(ip: u128, port: u16, flow_info: u32, scope_id: u32)
    ensures
        ({
            let s = SocketAddr::V6 { ip, port, flow_info, scope_id }.bytes();
            &&& s.len() == 29
            &&& s[0] == 6
            &&& s[1] == 0
            &&& s[2] == 0x17
            &&& be16(s, 3) == port
            &&& be32(s, 5) == flow_info
            &&& be128(s, 9) == ip
            &&& be32(s, 25) == scope_id
        }),
{
    let s = SocketAddr::V6 { ip, port, flow_info, scope_id }.bytes();
    lemma_pow256_values();
    lemma_widths(IPV6_FAMILY as nat);
    lemma_widths(port as nat);
    lemma_widths(flow_info as nat);
    lemma_widths(ip as nat);
    lemma_widths(scope_id as nat);
    assert(s.subrange(1, 3) =~= be_bytes(IPV6_FAMILY as nat, 2));
    assert(s.subrange(3, 5) =~= be_bytes(port as nat, 2));
    assert(s.subrange(5, 9) =~= be_bytes(flow_info as nat, 4));
    assert(s.subrange(9, 25) =~= be_bytes(ip as nat, 16));
    assert(s.subrange(25, 29) =~= be_bytes(scope_id as nat, 4));
    lemma_written(s, 1, IPV6_FAMILY as nat, 2);
    lemma_written(s, 3, port as nat, 2);
    lemma_written(s, 5, flow_info as nat, 4);
    lemma_written(s, 9, ip as nat, 16);
    lemma_written(s, 25, scope_id as nat, 4);
    lemma_be16(s, 1);
    lemma_be16(s, 3);
    lemma_be32(s, 5);
    lemma_be128(s, 9);
    lemma_be32(s, 25);
}

/// How the bytes of an address are read: the first one gives the version, and no other version
/// than 4 and 6 is known; the family of the latter is 0x17. What stands behind does not matter.
pub proof fn lemma_address_read(s: Seq<u8>)
    ensures
        ({
            let r = SocketAddr::parse(s);
            &&& s.len() == 0 ==> is_short(r)
            &&& s.len() > 0 && s[0] == 4 && s.len() < 7 ==> is_short(r)
            &&& s.len() >= 7 && s[0] == 4 ==> r == Ok::<(SocketAddr, int), CodecError>(
                (SocketAddr::V4 { ip: be32(s, 1) as u32, port: be16(s, 5) as u16 }, 7),
            )
            &&& s.len() > 0 && s[0] == 6 && s.len() < 29 ==> is_short(r)
            &&& s.len() >= 29 && s[0] == 6 && s[1] == 0 && s[2] == 0x17 ==> r == Ok::<
                (SocketAddr, int),
                CodecError,
            >(
                (
                    SocketAddr::V6 {
                        ip: be128(s, 9) as u128,
                        port: be16(s, 3) as u16,
                        flow_info: be32(s, 5) as u32,
                        scope_id: be32(s, 25) as u32,
                    },
                    29,
                ),
            )
            &&& s.len() >= 29 && s[0] == 6 && !(s[1] == 0 && s[2] == 0x17) ==> r == Err::<
                (SocketAddr, int),
                CodecError,
            >(CodecError::InvalidIPV6Family(be16(s, 1) as u16))
            &&& s.len() > 0 && s[0] != 4 && s[0] != 6 ==> r == Err::<(SocketAddr, int), CodecError>(
                CodecError::InvalidIPVer(s[0]),
            )
        }),
{
    if s.len() >= 7 {
        lemma_be32(s, 1);
        lemma_be16(s, 5);
    }
    if s.len() >= 29 {
        lemma_be16(s, 1);
        lemma_be16(s, 3);
        lemma_be32(s, 5);
        lemma_be128(s, 9);
        lemma_be32(s, 25);
    }
}

/// The bytes of an address stand at `at`.
pub open spec fn addr_stands(s: Seq<u8>, at: int, addr: SocketAddr) -> bool {
    match addr {
        SocketAddr::V4 { ip, port } => {
            &&& at + 7 <= s.len()
            &&& s[at] == 4
            &&& be32(s, at + 1) == ip
            &&& be16(s, at + 5) == port
        },
        SocketAddr::V6 { ip, port, flow_info, scope_id } => {
            &&& at + 29 <= s.len()
            &&& s[at] == 6
            &&& s[at + 1] == 0
            &&& s[at + 2] == 0x17
            &&& be16(s, at + 3) == port
            &&& be32(s, at + 5) == flow_info
            &&& be128(s, at + 9) == ip
            &&& be32(s, at + 25) == scope_id
        },
    }
}

/// How many bytes an address takes.
pub open spec fn addr_width(addr: SocketAddr) -> int {
    match addr {
        SocketAddr::V4 { .. } => 7,
        SocketAddr::V6 { .. } => 29,
    }
}

pub(crate) proof fn lemma_addr_written(s: Seq<u8>, at: int, addr: SocketAddr)
    requires
        0 <= at,
        at + addr.bytes().len() <= s.len(),
        s.subrange(at, at + addr.bytes().len()) == addr.bytes(),
    ensures
        addr.bytes().len() == addr_width(addr),
        addr_stands(s, at, addr),
{
    let t = addr.bytes();
    lemma_addr_len(addr);
    assert forall|i: int| 0 <= i < t.len() implies #[trigger] s[at + i] == t[i] by {
        assert(s.subrange(at, at + t.len())[i] == s[at + i]);
    }
    match addr {
        SocketAddr::V4 { ip, port } => {
            lemma_v4_written(ip, port);
        },
        SocketAddr::V6 { ip, port, flow_info, scope_id } => {
            lemma_v6_written(ip, port, flow_info, scope_id);
        },
    }
}

pub(crate) proof fn lemma_addr_stands_read(s: Seq<u8>, at: int, addr: SocketAddr)
    requires
        0 <= at,
        addr_stands(s, at, addr),
    ensures
        SocketAddr::parse(s.skip(at)) == Ok::<(SocketAddr, int), CodecError>(
            (addr, addr_width(addr)),
        ),
{
    let t = s.skip(at);
    assert forall|i: int| 0 <= i < t.len() implies #[trigger] t[i] == s[at + i] by {}
    lemma_address_read(t);
}

/// A ping takes 33 bytes: 0x01, the time, the magic sequence and the id of the client.
pub proof fn lemma_ping_written(send_timestamp: i64, client_guid: u64)
    ensures
        ({
            let s = Packet::<Seq<u8>>::UnconnectedPing { send_timestamp, client_guid }.bytes();
            &&& s.len() == 33
            &&& s[0] == 0x01
            &&& signed64(s, 1) == send_timestamp
            &&& magic_stands(s, 9)
            &&& be64(s, 25) == client_guid
        }),
{
    let s = Packet::<Seq<u8>>::UnconnectedPing { send_timestamp, client_guid }.bytes();
    lemma_pow256_values();
    lemma_widths(i64_bits(send_timestamp));
    lemma_widths(client_guid as nat);
    assert(s.subrange(1, 9) =~= be_bytes(i64_bits(send_timestamp), 8));
    assert(s.subrange(9, 25) =~= MAGIC@);
    assert(s.subrange(25, 33) =~= be_bytes(client_guid as nat, 8));
    lemma_written(s, 1, i64_bits(send_timestamp), 8);
    lemma_written(s, 25, client_guid as nat, 8);
    lemma_magic_written(s, 9);
    lemma_be64(s, 1);
    lemma_be64(s, 25);
}

/// A datagram that starts with 0x01 or 0x02 is a ping, and its fields are read from where they
/// stand. One that is too short or whose magic sequence is broken is refused.
pub proof fn lemma_ping_read(s: Seq<u8>)
    requires
        s.len() > 0,
        s[0] == 0x01 || s[0] == 0x02,
    ensures
        s.len() < 33 ==> is_short(parse_packet(s)),
        s.len() >= 33 && !magic_stands(s, 9) ==> names_break(parse_packet(s), s, 9),
        s.len() >= 33 && magic_stands(s, 9) ==> parse_packet(s) == Ok::<
            (Option<PacketView>, int),
            CodecError,
        >(
            (
                Some(
                    PacketView::Unconnected(
                        Packet::UnconnectedPing {
                            send_timestamp: signed64(s, 1) as i64,
                            client_guid: be64(s, 25) as u64,
                        },
                    ),
                ),
                33,
            ),
        ),
{
    let t = if s[0] == 0x01 {
        PackType::UnconnectedPing1
    } else {
        PackType::UnconnectedPing2
    };
    lemma_type_of(s[0], t);
    if s.len() >= 33 {
        lemma_magic_behind_type(s, 9);
        lemma_number_behind_type(s, 1);
        lemma_number_behind_type(s, 25);
    }
}

/// A pong takes 35 bytes and its data: 0x1c, the time, the id of the server, the magic sequence,
/// the length of the data and the data.
pub proof fn lemma_pong_written(send_timestamp: i64, server_guid: u64, data: Seq<u8>)
    ensures
        ({
            let s = Packet::UnconnectedPong { send_timestamp, server_guid, data }.bytes();
            &&& s.len() == 35 + data.len()
            &&& s[0] == 0x1c
            &&& signed64(s, 1) == send_timestamp
            &&& be64(s, 9) == server_guid
            &&& magic_stands(s, 17)
            &&& data.len() <= u16::MAX ==> be16(s, 33) == data.len()
            &&& s.skip(35) == data
        }),
{
    let s = Packet::UnconnectedPong { send_timestamp, server_guid, data }.bytes();
    lemma_pow256_values();
    lemma_widths(i64_bits(send_timestamp));
    lemma_widths(server_guid as nat);
    lemma_widths(data.len());
    assert(s.subrange(1, 9) =~= be_bytes(i64_bits(send_timestamp), 8));
    assert(s.subrange(9, 17) =~= be_bytes(server_guid as nat, 8));
    assert(s.subrange(17, 33) =~= MAGIC@);
    assert(s.subrange(33, 35) =~= be_bytes(data.len(), 2));
    assert(s.skip(35) =~= data);
    lemma_written(s, 1, i64_bits(send_timestamp), 8);
    lemma_written(s, 9, server_guid as nat, 8);
    if data.len() <= u16::MAX {
        lemma_written(s, 33, data.len(), 2);
    }
    lemma_magic_written(s, 17);
    lemma_be64(s, 1);
    lemma_be64(s, 9);
    lemma_be16(s, 33);
}

/// A datagram that starts with 0x1c is a pong, and its fields are read from where they stand: the
/// data are as many bytes behind their length as it says.
pub proof fn lemma_pong_read(s: Seq<u8>)
    requires
        s.len() > 0,
        s[0] == 0x1c,
    ensures
        s.len() < 35 ==> is_short(parse_packet(s)),
        s.len() >= 35 && !magic_stands(s, 17) ==> names_break(parse_packet(s), s, 17),
        s.len() >= 35 && magic_stands(s, 17) && s.len() < 35 + be16(s, 33) ==> is_short(
            parse_packet(s),
        ),
        s.len() >= 35 + be16(s, 33) && s.len() >= 35 && magic_stands(s, 17) ==> parse_packet(s)
            == Ok::<(Option<PacketView>, int), CodecError>(
            (
                Some(
                    PacketView::Unconnected(
                        Packet::UnconnectedPong {
                            send_timestamp: signed64(s, 1) as i64,
                            server_guid: be64(s, 9) as u64,
                            data: s.subrange(35, 35 + be16(s, 33)),
                        },
                    ),
                ),
                35 + be16(s, 33),
            ),
        ),
{
    lemma_type_of(s[0], PackType::UnconnectedPong);
    if s.len() >= 35 {
        lemma_magic_behind_type(s, 17);
        lemma_number_behind_type(s, 1);
        lemma_number_behind_type(s, 9);
        lemma_number_behind_type(s, 33);
        if s.len() >= 35 + be16(s, 33) {
            lemma_at_skip(s, 1, 34, be16(s, 33));
        }
    }
}

/// The first request takes 20 bytes: 0x05, the magic sequence, the protocol version and the size
/// of a datagram.
pub proof fn lemma_request1_written(protocol_version: u8, mtu: u16)
    ensures
        ({
            let s = Packet::<Seq<u8>>::OpenConnectionRequest1 { protocol_version, mtu }.bytes();
            &&& s.len() == 20
            &&& s[0] == 0x05
            &&& magic_stands(s, 1)
            &&& s[17] == protocol_version
            &&& be16(s, 18) == mtu
        }),
{
    let s = Packet::<Seq<u8>>::OpenConnectionRequest1 { protocol_version, mtu }.bytes();
    lemma_pow256_values();
    lemma_widths(mtu as nat);
    assert(s.subrange(1, 17) =~= MAGIC@);
    assert(s.subrange(18, 20) =~= be_bytes(mtu as nat, 2));
    lemma_written(s, 18, mtu as nat, 2);
    lemma_magic_written(s, 1);
    lemma_be16(s, 18);
}

/// A datagram that starts with 0x05 is a first request, and its fields are read from where they
/// stand.
pub proof fn lemma_request1_read(s: Seq<u8>)
    requires
        s.len() > 0,
        s[0] == 0x05,
    ensures
        s.len() < 20 ==> is_short(parse_packet(s)),
        s.len() >= 20 && !magic_stands(s, 1) ==> names_break(parse_packet(s), s, 1),
        s.len() >= 20 && magic_stands(s, 1) ==> parse_packet(s) == Ok::<
            (Option<PacketView>, int),
            CodecError,
        >(
            (
                Some(
                    PacketView::Unconnected(
                        Packet::OpenConnectionRequest1 {
                            protocol_version: s[17],
                            mtu: be16(s, 18) as u16,
                        },
                    ),
                ),
                20,
            ),
        ),
{
    lemma_type_of(s[0], PackType::OpenConnectionRequest1);
    if s.len() >= 20 {
        lemma_magic_behind_type(s, 1);
        lemma_number_behind_type(s, 18);
    }
}

/// The first reply takes 28 bytes: 0x06, the magic sequence, the id of the server, 0 in the place
/// that tells of encryption, and the size of a datagram.
pub proof fn lemma_reply1_written(server_guid: u64, use_encryption: bool, mtu: u16)
    ensures
        ({
            let s = Packet::<Seq<u8>>::OpenConnectionReply1 {
                server_guid,
                use_encryption,
                mtu,
            }.bytes();
            &&& s.len() == 28
            &&& s[0] == 0x06
            &&& magic_stands(s, 1)
            &&& be64(s, 17) == server_guid
            &&& s[25] == 0
            &&& be16(s, 26) == mtu
        }),
{
    let s = Packet::<Seq<u8>>::OpenConnectionReply1 { server_guid, use_encryption, mtu }.bytes();
    lemma_pow256_values();
    lemma_widths(server_guid as nat);
    lemma_widths(mtu as nat);
    assert(s.subrange(1, 17) =~= MAGIC@);
    assert(s.subrange(17, 25) =~= be_bytes(server_guid as nat, 8));
    assert(s.subrange(26, 28) =~= be_bytes(mtu as nat, 2));
    lemma_written(s, 17, server_guid as nat, 8);
    lemma_written(s, 26, mtu as nat, 2);
    lemma_magic_written(s, 1);
    lemma_be64(s, 17);
    lemma_be16(s, 26);
}

/// A datagram that starts with 0x06 is a first reply, and its fields are read from where they
/// stand: there is encryption where byte 25 is not 0.
pub proof fn lemma_reply1_read(s: Seq<u8>)
    requires
        s.len() > 0,
        s[0] == 0x06,
    ensures
        s.len() < 28 ==> is_short(parse_packet(s)),
        s.len() >= 28 && !magic_stands(s, 1) ==> names_break(parse_packet(s), s, 1),
        s.len() >= 28 && magic_stands(s, 1) ==> parse_packet(s) == Ok::<
            (Option<PacketView>, int),
            CodecError,
        >(
            (
                Some(
                    PacketView::Unconnected(
                        Packet::OpenConnectionReply1 {
                            server_guid: be64(s, 17) as u64,
                            use_encryption: s[25] != 0,
                            mtu: be16(s, 26) as u16,
                        },
                    ),
                ),
                28,
            ),
        ),
{
    lemma_type_of(s[0], PackType::OpenConnectionReply1);
    if s.len() >= 28 {
        lemma_magic_behind_type(s, 1);
        lemma_number_behind_type(s, 17);
        lemma_number_behind_type(s, 26);
    }
}

/// The second request takes 27 bytes and those of the address: 0x07, the magic sequence, the
/// address of the server, the size of a datagram and the id of the client.
pub proof fn lemma_request2_written(server_address: SocketAddr, mtu: u16, client_guid: u64)
    ensures
        ({
            let s = Packet::<Seq<u8>>::OpenConnectionRequest2 {
                server_address,
                mtu,
                client_guid,
            }.bytes();
            let n = addr_width(server_address);
            &&& s.len() == 27 + n
            &&& s[0] == 0x07
            &&& magic_stands(s, 1)
            &&& addr_stands(s, 17, server_address)
            &&& be16(s, 17 + n) == mtu
            &&& be64(s, 19 + n) == client_guid
        }),
{
    let s = Packet::<Seq<u8>>::OpenConnectionRequest2 { server_address, mtu, client_guid }.bytes();
    let n = addr_width(server_address);
    lemma_pow256_values();
    lemma_addr_len(server_address);
    lemma_widths(mtu as nat);
    lemma_widths(client_guid as nat);
    assert(s.subrange(1, 17) =~= MAGIC@);
    assert(s.subrange(17, 17 + n) =~= server_address.bytes());
    assert(s.subrange(17 + n, 19 + n) =~= be_bytes(mtu as nat, 2));
    assert(s.subrange(19 + n, 27 + n) =~= be_bytes(client_guid as nat, 8));
    lemma_addr_written(s, 17, server_address);
    lemma_written(s, 17 + n, mtu as nat, 2);
    lemma_written(s, 19 + n, client_guid as nat, 8);
    lemma_magic_written(s, 1);
    lemma_be16(s, 17 + n);
    lemma_be64(s, 19 + n);
}

/// A datagram that starts with 0x07 and holds the magic sequence and an address is a second
/// request, and its fields are read from where they stand behind the address.
pub proof fn lemma_request2_read(s: Seq<u8>, server_address: SocketAddr)
    requires
        s.len() > 0,
        s[0] == 0x07,
    ensures
        s.len() < 17 ==> is_short(parse_packet(s)),
        s.len() >= 17 && !magic_stands(s, 1) ==> names_break(parse_packet(s), s, 1),
        s.len() >= 17 && magic_stands(s, 1) && addr_stands(s, 17, server_address) ==> {
            let n = addr_width(server_address);
            &&& s.len() < 27 + n ==> is_short(parse_packet(s))
            &&& s.len() >= 27 + n ==> parse_packet(s) == Ok::<
                (Option<PacketView>, int),
                CodecError,
            >(
                (
                    Some(
                        PacketView::Unconnected(
                            Packet::OpenConnectionRequest2 {
                                server_address,
                                mtu: be16(s, 17 + n) as u16,
                                client_guid: be64(s, 19 + n) as u64,
                            },
                        ),
                    ),
                    27 + n,
                ),
            )
        },
{
    lemma_type_of(s[0], PackType::OpenConnectionRequest2);
    if s.len() >= 17 {
        lemma_magic_behind_type(s, 1);
        if magic_stands(s, 1) && addr_stands(s, 17, server_address) {
            let n = addr_width(server_address);
            lemma_addr_stands_read(s, 17, server_address);
            assert(s.skip(1).skip(16) =~= s.skip(17));
            if s.len() >= 27 + n {
                lemma_number_behind_type(s, 17 + n);
                lemma_number_behind_type(s, 19 + n);
            }
        }
    }
}

/// The second reply takes 28 bytes and those of the address: 0x08, the magic sequence, the id of
/// the server, the address of the client, the size of a datagram, and 0 in the place that tells of
/// encryption.
pub proof fn lemma_reply2_written(
    server_guid: u64,
    client_address: SocketAddr,
    mtu: u16,
    encryption_enabled: bool,
)
    ensures
        ({
            let s = Packet::<Seq<u8>>::OpenConnectionReply2 {
                server_guid,
                client_address,
                mtu,
                encryption_enabled,
            }.bytes();
            let n = addr_width(client_address);
            &&& s.len() == 28 + n
            &&& s[0] == 0x08
            &&& magic_stands(s, 1)
            &&& be64(s, 17) == server_guid
            &&& addr_stands(s, 25, client_address)
            &&& be16(s, 25 + n) == mtu
            &&& s[27 + n] == 0
        }),
{
    let s = Packet::<Seq<u8>>::OpenConnectionReply2 {
        server_guid,
        client_address,
        mtu,
        encryption_enabled,
    }.bytes();
    let n = addr_width(client_address);
    lemma_pow256_values();
    lemma_addr_len(client_address);
    lemma_widths(mtu as nat);
    lemma_widths(server_guid as nat);
    assert(s.subrange(1, 17) =~= MAGIC@);
    assert(s.subrange(17, 25) =~= be_bytes(server_guid as nat, 8));
    assert(s.subrange(25, 25 + n) =~= client_address.bytes());
    assert(s.subrange(25 + n, 27 + n) =~= be_bytes(mtu as nat, 2));
    lemma_addr_written(s, 25, client_address);
    lemma_written(s, 17, server_guid as nat, 8);
    lemma_written(s, 25 + n, mtu as nat, 2);
    lemma_magic_written(s, 1);
    lemma_be64(s, 17);
    lemma_be16(s, 25 + n);
}

/// A datagram that starts with 0x08 and holds the magic sequence, an id and an address is a second
/// reply, and its fields are read from where they stand: there is encryption where its last byte
/// is not 0.
pub proof fn lemma_reply2_read(s: Seq<u8>, client_address: SocketAddr)
    requires
        s.len() > 0,
        s[0] == 0x08,
    ensures
        s.len() < 17 ==> is_short(parse_packet(s)),
        s.len() >= 17 && !magic_stands(s, 1) ==> names_break(parse_packet(s), s, 1),
        17 <= s.len() < 25 && magic_stands(s, 1) ==> is_short(parse_packet(s)),
        s.len() >= 25 && magic_stands(s, 1) && addr_stands(s, 25, client_address) ==> {
            let n = addr_width(client_address);
            &&& s.len() < 28 + n ==> is_short(parse_packet(s))
            &&& s.len() >= 28 + n ==> parse_packet(s) == Ok::<
                (Option<PacketView>, int),
                CodecError,
            >(
                (
                    Some(
                        PacketView::Unconnected(
                            Packet::OpenConnectionReply2 {
                                server_guid: be64(s, 17) as u64,
                                client_address,
                                mtu: be16(s, 25 + n) as u16,
                                encryption_enabled: s[27 + n] != 0,
                            },
                        ),
                    ),
                    28 + n,
                ),
            )
        },
{
    lemma_type_of(s[0], PackType::OpenConnectionReply2);
    if s.len() >= 17 {
        lemma_magic_behind_type(s, 1);
        if s.len() >= 25 && magic_stands(s, 1) && addr_stands(s, 25, client_address) {
            let n = addr_width(client_address);
            lemma_addr_stands_read(s, 25, client_address);
            assert(s.skip(1).skip(24) =~= s.skip(25));
            if s.len() >= 28 + n {
                lemma_number_behind_type(s, 17);
                lemma_number_behind_type(s, 25 + n);
            }
        }
    }
}

/// The refusal of a protocol version takes 26 bytes: 0x19, the version that the server speaks, the
/// magic sequence and the id of the server.
pub proof fn lemma_incompatible_written(server_protocol: u8, server_guid: u64)
    ensures
        ({
            let s = Packet::<Seq<u8>>::IncompatibleProtocol {
                server_protocol,
                server_guid,
            }.bytes();
            &&& s.len() == 26
            &&& s[0] == 0x19
            &&& s[1] == server_protocol
            &&& magic_stands(s, 2)
            &&& be64(s, 18) == server_guid
        }),
{
    let s = Packet::<Seq<u8>>::IncompatibleProtocol { server_protocol, server_guid }.bytes();
    lemma_pow256_values();
    lemma_widths(server_guid as nat);
    assert(s.subrange(2, 18) =~= MAGIC@);
    assert(s.subrange(18, 26) =~= be_bytes(server_guid as nat, 8));
    lemma_written(s, 18, server_guid as nat, 8);
    lemma_magic_written(s, 2);
    lemma_be64(s, 18);
}

/// A datagram that starts with 0x19 is the refusal of a protocol version, and its fields are read
/// from where they stand.
pub proof fn lemma_incompatible_read(s: Seq<u8>)
    requires
        s.len() > 0,
        s[0] == 0x19,
    ensures
        s.len() < 26 ==> is_short(parse_packet(s)),
        s.len() >= 26 && !magic_stands(s, 2) ==> names_break(parse_packet(s), s, 2),
        s.len() >= 26 && magic_stands(s, 2) ==> parse_packet(s) == Ok::<
            (Option<PacketView>, int),
            CodecError,
        >(
            (
                Some(
                    PacketView::Unconnected(
                        Packet::IncompatibleProtocol {
                            server_protocol: s[1],
                            server_guid: be64(s, 18) as u64,
                        },
                    ),
                ),
                26,
            ),
        ),
{
    lemma_type_of(s[0], PackType::IncompatibleProtocolVersion);
    if s.len() >= 26 {
        lemma_magic_behind_type(s, 2);
        lemma_number_behind_type(s, 18);
    }
}

/// The notice that there is a connection already, and the refusal of a connection, take 25 bytes:
/// 0x12 or 0x11, the magic sequence and the id of the server.
pub proof fn lemma_notices_written(server_guid: u64)
    ensures
        ({
            let s = Packet::<Seq<u8>>::AlreadyConnected { server_guid }.bytes();
            &&& s.len() == 25
            &&& s[0] == 0x12
            &&& magic_stands(s, 1)
            &&& be64(s, 17) == server_guid
        }),
        ({
            let s = Packet::<Seq<u8>>::ConnectionRequestFailed { server_guid }.bytes();
            &&& s.len() == 25
            &&& s[0] == 0x11
            &&& magic_stands(s, 1)
            &&& be64(s, 17) == server_guid
        }),
{
    let s = Packet::<Seq<u8>>::AlreadyConnected { server_guid }.bytes();
    let t = Packet::<Seq<u8>>::ConnectionRequestFailed { server_guid }.bytes();
    lemma_pow256_values();
    lemma_widths(server_guid as nat);
    assert(s.subrange(1, 17) =~= MAGIC@);
    assert(s.subrange(17, 25) =~= be_bytes(server_guid as nat, 8));
    assert(t.subrange(1, 17) =~= MAGIC@);
    assert(t.subrange(17, 25) =~= be_bytes(server_guid as nat, 8));
    lemma_written(s, 17, server_guid as nat, 8);
    lemma_written(t, 17, server_guid as nat, 8);
    lemma_magic_written(s, 1);
    lemma_magic_written(t, 1);
    lemma_be64(s, 17);
    lemma_be64(t, 17);
}

/// A datagram that starts with 0x12 is the notice that there is a connection already, one that
/// starts with 0x11 the refusal of a connection, and the id is read from where it stands.
pub proof fn lemma_notices_read(s: Seq<u8>)
    requires
        s.len() > 0,
        s[0] == 0x12 || s[0] == 0x11,
    ensures
        s.len() < 25 ==> is_short(parse_packet(s)),
        s.len() >= 25 && !magic_stands(s, 1) ==> names_break(parse_packet(s), s, 1),
        s.len() >= 25 && magic_stands(s, 1) && s[0] == 0x12 ==> parse_packet(s) == Ok::<
            (Option<PacketView>, int),
            CodecError,
        >(
            (
                Some(
                    PacketView::Unconnected(
                        Packet::AlreadyConnected { server_guid: be64(s, 17) as u64 },
                    ),
                ),
                25,
            ),
        ),
        s.len() >= 25 && magic_stands(s, 1) && s[0] == 0x11 ==> parse_packet(s) == Ok::<
            (Option<PacketView>, int),
            CodecError,
        >(
            (
                Some(
                    PacketView::Unconnected(
                        Packet::ConnectionRequestFailed { server_guid: be64(s, 17) as u64 },
                    ),
                ),
                25,
            ),
        ),
{
    let t = if s[0] == 0x12 {
        PackType::AlreadyConnected
    } else {
        PackType::ConnectionRequestFailed
    };
    lemma_type_of(s[0], t);
    if s.len() >= 25 {
        lemma_magic_behind_type(s, 1);
        lemma_number_behind_type(s, 17);
    }
}

/// What else a first byte can say. An empty datagram, and one that starts with 0, are passed over.
/// Bytes from 0x80 on announce the datagrams of an established connection. Those that stand for a
/// body of a frame, or for nothing, are refused by name.
pub proof fn lemma_first_byte(s: Seq<u8>)
    ensures
        s.len() == 0 ==> parse_packet(s) == Ok::<(Option<PacketView>, int), CodecError>((None, 0)),
        s.len() > 0 && s[0] == 0 ==> parse_packet(s) == Ok::<(Option<PacketView>, int), CodecError>(
            (None, s.len() as int),
        ),
        s.len() > 0 && s[0] >= 0x80 ==> (parse_packet(s) matches Ok((p, n)) ==> (
        p matches Some(PacketView::Connected(_)))),
        s.len() > 0 && (s[0] == 0x03 || s[0] == 0x04 || s[0] == 0x09 || s[0] == 0x10 || s[0] == 0x13
            || s[0] == 0x14 || s[0] == 0x15 || s[0] == 0x16 || s[0] == 0x17 || s[0] == 0x18 || s[0]
            == 0x1a || s[0] == 0x1b || 0x1d <= s[0] < 0x80 || 0x0a <= s[0] < 0x10)
            ==> parse_packet(s) == Err::<(Option<PacketView>, int), CodecError>(
            CodecError::InvalidPacketType(s[0]),
        ),
{
    if s.len() > 0 {
        let id = s[0];
        if id >= 0xc0 {
            lemma_type_of(id, PackType::Ack);
        } else if id >= 0xa0 {
            lemma_type_of(id, PackType::Nack);
        } else if id >= 0x80 {
            lemma_type_of(id, PackType::FrameSet);
        } else if id == 0x03 {
            lemma_type_of(id, PackType::ConnectedPong);
        } else if id == 0x04 {
            lemma_type_of(id, PackType::DetectLostConnections);
        } else if id == 0x09 {
            lemma_type_of(id, PackType::ConnectionRequest);
        } else if id == 0x10 {
            lemma_type_of(id, PackType::ConnectionRequestAccepted);
        } else if id == 0x13 {
            lemma_type_of(id, PackType::NewIncomingConnection);
        } else if id == 0x14 {
            lemma_type_of(id, PackType::NoFreeIncomingConnections);
        } else if id == 0x15 {
            lemma_type_of(id, PackType::DisconnectNotification);
        } else if id == 0x16 {
            lemma_type_of(id, PackType::ConnectionLost);
        } else if id == 0x17 {
            lemma_type_of(id, PackType::ConnectionBanned);
        } else if id == 0x1a {
            lemma_type_of(id, PackType::IpRecentlyConnected);
        } else if id == 0x1b {
            lemma_type_of(id, PackType::Timestamp);
        } else if id == 0x1d {
            lemma_type_of(id, PackType::AdvertiseSystem);
        } else if id == 0x18 || id >= 0x1e || 0x0a <= id < 0x10 {
            if exists|t: PackType| t.covers(id) {
                let t = choose|t: PackType| t.covers(id);
                assert(!t.covers(id));
            }
        }
    }
}

} // verus!
