//! What a frame carries: a message of the protocol itself, or one of the user.
use bytes::{Bytes, BytesMut};
use vstd::prelude::*;

use crate::buf::{
    advance, bytes_chunk, get_i64, get_u16, get_u64, get_u8, into_buf, put_bytes, put_i64, put_u16,
    put_u64, put_u8, remaining, Contents,
};
use crate::errors::CodecError;
use crate::packet::address::{
    get_socket_addr, lemma_addr_len, lemma_addr_roundtrip, put_socket_addr, SocketAddr, SIZED,
};
use crate::packet::pack_type::{lemma_type_of, type_of, PackType};
use crate::packet::unconnected::too_short;
use crate::wire::{
    be_at, be_bytes, i64_at, i64_bits, is_tail, lemma_at_skip, lemma_be_roundtrip,
    lemma_i64_bits_roundtrip, lemma_pow256_values, lemma_tail_trans,
};

verus! {

/// The place named when the time stamps behind the addresses are missing.
pub const FRAME_BODY: &'static str = "frame body";

/// The most addresses of its own that a peer sends.
pub const MAX_SYSTEM_ADDRESSES_ENDPOINTS: usize = 20;

/// The body of a frame. `D` is what a user's message is made of, `A` a list of addresses.
#[derive(Debug, Clone, PartialEq, Eq)]
pub enum FrameBody<D, A> {
    ConnectedPing { client_timestamp: i64 },
    ConnectedPong { client_timestamp: i64, server_timestamp: i64 },
    ConnectionRequest { client_guid: u64, request_timestamp: i64, use_encryption: bool },
    ConnectionRequestAccepted {
        client_address: SocketAddr,
        system_index: u16,
        system_addresses: A,
        request_timestamp: i64,
        accepted_timestamp: i64,
    },
    NewIncomingConnection {
        server_address: SocketAddr,
        system_addresses: A,
        request_timestamp: i64,
        accepted_timestamp: i64,
    },
    DisconnectNotification,
    DetectLostConnections,
    /// A message of the user.
    User(D),
}

/// The body of a frame as it is sent and delivered.
pub type PlainBody = FrameBody<Bytes, [SocketAddr; 20]>;

/// What the body of a frame holds.
pub type BodyView = FrameBody<Seq<u8>, Seq<SocketAddr>>;

impl View for FrameBody<Bytes, [SocketAddr; 20]> {
    type V = FrameBody<Seq<u8>, Seq<SocketAddr>>;

    open spec fn view(&self) -> FrameBody<Seq<u8>, Seq<SocketAddr>> {
        match *self {
            FrameBody::ConnectedPing { client_timestamp } => FrameBody::ConnectedPing {
                client_timestamp,
            },
            FrameBody::ConnectedPong { client_timestamp, server_timestamp } => {
                FrameBody::ConnectedPong { client_timestamp, server_timestamp }
            },
            FrameBody::ConnectionRequest { client_guid, request_timestamp, use_encryption } => {
                FrameBody::ConnectionRequest { client_guid, request_timestamp, use_encryption }
            },
            FrameBody::ConnectionRequestAccepted {
                client_address,
                system_index,
                system_addresses,
                request_timestamp,
                accepted_timestamp,
            } => FrameBody::ConnectionRequestAccepted {
                client_address,
                system_index,
                system_addresses: system_addresses@,
                request_timestamp,
                accepted_timestamp,
            },
            FrameBody::NewIncomingConnection {
                server_address,
                system_addresses,
                request_timestamp,
                accepted_timestamp,
            } => FrameBody::NewIncomingConnection {
                server_address,
                system_addresses: system_addresses@,
                request_timestamp,
                accepted_timestamp,
            },
            FrameBody::DisconnectNotification => FrameBody::DisconnectNotification,
            FrameBody::DetectLostConnections => FrameBody::DetectLostConnections,
            FrameBody::User(data) => FrameBody::User(data.seq()),
        }
    }
}

/// The bytes of addresses written one after the other.
pub open spec fn addresses_bytes(addrs: Seq<SocketAddr>) -> Seq<u8>
    decreases addrs.len(),
{
    if addrs.len() == 0 {
        Seq::empty()
    } else {
        addrs[0].bytes() + addresses_bytes(addrs.drop_first())
    }
}

/// Up to `room` addresses that `s` starts with, as long as more than two time stamps are left,
/// and how many bytes they take.
pub open spec fn parse_more(s: Seq<u8>, room: nat) -> Result<(Seq<SocketAddr>, int), CodecError>
    decreases room,
{
    if room == 0 || s.len() <= 16 {
        Ok((Seq::empty(), 0))
    } else {
        match SocketAddr::parse(s) {
            Err(e) => Err(e),
            Ok((addr, n)) => after_addresses(
                seq![addr],
                n,
                parse_more(s.skip(n), (room - 1) as nat),
            ),
        }
    }
}

/// What a parse yields once the addresses before, in the bytes before, are put in front.
pub open spec fn after_addresses(
    addrs: Seq<SocketAddr>,
    n: int,
    rest: Result<(Seq<SocketAddr>, int), CodecError>,
) -> Result<(Seq<SocketAddr>, int), CodecError> {
    match rest {
        Ok((more, m)) => Ok((addrs + more, n + m)),
        Err(e) => Err(e),
    }
}

/// A full list of addresses: the places that were not sent hold the first address.
pub open spec fn filled(found: Seq<SocketAddr>) -> Seq<SocketAddr> {
    Seq::new(
        MAX_SYSTEM_ADDRESSES_ENDPOINTS as nat,
        |i: int|
            if i < found.len() {
                found[i]
            } else {
                found[0]
            },
    )
}

/// The addresses that `s` starts with, at least one, and how many bytes they take. Two time
/// stamps must follow.
pub open spec fn parse_addresses(s: Seq<u8>) -> Result<(Seq<SocketAddr>, int), CodecError> {
    match SocketAddr::parse(s) {
        Err(e) => Err(e),
        Ok((first, n)) => match after_addresses(
            seq![first],
            n,
            parse_more(s.skip(n), (MAX_SYSTEM_ADDRESSES_ENDPOINTS - 1) as nat),
        ) {
            Err(e) => Err(e),
            Ok((found, m)) => {
                if s.len() < m + 16 {
                    Err(CodecError::InvalidPacketLength(FRAME_BODY))
                } else {
                    Ok((filled(found), m))
                }
            },
        },
    }
}

/// The acceptance of a connection: the client's address, the index of the system, the addresses
/// of the system and two time stamps.
pub open spec fn parse_accepted(s: Seq<u8>) -> Result<BodyView, CodecError> {
    match SocketAddr::parse(s.skip(1)) {
        Err(e) => Err(e),
        Ok((client_address, n)) => {
            if s.len() < 3 + n {
                too_short()
            } else {
                match parse_addresses(s.skip(3 + n)) {
                    Err(e) => Err(e),
                    Ok((system_addresses, m)) => Ok(
                        FrameBody::ConnectionRequestAccepted {
                            client_address,
                            system_index: be_at(s, 1 + n, 2) as u16,
                            system_addresses,
                            request_timestamp: i64_at(s, 3 + n + m),
                            accepted_timestamp: i64_at(s, 11 + n + m),
                        },
                    ),
                }
            }
        },
    }
}

/// The last step of a handshake: the server's address, the addresses of the system and two time
/// stamps.
pub open spec fn parse_incoming(s: Seq<u8>) -> Result<BodyView, CodecError> {
    match SocketAddr::parse(s.skip(1)) {
        Err(e) => Err(e),
        Ok((server_address, n)) => match parse_addresses(s.skip(1 + n)) {
            Err(e) => Err(e),
            Ok((system_addresses, m)) => Ok(
                FrameBody::NewIncomingConnection {
                    server_address,
                    system_addresses,
                    request_timestamp: i64_at(s, 1 + n + m),
                    accepted_timestamp: i64_at(s, 9 + n + m),
                },
            ),
        },
    }
}

/// The body that the bytes of a frame stand for. What the protocol does not know is the user's.
pub open spec fn parse_body(s: Seq<u8>) -> Result<BodyView, CodecError> {
    match type_of(s[0]) {
        None => Ok(FrameBody::User(s)),
        Some(t) => match t {
            PackType::ConnectedPing => if s.len() < 9 {
                too_short()
            } else {
                Ok(FrameBody::ConnectedPing { client_timestamp: i64_at(s, 1) })
            },
            PackType::ConnectedPong => if s.len() < 17 {
                too_short()
            } else {
                Ok(
                    FrameBody::ConnectedPong {
                        client_timestamp: i64_at(s, 1),
                        server_timestamp: i64_at(s, 9),
                    },
                )
            },
            PackType::ConnectionRequest => if s.len() < 18 {
                too_short()
            } else {
                Ok(
                    FrameBody::ConnectionRequest {
                        client_guid: be_at(s, 1, 8) as u64,
                        request_timestamp: i64_at(s, 9),
                        use_encryption: s[17] != 0,
                    },
                )
            },
            PackType::ConnectionRequestAccepted => parse_accepted(s),
            PackType::NewIncomingConnection => parse_incoming(s),
            PackType::DisconnectNotification => Ok(FrameBody::DisconnectNotification),
            PackType::DetectLostConnections => Ok(FrameBody::DetectLostConnections),
            _ => Ok(FrameBody::User(s)),
        },
    }
}

/// The body as it is written in a frame.
pub open spec fn body_bytes(body: BodyView) -> Seq<u8> {
    match body {
        FrameBody::ConnectedPing { client_timestamp } => seq![PackType::ConnectedPing.code()]
            + be_bytes(i64_bits(client_timestamp), 8),
        FrameBody::ConnectedPong { client_timestamp, server_timestamp } => seq![
            PackType::ConnectedPong.code(),
        ] + be_bytes(i64_bits(client_timestamp), 8) + be_bytes(i64_bits(server_timestamp), 8),
        FrameBody::ConnectionRequest { client_guid, request_timestamp, use_encryption } => seq![
            PackType::ConnectionRequest.code(),
        ] + be_bytes(client_guid as nat, 8) + be_bytes(i64_bits(request_timestamp), 8) + seq![
            if use_encryption {
                1u8
            } else {
                0u8
            },
        ],
        FrameBody::ConnectionRequestAccepted {
            client_address,
            system_index,
            system_addresses,
            request_timestamp,
            accepted_timestamp,
        } => seq![PackType::ConnectionRequestAccepted.code()] + client_address.bytes() + be_bytes(
            system_index as nat,
            2,
        ) + addresses_bytes(system_addresses) + be_bytes(i64_bits(request_timestamp), 8) + be_bytes(
            i64_bits(accepted_timestamp),
            8,
        ),
        FrameBody::NewIncomingConnection {
            server_address,
            system_addresses,
            request_timestamp,
            accepted_timestamp,
        } => seq![PackType::NewIncomingConnection.code()] + server_address.bytes()
            + addresses_bytes(system_addresses) + be_bytes(i64_bits(request_timestamp), 8)
            + be_bytes(i64_bits(accepted_timestamp), 8),
        FrameBody::DisconnectNotification => seq![PackType::DisconnectNotification.code()],
        FrameBody::DetectLostConnections => seq![PackType::DetectLostConnections.code()],
        FrameBody::User(data) => data,
    }
}

fn parse_system_addresses(buf: &mut BytesMut) -> (r: Result<[SocketAddr; 20], CodecError>)
    ensures
        match parse_addresses(old(buf).seq()) {
            Ok((addrs, n)) => r is Ok && r->Ok_0@ == addrs && final(buf).seq() == old(
                buf,
            ).seq().skip(n) && 0 <= n && n + 16 <= old(buf).seq().len(),
            Err(e) => r == Err::<[SocketAddr; 20], CodecError>(e),
        },
{
    let ghost s = buf.seq();
    let first = match get_socket_addr(buf) {
        Ok(addr) => addr,
        Err(e) => {
            return Err(e);
        },
    };
    let ghost n = s.len() - buf.seq().len();
    assert(buf.seq() =~= s.skip(n));
    let mut addresses: [SocketAddr; 20] = [first; 20];
    let ghost mut found: Seq<SocketAddr> = seq![first];
    let mut i: usize = 1;
    assert(addresses@ =~= filled(found));
    while i < MAX_SYSTEM_ADDRESSES_ENDPOINTS && remaining(buf) > 16
        invariant
            1 <= i <= MAX_SYSTEM_ADDRESSES_ENDPOINTS,
            found.len() == i,
            found[0] == first,
            addresses@ == filled(found),
            s == old(buf).seq(),
            is_tail(buf.seq(), s),
            SocketAddr::parse(s) == Ok::<(SocketAddr, int), CodecError>((first, n)),
            after_addresses(
                seq![first],
                n,
                parse_more(s.skip(n), (MAX_SYSTEM_ADDRESSES_ENDPOINTS - 1) as nat),
            ) == after_addresses(
                found,
                s.len() - buf.seq().len(),
                parse_more(buf.seq(), (MAX_SYSTEM_ADDRESSES_ENDPOINTS - i) as nat),
            ),
        decreases MAX_SYSTEM_ADDRESSES_ENDPOINTS - i,
    {
        let ghost here = buf.seq();
        let addr = match get_socket_addr(buf) {
            Ok(addr) => addr,
            Err(e) => {
                return Err(e);
            },
        };
        addresses[i] = addr;
        proof {
            lemma_tail_trans(buf.seq(), here, s);
            let done = found;
            found = found.push(addr);
            if let Ok((more, m)) = parse_more(
                buf.seq(),
                (MAX_SYSTEM_ADDRESSES_ENDPOINTS - i - 1) as nat,
            ) {
                assert(done + (seq![addr] + more) =~= found + more);
            }
            assert(addresses@ =~= filled(found));
        }
        i = i + 1;
    }
    proof {
        assert(found + Seq::empty() =~= found);
    }
    if remaining(buf) < 16 {
        return Err(CodecError::InvalidPacketLength(FRAME_BODY));
    }
    Ok(addresses)
}

impl FrameBody<Bytes, [SocketAddr; 20]> {
    /// Takes the bytes of a frame, of which there is at least one, for what they are.
    pub fn read(buf: Bytes) -> (r: Result<PlainBody, CodecError>)
        requires
            buf.seq().len() > 0,
        ensures
            match parse_body(buf.seq()) {
                Ok(body) => r is Ok && r->Ok_0@ == body,
                Err(e) => r == Err::<PlainBody, CodecError>(e),
            },
    {
        let ghost s = buf.seq();
        let id = match PackType::from_u8(bytes_chunk(&buf)[0]) {
            Ok(t) => t,
            Err(_) => {
                return Ok(FrameBody::User(buf));
            },
        };
        proof {
            lemma_type_of(s[0], id);
        }
        match id {
            PackType::ConnectedPing => {
                let mut buf = into_buf(buf);
                if remaining(&buf) < 9 {
                    return Err(CodecError::InvalidPacketLength(SIZED));
                }
                proof {
                    lemma_at_skip(s, 1, 0, 8);
                }
                advance(&mut buf, 1);
                let client_timestamp: i64 = get_i64(&mut buf);
                Ok(FrameBody::ConnectedPing { client_timestamp })
            },
            PackType::ConnectedPong => {
                let mut buf = into_buf(buf);
                if remaining(&buf) < 17 {
                    return Err(CodecError::InvalidPacketLength(SIZED));
                }
                proof {
                    lemma_at_skip(s, 1, 0, 8);
                    lemma_at_skip(s, 9, 0, 8);
                }
                advance(&mut buf, 1);
                let client_timestamp: i64 = get_i64(&mut buf);
                let server_timestamp: i64 = get_i64(&mut buf);
                Ok(FrameBody::ConnectedPong { client_timestamp, server_timestamp })
            },
            PackType::ConnectionRequest => {
                let mut buf = into_buf(buf);
                if remaining(&buf) < 18 {
                    return Err(CodecError::InvalidPacketLength(SIZED));
                }
                proof {
                    lemma_at_skip(s, 1, 0, 8);
                    lemma_at_skip(s, 9, 0, 8);
                }
                advance(&mut buf, 1);
                let client_guid: u64 = get_u64(&mut buf);
                let request_timestamp: i64 = get_i64(&mut buf);
                let use_encryption = get_u8(&mut buf) != 0;
                Ok(FrameBody::ConnectionRequest { client_guid, request_timestamp, use_encryption })
            },
            PackType::ConnectionRequestAccepted => {
                let mut buf = into_buf(buf);
                FrameBody::read_accepted(&mut buf)
            },
            PackType::NewIncomingConnection => {
                let mut buf = into_buf(buf);
                FrameBody::read_incoming(&mut buf)
            },
            PackType::DisconnectNotification => Ok(FrameBody::DisconnectNotification),
            PackType::DetectLostConnections => Ok(FrameBody::DetectLostConnections),
            _ => Ok(FrameBody::User(buf)),
        }
    }

    fn read_accepted(buf: &mut BytesMut) -> (r: Result<PlainBody, CodecError>)
        requires
            old(buf).seq().len() > 0,
        ensures
            match parse_accepted(old(buf).seq()) {
                Ok(body) => r is Ok && r->Ok_0@ == body,
                Err(e) => r == Err::<PlainBody, CodecError>(e),
            },
    {
        let ghost s = buf.seq();
        advance(buf, 1);
        let client_address = match get_socket_addr(buf) {
            Ok(addr) => addr,
            Err(e) => {
                return Err(e);
            },
        };
        let ghost at = s.len() - buf.seq().len();
        assert(buf.seq() =~= s.skip(at));
        if remaining(buf) < 2 {
            return Err(CodecError::InvalidPacketLength(SIZED));
        }
        proof {
            lemma_at_skip(s, at, 0, 2);
        }
        let system_index: u16 = get_u16(buf);
        let system_addresses = match parse_system_addresses(buf) {
            Ok(addrs) => addrs,
            Err(e) => {
                return Err(e);
            },
        };
        let ghost end = s.len() - buf.seq().len();
        proof {
            assert(buf.seq() =~= s.skip(end));
            lemma_at_skip(s, end, 0, 8);
            lemma_at_skip(s, end + 8, 0, 8);
        }
        let request_timestamp: i64 = get_i64(buf);
        let accepted_timestamp: i64 = get_i64(buf);
        Ok(
            FrameBody::ConnectionRequestAccepted {
                client_address,
                system_index,
                system_addresses,
                request_timestamp,
                accepted_timestamp,
            },
        )
    }

    fn read_incoming(buf: &mut BytesMut) -> (r: Result<PlainBody, CodecError>)
        requires
            old(buf).seq().len() > 0,
        ensures
            match parse_incoming(old(buf).seq()) {
                Ok(body) => r is Ok && r->Ok_0@ == body,
                Err(e) => r == Err::<PlainBody, CodecError>(e),
            },
    {
        let ghost s = buf.seq();
        advance(buf, 1);
        let server_address = match get_socket_addr(buf) {
            Ok(addr) => addr,
            Err(e) => {
                return Err(e);
            },
        };
        let ghost at = s.len() - buf.seq().len();
        assert(buf.seq() =~= s.skip(at));
        let system_addresses = match parse_system_addresses(buf) {
            Ok(addrs) => addrs,
            Err(e) => {
                return Err(e);
            },
        };
        let ghost end = s.len() - buf.seq().len();
        proof {
            assert(buf.seq() =~= s.skip(end));
            lemma_at_skip(s, end, 0, 8);
            lemma_at_skip(s, end + 8, 0, 8);
        }
        let request_timestamp: i64 = get_i64(buf);
        let accepted_timestamp: i64 = get_i64(buf);
        Ok(
            FrameBody::NewIncomingConnection {
                server_address,
                system_addresses,
                request_timestamp,
                accepted_timestamp,
            },
        )
    }

    /// Appends the body to `buf`.
    pub fn write(self, buf: &mut BytesMut)
        ensures
            final(buf).seq() == old(buf).seq() + body_bytes(self@),
    {
        let ghost view = self@;
        match self {
            FrameBody::ConnectedPing { client_timestamp } => {
                put_u8(buf, PackType::ConnectedPing.to_u8());
                put_i64(buf, client_timestamp);
            },
            FrameBody::ConnectedPong { client_timestamp, server_timestamp } => {
                put_u8(buf, PackType::ConnectedPong.to_u8());
                put_i64(buf, client_timestamp);
                put_i64(buf, server_timestamp);
            },
            FrameBody::ConnectionRequest { client_guid, request_timestamp, use_encryption } => {
                put_u8(buf, PackType::ConnectionRequest.to_u8());
                put_u64(buf, client_guid);
                put_i64(buf, request_timestamp);
                put_u8(
                    buf,
                    if use_encryption {
                        1
                    } else {
                        0
                    },
                );
            },
            FrameBody::ConnectionRequestAccepted {
                client_address,
                system_index,
                system_addresses,
                request_timestamp,
                accepted_timestamp,
            } => {
                put_u8(buf, PackType::ConnectionRequestAccepted.to_u8());
                put_socket_addr(buf, client_address);
                put_u16(buf, system_index);
                put_addresses(buf, &system_addresses);
                put_i64(buf, request_timestamp);
                put_i64(buf, accepted_timestamp);
            },
            FrameBody::NewIncomingConnection {
                server_address,
                system_addresses,
                request_timestamp,
                accepted_timestamp,
            } => {
                put_u8(buf, PackType::NewIncomingConnection.to_u8());
                put_socket_addr(buf, server_address);
                put_addresses(buf, &system_addresses);
                put_i64(buf, request_timestamp);
                put_i64(buf, accepted_timestamp);
            },
            FrameBody::DisconnectNotification => {
                put_u8(buf, PackType::DisconnectNotification.to_u8());
            },
            FrameBody::DetectLostConnections => {
                put_u8(buf, PackType::DetectLostConnections.to_u8());
            },
            FrameBody::User(data) => {
                put_bytes(buf, data);
            },
        }
        assert(buf.seq() =~= old(buf).seq() + body_bytes(view));
    }
}

fn put_addresses(buf: &mut BytesMut, addrs: &[SocketAddr; 20])
    ensures
        final(buf).seq() == old(buf).seq() + addresses_bytes(addrs@),
{
    let ghost head = buf.seq();
    let mut i: usize = 0;
    assert(addrs@.take(0) =~= Seq::empty());
    assert(buf.seq() =~= head + addresses_bytes(addrs@.take(0)));
    while i < 20
        invariant
            i <= 20,
            buf.seq() == head + addresses_bytes(addrs@.take(i as int)),
        decreases 20 - i,
    {
        put_socket_addr(buf, addrs[i]);
        proof {
            let a = addrs@[i as int];
            lemma_addresses_bytes_push(addrs@.take(i as int), a);
            assert(addrs@.take(i as int).push(a) =~= addrs@.take(i + 1));
            assert(buf.seq() =~= head + addresses_bytes(addrs@.take(i + 1)));
        }
        i = i + 1;
    }
    assert(addrs@.take(20) =~= addrs@);
}

proof fn lemma_addresses_bytes_push(addrs: Seq<SocketAddr>, a: SocketAddr)
    ensures
        addresses_bytes(addrs.push(a)) == addresses_bytes(addrs) + a.bytes(),
    decreases addrs.len(),
{
    if addrs.len() == 0 {
        assert(addrs.push(a).drop_first() =~= addrs);
        assert(addresses_bytes(addrs.push(a)) =~= addresses_bytes(addrs) + a.bytes());
    } else {
        lemma_addresses_bytes_push(addrs.drop_first(), a);
        assert(addrs.push(a).drop_first() =~= addrs.drop_first().push(a));
        assert(addresses_bytes(addrs.push(a)) =~= addresses_bytes(addrs) + a.bytes());
    }
}

/// A user's message that is not taken for one of the protocol.
pub open spec fn is_user_data(s: Seq<u8>) -> bool {
    &&& s.len() > 0
    &&& match type_of(s[0]) {
        None => true,
        Some(t) => !(t is ConnectedPing || t is ConnectedPong || t is ConnectionRequest
            || t is ConnectionRequestAccepted || t is NewIncomingConnection
            || t is DisconnectNotification || t is DetectLostConnections),
    }
}

/// The body can be told from its bytes: a list of addresses is full, and a user's message does
/// not start like one of the protocol.
pub open spec fn body_readable(body: BodyView) -> bool {
    match body {
        FrameBody::ConnectionRequestAccepted { system_addresses, .. } => system_addresses.len()
            == MAX_SYSTEM_ADDRESSES_ENDPOINTS,
        FrameBody::NewIncomingConnection { system_addresses, .. } => system_addresses.len()
            == MAX_SYSTEM_ADDRESSES_ENDPOINTS,
        FrameBody::User(data) => is_user_data(data),
        _ => true,
    }
}

proof fn lemma_more_roundtrip(addrs: Seq<SocketAddr>, rest: Seq<u8>)
    requires
        rest.len() >= 16,
    ensures
        parse_more(addresses_bytes(addrs) + rest, addrs.len()) == Ok::<
            (Seq<SocketAddr>, int),
            CodecError,
        >((addrs, addresses_bytes(addrs).len() as int)),
    decreases addrs.len(),
{
    if addrs.len() > 0 {
        let s = addresses_bytes(addrs) + rest;
        let tail = addrs.drop_first();
        let n = addrs[0].bytes().len() as int;
        lemma_addr_len(addrs[0]);
        lemma_more_roundtrip(tail, rest);
        lemma_addr_roundtrip(addrs[0], addresses_bytes(tail) + rest);
        assert(s =~= addrs[0].bytes() + (addresses_bytes(tail) + rest));
        assert(s.skip(n) =~= addresses_bytes(tail) + rest);
        assert(seq![addrs[0]] + tail =~= addrs);
    } else {
        assert(addrs =~= Seq::empty());
    }
}

proof fn lemma_addresses_roundtrip(addrs: Seq<SocketAddr>, rest: Seq<u8>)
    requires
        addrs.len() == MAX_SYSTEM_ADDRESSES_ENDPOINTS,
        rest.len() >= 16,
    ensures
        parse_addresses(addresses_bytes(addrs) + rest) == Ok::<
            (Seq<SocketAddr>, int),
            CodecError,
        >((addrs, addresses_bytes(addrs).len() as int)),
{
    let s = addresses_bytes(addrs) + rest;
    let tail = addrs.drop_first();
    let n = addrs[0].bytes().len() as int;
    lemma_addr_len(addrs[0]);
    lemma_addr_roundtrip(addrs[0], addresses_bytes(tail) + rest);
    lemma_more_roundtrip(tail, rest);
    assert(s =~= addrs[0].bytes() + (addresses_bytes(tail) + rest));
    assert(s.skip(n) =~= addresses_bytes(tail) + rest);
    assert(seq![addrs[0]] + tail =~= addrs);
    assert(filled(addrs) =~= addrs);
}

proof fn lemma_stamps(before: Seq<u8>, a: i64, b: i64)
    ensures
        be_bytes(i64_bits(a), 8).len() == 8,
        be_bytes(i64_bits(b), 8).len() == 8,
        i64_at(
            before + (be_bytes(i64_bits(a), 8) + be_bytes(i64_bits(b), 8)),
            before.len() as int,
        ) == a,
        i64_at(
            before + (be_bytes(i64_bits(a), 8) + be_bytes(i64_bits(b), 8)),
            before.len() + 8int,
        ) == b,
{
    lemma_i64_bits_roundtrip(a);
    lemma_i64_bits_roundtrip(b);
    lemma_be_roundtrip(i64_bits(a), 8);
    lemma_be_roundtrip(i64_bits(b), 8);
    lemma_pow256_values();
    let x = be_bytes(i64_bits(a), 8);
    let y = be_bytes(i64_bits(b), 8);
    let at = before.len() as int;
    assert((before + (x + y)).subrange(at, at + 8) =~= x);
    assert((before + (x + y)).subrange(at + 8, at + 8 + 8) =~= y);
}

proof fn lemma_accepted_roundtrip(body: BodyView)
    requires
        body is ConnectionRequestAccepted,
        body_readable(body),
    ensures
        parse_accepted(body_bytes(body)) == Ok::<BodyView, CodecError>(body),
{
    if let FrameBody::ConnectionRequestAccepted {
        client_address,
        system_index,
        system_addresses,
        request_timestamp,
        accepted_timestamp,
    } = body {
        let s = body_bytes(body);
        let a = client_address.bytes();
        let b = be_bytes(system_index as nat, 2);
        let c = addresses_bytes(system_addresses);
        let d = be_bytes(i64_bits(request_timestamp), 8) + be_bytes(
            i64_bits(accepted_timestamp),
            8,
        );
        let n = a.len() as int;
        lemma_addr_len(client_address);
        lemma_be_roundtrip(system_index as nat, 2);
        lemma_pow256_values();
        lemma_stamps(seq![s[0]] + a + b + c, request_timestamp, accepted_timestamp);
        lemma_addr_roundtrip(client_address, b + c + d);
        lemma_addresses_roundtrip(system_addresses, d);
        assert(s =~= seq![s[0]] + a + b + c + d);
        assert(s.skip(1) =~= a + (b + c + d));
        assert(s.subrange(1 + n, 1 + n + 2) =~= b);
        assert(s.skip(3 + n) =~= c + d);
    }
}

proof fn lemma_incoming_roundtrip(body: BodyView)
    requires
        body is NewIncomingConnection,
        body_readable(body),
    ensures
        parse_incoming(body_bytes(body)) == Ok::<BodyView, CodecError>(body),
{
    if let FrameBody::NewIncomingConnection {
        server_address,
        system_addresses,
        request_timestamp,
        accepted_timestamp,
    } = body {
        let s = body_bytes(body);
        let a = server_address.bytes();
        let c = addresses_bytes(system_addresses);
        let d = be_bytes(i64_bits(request_timestamp), 8) + be_bytes(
            i64_bits(accepted_timestamp),
            8,
        );
        let n = a.len() as int;
        lemma_addr_len(server_address);
        lemma_stamps(seq![s[0]] + a + c, request_timestamp, accepted_timestamp);
        lemma_addr_roundtrip(server_address, c + d);
        lemma_addresses_roundtrip(system_addresses, d);
        assert(s =~= seq![s[0]] + a + c + d);
        assert(s.skip(1) =~= a + (c + d));
        assert(s.skip(1 + n) =~= c + d);
    }
}

/// A body that was written is read back as it was.
pub proof fn lemma_body_roundtrip(body: BodyView)
    requires
        body_readable(body),
    ensures
        body_bytes(body).len() > 0,
        parse_body(body_bytes(body)) == Ok::<BodyView, CodecError>(body),
{
    let s = body_bytes(body);
    match body {
        FrameBody::ConnectedPing { client_timestamp } => {
            lemma_type_of(s[0], PackType::ConnectedPing);
            lemma_stamps(seq![s[0]], client_timestamp, 0);
            assert(s.subrange(1, 9) =~= be_bytes(i64_bits(client_timestamp), 8));
            assert((seq![s[0]] + (be_bytes(i64_bits(client_timestamp), 8) + be_bytes(
                i64_bits(0),
                8,
            ))).subrange(1, 9) =~= be_bytes(i64_bits(client_timestamp), 8));
        },
        FrameBody::ConnectedPong { client_timestamp, server_timestamp } => {
            lemma_type_of(s[0], PackType::ConnectedPong);
            lemma_stamps(seq![s[0]], client_timestamp, server_timestamp);
            assert(s =~= seq![s[0]] + (be_bytes(i64_bits(client_timestamp), 8) + be_bytes(
                i64_bits(server_timestamp),
                8,
            )));
        },
        FrameBody::ConnectionRequest { client_guid, request_timestamp, use_encryption } => {
            lemma_type_of(s[0], PackType::ConnectionRequest);
            lemma_i64_bits_roundtrip(request_timestamp);
            lemma_be_roundtrip(client_guid as nat, 8);
            lemma_be_roundtrip(i64_bits(request_timestamp), 8);
            lemma_pow256_values();
            assert(s.subrange(1, 9) =~= be_bytes(client_guid as nat, 8));
            assert(s.subrange(9, 17) =~= be_bytes(i64_bits(request_timestamp), 8));
        },
        FrameBody::ConnectionRequestAccepted { .. } => {
            lemma_type_of(s[0], PackType::ConnectionRequestAccepted);
            lemma_accepted_roundtrip(body);
        },
        FrameBody::NewIncomingConnection { .. } => {
            lemma_type_of(s[0], PackType::NewIncomingConnection);
            lemma_incoming_roundtrip(body);
        },
        FrameBody::DisconnectNotification => {
            lemma_type_of(s[0], PackType::DisconnectNotification);
        },
        FrameBody::DetectLostConnections => {
            lemma_type_of(s[0], PackType::DetectLostConnections);
        },
        FrameBody::User(_) => {},
    }
}

} // verus!
