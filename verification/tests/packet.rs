use bytes::{Bytes, BytesMut};
use raknet_rs::codec::framed::Framed;
use raknet_rs::errors::CodecError;
use raknet_rs::packet::address::SocketAddr;
use raknet_rs::packet::connected::ack::{AckOrNack, Record};
use raknet_rs::packet::connected::body::FrameBody;
use raknet_rs::packet::connected::flags::Flags;
use raknet_rs::packet::connected::frame::{Fragment, Frame, Ordered};
use raknet_rs::packet::connected::frame_set::FrameSet;
use raknet_rs::packet::connected::packet as connected;
use raknet_rs::packet::connected::reliability::Reliability;
use raknet_rs::packet::datagram::Packet;
use raknet_rs::packet::magic::MAGIC;
use raknet_rs::packet::pack_type::PackType;
use raknet_rs::packet::unconnected;
use raknet_rs::uint24::u24;

type Received = Packet<Vec<Frame<BytesMut>>>;

const V4: SocketAddr = SocketAddr::V4 {
    ip: 0x0b2d_0e13,
    port: 19810,
};

const V6: SocketAddr = SocketAddr::V6 {
    ip: 0x2001_0db8_0000_0000_0000_0000_0000_0001,
    port: 19132,
    flow_info: 7,
    scope_id: 9,
};

fn read(bytes: &[u8]) -> Result<Option<Received>, CodecError> {
    Packet::read(&mut BytesMut::from(bytes))
}

fn written(packet: unconnected::Packet<Bytes>) -> BytesMut {
    let mut buf = BytesMut::new();
    packet.write(&mut buf);
    buf
}

fn unconnected_ping() -> unconnected::Packet<Bytes> {
    unconnected::Packet::UnconnectedPing {
        send_timestamp: 0,
        client_guid: 114514,
    }
}

#[test]
fn test_truncated_will_not_panic() {
    let mut framed = Framed::new();
    framed.rd.extend_from_slice(&[1]);
    framed.received(V4);
    assert_eq!(
        framed.decode(),
        Err(CodecError::InvalidPacketLength("particular sized pack"))
    );
    framed.rd.extend_from_slice(&written(unconnected_ping()));
    framed.received(V4);
    let (packet, addr) = framed.decode().unwrap().unwrap();
    assert_eq!(packet, Packet::Unconnected(unconnected_ping()));
    assert_eq!(addr, V4);
}

#[test]
fn every_truncation_is_an_error() {
    let frame = frame(Reliability::ReliableOrdered, true, "body");
    let mut buf = BytesMut::new();
    connected::Packet::FrameSet(FrameSet {
        seq_num: u24(1),
        set: vec![frame],
    })
    .write(&mut buf);
    for packet in [
        written(unconnected_ping()),
        written(unconnected::Packet::OpenConnectionReply2 {
            server_guid: 1,
            client_address: V6,
            mtu: 1400,
            encryption_enabled: false,
        }),
        BytesMut::from(&[0xc0, 0, 1, 0, 1, 0, 0, 2, 0, 0][..]),
        buf,
    ] {
        assert!(read(&packet).unwrap().is_some());
        for n in 1..packet.len() {
            assert!(read(&packet[..n]).is_err());
        }
    }
}

#[test]
fn nothing_to_read() {
    assert_eq!(read(&[]), Ok(None));
    // a zero byte asks for more data
    let mut buf = BytesMut::from(&[0, 1, 2][..]);
    assert_eq!(Packet::read(&mut buf), Ok(None));
    assert!(buf.is_empty());
}

#[test]
fn unknown_types_are_refused() {
    assert_eq!(read(&[0x7f]), Err(CodecError::InvalidPacketType(0x7f)));
    // known, but not as the first byte of a datagram
    assert_eq!(read(&[0x10]), Err(CodecError::InvalidPacketType(0x10)));
}

#[test]
fn unconnected_packets_survive_the_trip() {
    for packet in [
        || unconnected_ping(),
        || unconnected::Packet::UnconnectedPing {
            send_timestamp: -2,
            client_guid: u64::MAX,
        },
        || unconnected::Packet::UnconnectedPong {
            send_timestamp: 5,
            server_guid: 6,
            data: Bytes::from_static(b"MCPE"),
        },
        || unconnected::Packet::OpenConnectionRequest1 {
            protocol_version: 11,
            mtu: 1000,
        },
        || unconnected::Packet::OpenConnectionReply1 {
            server_guid: 3,
            use_encryption: false,
            mtu: 1400,
        },
        || unconnected::Packet::OpenConnectionRequest2 {
            server_address: V4,
            mtu: 1400,
            client_guid: 114514,
        },
        || unconnected::Packet::OpenConnectionRequest2 {
            server_address: V6,
            mtu: 1400,
            client_guid: 114514,
        },
        || unconnected::Packet::OpenConnectionReply2 {
            server_guid: 3,
            client_address: V6,
            mtu: 1200,
            encryption_enabled: false,
        },
        || unconnected::Packet::IncompatibleProtocol {
            server_protocol: 9,
            server_guid: 4,
        },
        || unconnected::Packet::AlreadyConnected { server_guid: 5 },
        || unconnected::Packet::ConnectionRequestFailed { server_guid: 6 },
    ] {
        let mut buf = written(packet());
        assert_eq!(PackType::from_u8(buf[0]), Ok(packet().pack_type()));
        assert_eq!(
            Packet::read(&mut buf).unwrap().unwrap(),
            Packet::Unconnected(packet())
        );
        assert!(buf.is_empty());
    }
}

#[test]
fn ping_on_the_wire() {
    let mut expected = vec![0x01, 0xff, 0xff, 0xff, 0xff, 0xff, 0xff, 0xff, 0xfe];
    expected.extend_from_slice(&MAGIC);
    expected.extend_from_slice(&[0, 0, 0, 0, 0, 1, 0xbf, 0x52]);
    let ping = unconnected::Packet::UnconnectedPing {
        send_timestamp: -2,
        client_guid: 114514,
    };
    assert_eq!(&written(ping)[..], &expected[..]);
}

#[test]
fn pong_data_is_as_long_as_announced() {
    let pong = unconnected::Packet::UnconnectedPong {
        send_timestamp: 5,
        server_guid: 6,
        data: Bytes::from_static(b"MCPE"),
    };
    let mut buf = written(pong);
    buf.extend_from_slice(b"more");
    match Packet::read(&mut buf).unwrap().unwrap() {
        Packet::Unconnected(unconnected::Packet::UnconnectedPong { data, .. }) => {
            assert_eq!(&data[..], b"MCPE")
        }
        _ => panic!("should be a pong"),
    }
    assert_eq!(&buf[..], b"more");
}

#[test]
fn encryption_is_written_as_off() {
    let reply = unconnected::Packet::OpenConnectionReply1 {
        server_guid: 3,
        use_encryption: true,
        mtu: 1400,
    };
    assert_eq!(
        read(&written(reply)).unwrap().unwrap(),
        Packet::Unconnected(unconnected::Packet::OpenConnectionReply1 {
            server_guid: 3,
            use_encryption: false,
            mtu: 1400,
        })
    );
}

#[test]
fn broken_magic_is_refused() {
    let mut buf = written(unconnected_ping());
    buf[9 + 3] = 0x77;
    assert_eq!(read(&buf), Err(CodecError::MagicNotMatched(3, 0x77)));
}

#[test]
fn broken_addresses_are_refused() {
    let request = |server_address| {
        written(unconnected::Packet::OpenConnectionRequest2 {
            server_address,
            mtu: 1400,
            client_guid: 1,
        })
    };
    let mut buf = request(V4);
    buf[17] = 5;
    assert_eq!(read(&buf), Err(CodecError::InvalidIPVer(5)));
    let mut buf = request(V6);
    buf[19] = 0x18;
    assert_eq!(read(&buf), Err(CodecError::InvalidIPV6Family(0x18)));
}

#[test]
fn addresses_on_the_wire() {
    let buf = written(unconnected::Packet::OpenConnectionRequest2 {
        server_address: V4,
        mtu: 1400,
        client_guid: 1,
    });
    assert_eq!(&buf[17..24], &[4, 11, 45, 14, 19, 0x4d, 0x62]);
    let buf = written(unconnected::Packet::OpenConnectionRequest2 {
        server_address: V6,
        mtu: 1400,
        client_guid: 1,
    });
    assert_eq!(
        &buf[17..46],
        &[
            6, 0, 0x17, 0x4a, 0xbc, 0, 0, 0, 7, 0x20, 0x01, 0x0d, 0xb8, 0, 0, 0, 0, 0, 0, 0, 0, 0,
            0, 0, 1, 0, 0, 0, 9
        ]
    );
}

fn frame(reliability: Reliability, parted: bool, body: &'static str) -> Frame<Bytes> {
    Frame {
        flags: Flags::new(reliability, parted),
        reliable_frame_index: if reliability.is_reliable() { Some(u24(0x010203)) } else { None },
        seq_frame_index: if reliability.is_sequenced() { Some(u24(4)) } else { None },
        ordered: if reliability.is_sequenced_or_ordered() {
            Some(Ordered {
                frame_index: u24(5),
                channel: 6,
            })
        } else {
            None
        },
        fragment: if parted {
            Some(Fragment {
                parted_size: 7,
                parted_id: 8,
                parted_index: 2,
            })
        } else {
            None
        },
        body: Bytes::from_static(body.as_bytes()),
    }
}

const ALL: [Reliability; 8] = [
    Reliability::Unreliable,
    Reliability::UnreliableSequenced,
    Reliability::Reliable,
    Reliability::ReliableOrdered,
    Reliability::ReliableSequenced,
    Reliability::UnreliableWithAckReceipt,
    Reliability::ReliableWithAckReceipt,
    Reliability::ReliableOrderedWithAckReceipt,
];

#[test]
fn frame_sets_survive_the_trip() {
    for reliability in ALL {
        for parted in [false, true] {
            let frames = || vec![frame(reliability, parted, "first"), frame(reliability, false, "2")];
            let mut buf = BytesMut::new();
            connected::Packet::FrameSet(FrameSet {
                seq_num: u24(0x030201),
                set: frames(),
            })
            .write(&mut buf);
            let mut by_ref = BytesMut::new();
            connected::Packet::FrameSet(FrameSet {
                seq_num: u24(0x030201),
                set: &frames()[..],
            })
            .write_ref(&mut by_ref);
            assert_eq!(buf, by_ref);
            assert_eq!(buf[0], if parted { 0x8c } else { 0x84 });
            assert_eq!(&buf[1..4], &[1, 2, 3]);
            assert_eq!(
                buf.len(),
                4 + frames()[0].size() + frames()[1].size()
            );
            match Packet::read(&mut buf).unwrap().unwrap() {
                Packet::Connected(connected::Packet::FrameSet(set)) => {
                    assert_eq!(set.seq_num, u24(0x030201));
                    let set: Vec<Frame<Bytes>> = set.set.into_iter().map(|f| f.freeze()).collect();
                    assert_eq!(set, frames());
                }
                _ => panic!("should be a frame set"),
            }
        }
    }
}

#[test]
fn frame_on_the_wire() {
    let mut buf = BytesMut::new();
    frame(Reliability::ReliableOrdered, true, "hi").write(&mut buf);
    assert_eq!(
        &buf[..],
        &[
            0b0111_0100, 0, 16, 3, 2, 1, 5, 0, 0, 6, 0, 0, 0, 7, 0, 8, 0, 0, 0, 2, b'h', b'i'
        ]
    );
}

#[test]
fn broken_frame_sets_are_refused() {
    // no frame
    assert_eq!(
        read(&[0x80, 0, 0, 0]),
        Err(CodecError::InvalidPacketLength("frame set"))
    );
    // a frame without a body
    assert_eq!(
        read(&[0x80, 0, 0, 0, 0, 0, 7]),
        Err(CodecError::InvalidPacketLength("frame length"))
    );
}

#[test]
fn flags_and_their_byte() {
    for reliability in ALL {
        for parted in [false, true] {
            let flags = Flags::new(reliability, parted);
            assert_eq!(Flags::parse(flags.raw), flags);
            assert!(flags.needs_bas);
        }
    }
    assert_eq!(Flags::parse(0b011_11100).reliability, Reliability::ReliableOrdered);
    assert_eq!(ALL.map(|r| r.size()), [3, 10, 6, 10, 13, 3, 6, 10]);
    assert_eq!(ALL.map(|r| r.to_u8()), [0, 1, 2, 3, 4, 5, 6, 7]);
}

#[test]
fn reassembled_frames_lose_the_parted_flag_only() {
    let f = frame(Reliability::ReliableOrdered, true, "x");
    let f = Frame {
        flags: f.flags,
        reliable_frame_index: f.reliable_frame_index,
        seq_frame_index: f.seq_frame_index,
        ordered: f.ordered,
        fragment: f.fragment,
        body: BytesMut::from(&b"x"[..]),
    };
    let f = f.reassembled();
    assert_eq!(f.flags, Flags::new(Reliability::ReliableOrdered, false));
    assert_eq!(f.fragment, None);
    assert_eq!(f.reliable_frame_index, Some(u24(0x010203)));
}

#[test]
fn acks_survive_the_trip() {
    let records = || vec![Record::Range(u24(3), u24(9)), Record::Single(u24(0xff_ffff))];
    let mut buf = BytesMut::new();
    let ack: connected::Packet<Vec<Frame<Bytes>>> = connected::Packet::Ack(AckOrNack { records: records() });
    ack.write(&mut buf);
    assert_eq!(buf[0], 0xc0);
    assert_eq!(
        Packet::read(&mut buf).unwrap().unwrap(),
        Packet::Connected(connected::Packet::Ack(AckOrNack { records: records() }))
    );
    let nack: connected::Packet<Vec<Frame<Bytes>>> = connected::Packet::Nack(AckOrNack { records: records() });
    nack.write(&mut buf);
    assert_eq!(buf[0], 0xa0);
    assert_eq!(
        Packet::read(&mut buf).unwrap().unwrap(),
        Packet::Connected(connected::Packet::Nack(AckOrNack { records: records() }))
    );
}

#[test]
fn broken_acks_are_refused() {
    assert_eq!(
        read(&[0xc0, 0]),
        Err(CodecError::InvalidPacketLength("particular sized pack"))
    );
    assert_eq!(
        read(&[0xc0, 0, 1, 2, 0, 0, 0]),
        Err(CodecError::InvalidRecordType(2))
    );
    // 0-8191 is as much as is accepted
    assert!(read(&[0xc0, 0, 1, 0, 0, 0, 0, 0xff, 0x1f, 0]).is_ok());
    assert_eq!(
        read(&[0xc0, 0, 1, 0, 0, 0, 0, 0, 0x20, 0]),
        Err(CodecError::AckCountExceed(8193))
    );
}

#[test]
fn pack_types_and_their_bytes() {
    let mut known = 0;
    for id in 0..=255u8 {
        match PackType::from_u8(id) {
            Ok(t) => {
                known += 1;
                if id < 0x80 {
                    assert_eq!(t.to_u8(), id);
                } else {
                    assert_eq!(t.is_ack(), id >= 0xc0);
                    assert_eq!(t.is_nack(), (0xa0..0xc0).contains(&id));
                    assert_eq!(t.is_frame_set(), id < 0xa0);
                }
            }
            Err(e) => assert_eq!(e, CodecError::InvalidPacketType(id)),
        }
    }
    assert_eq!(known, 23 + 128);
}

fn body_bytes(body: FrameBody<Bytes, [SocketAddr; 20]>) -> Bytes {
    let mut buf = BytesMut::new();
    body.write(&mut buf);
    buf.freeze()
}

#[test]
fn bodies_survive_the_trip() {
    let mut addresses = [V4; 20];
    addresses[3] = V6;
    for body in [
        || FrameBody::ConnectedPing { client_timestamp: -7 },
        || FrameBody::ConnectedPong {
            client_timestamp: 1,
            server_timestamp: i64::MIN,
        },
        || FrameBody::ConnectionRequest {
            client_guid: 114514,
            request_timestamp: 3,
            use_encryption: true,
        },
        || FrameBody::DisconnectNotification,
        || FrameBody::DetectLostConnections,
        || FrameBody::User(Bytes::from_static(b"\xfeuser")),
    ] {
        assert_eq!(FrameBody::read(body_bytes(body())), Ok(body()));
    }
    let accepted = || FrameBody::ConnectionRequestAccepted {
        client_address: V6,
        system_index: 77,
        system_addresses: addresses,
        request_timestamp: 1,
        accepted_timestamp: 2,
    };
    assert_eq!(FrameBody::read(body_bytes(accepted())), Ok(accepted()));
    let incoming = || FrameBody::NewIncomingConnection {
        server_address: V4,
        system_addresses: addresses,
        request_timestamp: 1,
        accepted_timestamp: -2,
    };
    assert_eq!(FrameBody::read(body_bytes(incoming())), Ok(incoming()));
}

#[test]
fn missing_addresses_are_filled_with_the_first() {
    let mut buf = vec![0x13];
    for (ver, port) in [(4u8, 1u8), (4, 2), (4, 3)] {
        buf.extend_from_slice(&[ver, 127, 0, 0, 1, 0, port]);
    }
    buf.extend_from_slice(&[0, 0, 0, 0, 0, 0, 0, 5, 0, 0, 0, 0, 0, 0, 0, 6]);
    let local = |port| SocketAddr::V4 { ip: 0x7f00_0001, port };
    let mut expected = [local(2); 20];
    expected[1] = local(3);
    assert_eq!(
        FrameBody::read(Bytes::from(buf.clone())),
        Ok(FrameBody::NewIncomingConnection {
            server_address: local(1),
            system_addresses: expected,
            request_timestamp: 5,
            accepted_timestamp: 6,
        })
    );
    // without both time stamps
    let mut short = vec![0x13, 4, 127, 0, 0, 1, 0, 1, 4, 127, 0, 0, 1, 0, 2];
    short.extend_from_slice(&[0; 15]);
    assert_eq!(
        FrameBody::read(Bytes::from(short)),
        Err(CodecError::InvalidPacketLength("frame body"))
    );
}

#[test]
fn short_bodies_are_refused() {
    for id in [0x00u8, 0x03, 0x09, 0x10, 0x13] {
        assert_eq!(
            FrameBody::read(Bytes::from(vec![id])),
            Err(CodecError::InvalidPacketLength("particular sized pack"))
        );
    }
    // the body of a user may start like a packet that has no place in a frame
    assert_eq!(
        FrameBody::read(Bytes::from_static(&[0x05])),
        Ok(FrameBody::User(Bytes::from_static(&[0x05])))
    );
}

#[test]
fn datagrams_are_sent_whole() {
    let mut framed = Framed::new();
    assert!(framed.ready());
    framed.send_unconnected(unconnected_ping(), V4);
    assert!(!framed.ready());
    assert_eq!(framed.out_addr, V4);
    assert_eq!(framed.wr, written(unconnected_ping()));
    let n = framed.wr.len();
    assert!(framed.sent(n));
    assert!(framed.ready());
    assert!(framed.wr.is_empty());

    let frames = vec![frame(Reliability::Reliable, false, "x")];
    framed.send_connected(
        connected::Packet::FrameSet(FrameSet {
            seq_num: u24(9),
            set: &frames[..],
        }),
        V6,
    );
    assert_eq!(&framed.wr[..5], &[0x84, 9, 0, 0, 0b0100_0100]);
    assert!(!framed.sent(3));

    framed.rd.extend_from_slice(b"half");
    framed.receive_failed();
    assert!(framed.rd.is_empty());
}
