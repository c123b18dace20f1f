use bytes::{Bytes, BytesMut};
use raknet_rs::client::config::Config;
use raknet_rs::client::offline::{filter_connected, OfflineHandler, Task};
use raknet_rs::client::online::{OnlineHandler, State};
use raknet_rs::codec::config::{CodecConfig, Config as CodecSettings};
use raknet_rs::codec::encoder::body::encode;
use raknet_rs::codec::micro_bench::{bytes, elements, fragment_all, pack};
use raknet_rs::codec::pipeline::Decoder;
use raknet_rs::codec::sender::Sender;
use raknet_rs::errors::{ChannelError, CodecError};
use raknet_rs::guard::outgoing::{Flush, OutgoingGuard};
use raknet_rs::link::TransferLink;
use raknet_rs::message::{Message, Priority};
use raknet_rs::opts::FlushStrategy;
use raknet_rs::packet::address::SocketAddr;
use raknet_rs::packet::connected::body::FrameBody;
use raknet_rs::packet::connected::flags::Flags;
use raknet_rs::packet::connected::frame::{Frame, Ordered};
use raknet_rs::packet::connected::frame_set::FrameSet;
use raknet_rs::packet::connected::packet as connected;
use raknet_rs::packet::connected::reliability::Reliability;
use raknet_rs::packet::datagram::Packet;
use raknet_rs::packet::unconnected;
use raknet_rs::peer::{Peer, Role};
use raknet_rs::uint24::u24;

const SERVER: SocketAddr = SocketAddr::V4 {
    ip: 0x7f00_0001,
    port: 19132,
};

const OTHER: SocketAddr = SocketAddr::V4 {
    ip: 0x7f00_0001,
    port: 19133,
};

#[test]
fn client_settings() {
    let config = Config::with_guid(7);
    assert_eq!(config.mtu, 1400);
    assert_eq!(config.protocol_version, 9);
    assert_eq!(config.max_parted_size, 256);
    assert_eq!(config.max_parted_count, 256);
    assert_eq!(config.max_channels, 1);
    let config = config
        .mtu(1000)
        .client_guid(114514)
        .protocol_version(11)
        .max_parted_size(1)
        .max_parted_count(2)
        .max_channels(3);
    let offline = config.offline_config();
    assert_eq!((offline.mtu, offline.client_guid, offline.protocol_version), (1000, 114514, 11));
    let codec = config.codec_config();
    assert_eq!(
        (codec.max_parted_size, codec.max_parted_count, codec.max_channels),
        (1, 2, 3)
    );
    assert_eq!(config.client_role(), Role::Client { guid: 114514 });
    assert_eq!(config.client_role().guid(), 114514);
}

#[test]
fn guids_are_random() {
    let guids: Vec<u64> = (0..4).map(|_| Config::new().client_guid).collect();
    assert!(guids.iter().any(|g| *g != guids[0]));
    assert_eq!(Config::default().client_guid(0), Config::with_guid(0));
}

#[test]
fn codec_settings() {
    let config = CodecSettings::default();
    assert_eq!(
        (config.max_parted_size, config.max_parted_count, config.max_channels),
        (256, 256, 1)
    );
    assert_eq!(CodecConfig::default(), CodecConfig::new(256, 256));
    assert_eq!(CodecConfig::new(1, 2).limit_parted, 2);
}

fn reply1() -> Packet<Vec<Frame<BytesMut>>> {
    Packet::Unconnected(unconnected::Packet::OpenConnectionReply1 {
        server_guid: 1919810,
        use_encryption: false,
        mtu: 1200,
    })
}

fn reply2() -> Packet<Vec<Frame<BytesMut>>> {
    Packet::Unconnected(unconnected::Packet::OpenConnectionReply2 {
        server_guid: 1919810,
        client_address: OTHER,
        mtu: 1100,
        encryption_enabled: false,
    })
}

#[test]
fn handshake_before_the_connection() {
    let config = Config::with_guid(114514).mtu(1000).protocol_version(11);
    let mut handler = OfflineHandler::new(SERVER, config.offline_config());
    assert_eq!(handler.task(), Task::Send);
    assert_eq!(
        handler.next_packet(),
        Some(unconnected::Packet::OpenConnectionRequest1 {
            protocol_version: 11,
            mtu: 1000
        })
    );
    assert_eq!(handler.task(), Task::Flush);
    assert_eq!(handler.next_packet(), None);
    handler.flushed();
    assert_eq!(handler.task(), Task::Receive);
    // from elsewhere, and out of turn
    handler.received(reply1(), OTHER);
    handler.received(reply2(), SERVER);
    assert_eq!(handler.task(), Task::Receive);
    handler.received(reply1(), SERVER);
    assert_eq!(handler.task(), Task::Send);
    assert_eq!(
        handler.next_packet(),
        Some(unconnected::Packet::OpenConnectionRequest2 {
            server_address: SERVER,
            mtu: 1200,
            client_guid: 114514
        })
    );
    handler.flushed();
    handler.received(reply1(), SERVER);
    assert_eq!(handler.task(), Task::Receive);
    handler.received(reply2(), SERVER);
    assert_eq!(
        handler.task(),
        Task::Finished(Peer {
            guid: 1919810,
            addr: SERVER,
            mtu: 1100
        })
    );
}

#[test]
fn handshake_hands_out_two_requests() {
    let config = Config::with_guid(114514).mtu(1000).protocol_version(11);
    let mut handler = OfflineHandler::new(SERVER, config.offline_config());
    let mut taken = Vec::new();
    // whatever is done in whatever order
    for _ in 0..4 {
        handler.received(reply2(), SERVER);
        handler.received(reply2(), OTHER);
        taken.extend(handler.next_packet());
        taken.extend(handler.next_packet());
        handler.received(reply1(), SERVER);
        handler.flushed();
        handler.flushed();
        handler.received(reply1(), OTHER);
        handler.received(reply1(), SERVER);
    }
    assert!(matches!(handler.task(), Task::Finished(_)));
    assert_eq!(
        taken,
        vec![
            unconnected::Packet::OpenConnectionRequest1 {
                protocol_version: 11,
                mtu: 1000
            },
            unconnected::Packet::OpenConnectionRequest2 {
                server_address: SERVER,
                mtu: 1200,
                client_guid: 114514
            }
        ]
    );
}

#[test]
fn only_the_server_is_heard() {
    let packet = || {
        Packet::Connected(connected::Packet::FrameSet(FrameSet {
            seq_num: u24(0),
            set: vec![],
        }))
    };
    assert!(filter_connected(SERVER, packet(), SERVER).is_some());
    assert!(filter_connected(SERVER, packet(), OTHER).is_none());
    assert!(filter_connected(SERVER, reply1(), SERVER).is_none());
}

#[test]
fn handshake_on_the_connection() {
    let mut link = TransferLink::new();
    let mut handler = OnlineHandler::new(SERVER, 114514, &mut link, 42);
    assert_eq!(
        link.process_frame_body(),
        Some(FrameBody::ConnectionRequest {
            client_guid: 114514,
            request_timestamp: 42,
            use_encryption: false
        })
    );
    // ignored until the connection is there
    let user = || FrameBody::User(Bytes::from_static(b"\xfehi"));
    assert_eq!(handler.handle(user(), &mut link, 43), None);
    assert_eq!(handler.handle(FrameBody::DetectLostConnections, &mut link, 43), None);
    assert!(link.frame_body_empty());
    let accepted = FrameBody::ConnectionRequestAccepted {
        client_address: OTHER,
        system_index: 0,
        system_addresses: [OTHER; 20],
        request_timestamp: 42,
        accepted_timestamp: 50,
    };
    assert_eq!(handler.handle(accepted, &mut link, 44), None);
    assert_eq!(handler.state, State::Connected);
    assert_eq!(
        link.process_frame_body(),
        Some(FrameBody::NewIncomingConnection {
            server_address: SERVER,
            system_addresses: [OTHER; 20],
            request_timestamp: 44,
            accepted_timestamp: 50
        })
    );
    assert_eq!(
        handler.handle(user(), &mut link, 45),
        Some(Bytes::from_static(b"\xfehi"))
    );
    assert_eq!(handler.handle(FrameBody::DetectLostConnections, &mut link, 46), None);
    assert_eq!(
        link.process_frame_body(),
        Some(FrameBody::ConnectedPing { client_timestamp: 46 })
    );
    assert_eq!(handler.handle(FrameBody::DisconnectNotification, &mut link, 47), None);
    assert!(link.frame_body_empty());
}

#[test]
fn bodies_become_messages() {
    let msg = encode(FrameBody::ConnectedPing { client_timestamp: 1 });
    assert_eq!(msg.reliability, Reliability::Unreliable);
    assert_eq!(msg.order_channel, 0);
    assert_eq!(msg.priority, Priority::Medium);
    assert_eq!(&msg.data[..], &[0, 0, 0, 0, 0, 0, 0, 0, 1]);
    let msg = encode(FrameBody::DisconnectNotification);
    assert_eq!(msg.reliability, Reliability::Reliable);
    assert_eq!(&msg.data[..], &[0x15]);
    let msg = encode(FrameBody::ConnectionRequest {
        client_guid: 1,
        request_timestamp: 2,
        use_encryption: false,
    });
    assert_eq!(msg.reliability, Reliability::ReliableOrdered);
}

/// All bodies that can be passed on.
fn drain(decoder: &mut Decoder) -> Vec<Bytes> {
    let mut out = Vec::new();
    while let Some(r) = decoder.next_body() {
        match r.unwrap() {
            FrameBody::User(data) => out.push(data),
            _ => panic!("unexpected decoded result"),
        }
    }
    out
}

#[test]
fn test_bench() {
    let datagrams = || {
        vec![
            Bytes::from_static(b"hello"),
            Bytes::from_static(b"world"),
            Bytes::from_static(b"!"),
        ]
    };
    assert_eq!(bytes(&datagrams()), 11);
    assert_eq!(elements(&datagrams()), 3);
    for dup in [vec![], vec![true, true], vec![false, true, true]] {
        let mut sets = pack(fragment_all(datagrams(), 30), 30, &dup);
        sets.reverse();
        let mut decoder = Decoder::new(CodecSettings::default());
        let mut link = TransferLink::new();
        let mut out = Vec::new();
        for set in sets {
            decoder.accept(&mut link, set).unwrap();
            out.extend(drain(&mut decoder));
        }
        assert_eq!(out, datagrams());
    }
}

#[test]
fn frame_sets_of_a_bench() {
    let datagrams = vec![Bytes::from_static(b"hello"), Bytes::from_static(b"world")];
    // 10 + 5 bytes each behind a header of 4
    let sets = pack(fragment_all(datagrams, 30), 30, &vec![true]);
    let nums: Vec<u32> = sets.iter().map(|s| s.seq_num.to_u32()).collect();
    assert_eq!(nums, vec![0, 1, 2]);
    assert_eq!(sets[0].set, sets[1].set);
    assert_eq!(&sets[2].set[0].body[..], b"world");
}

#[test]
fn wrong_channels_are_reported() {
    let mut decoder = Decoder::new(CodecSettings::default());
    let mut link = TransferLink::new();
    let frame = Frame {
        flags: Flags::new(Reliability::ReliableOrdered, false),
        reliable_frame_index: Some(u24(0)),
        seq_frame_index: None,
        ordered: Some(Ordered {
            frame_index: u24(0),
            channel: 1,
        }),
        fragment: None,
        body: BytesMut::from(&b"\xfex"[..]),
    };
    decoder
        .accept(
            &mut link,
            FrameSet {
                seq_num: u24(0),
                set: vec![frame],
            },
        )
        .unwrap();
    assert_eq!(
        decoder.next_body(),
        Some(Err(CodecError::OrderedFrame(ChannelError {
            channel: 1,
            max_channels: 1
        })))
    );
    assert_eq!(decoder.next_body(), None);
}

/// Everything that is to be sent, as datagrams.
fn flush(guard: &mut OutgoingGuard, link: &mut TransferLink, now: u64) -> Vec<BytesMut> {
    guard.prepare(link, now);
    let mut flush = Flush::new(FlushStrategy::default());
    let mut out = Vec::new();
    while !flush.finished(link, &guard.buf) {
        let mut wr = BytesMut::new();
        guard.flush_step(link, &mut flush, now, &mut wr);
        if !wr.is_empty() {
            assert!(wr.len() <= guard.peer.mtu as usize);
            out.push(wr);
        }
    }
    out
}

#[test]
fn messages_arrive_over_a_bad_network() {
    let mtu = 100;
    let peer = Peer {
        guid: 1,
        addr: SERVER,
        mtu,
    };
    let mut sender = Sender::new(mtu, 2);
    let mut guard = OutgoingGuard::new(64, peer, Role::Client { guid: 2 }, 0);
    let mut near = TransferLink::new();
    let mut decoder = Decoder::new(CodecSettings {
        max_parted_size: 256,
        max_parted_count: 256,
        max_channels: 2,
    });
    let mut far = TransferLink::new();

    let large: Vec<u8> = (0..1000).map(|i| 0x80 | (i % 127) as u8).collect();
    let sent = vec![
        Bytes::from_static(b"\xfefirst"),
        Bytes::from(large),
        Bytes::from_static(b"\xfelast"),
    ];
    for data in sent.clone() {
        sender.send_message(Message::new(data).order_channel(1), &mut guard);
    }
    sender.send_body(FrameBody::DetectLostConnections, &mut guard);

    let mut out = Vec::new();
    let mut lost_checks = 0;
    let mut now = 0;
    for round in 0..40 {
        now += 600_000_000;
        let mut datagrams = flush(&mut guard, &mut near, now);
        datagrams.reverse();
        for (i, mut datagram) in datagrams.into_iter().enumerate() {
            // every third datagram is lost, and others arrive twice
            if round < 5 && i % 3 == 0 {
                continue;
            }
            let copy = datagram.clone();
            for d in [&mut datagram, &mut copy.clone()] {
                if let Some(Packet::Connected(packet)) = Packet::read(d).unwrap() {
                    if let Some(set) = far.filter_incoming_ack(packet, now) {
                        decoder.accept(&mut far, set).unwrap();
                    }
                }
                while let Some(body) = decoder.next_body() {
                    match body.unwrap() {
                        FrameBody::User(data) => out.push(data),
                        FrameBody::DetectLostConnections => lost_checks += 1,
                        _ => panic!("unexpected body"),
                    }
                }
            }
        }
        // the acknowledgements on their way back
        let mut back = OutgoingGuard::new(64, peer, Role::Server { guid: 1 }, 0);
        for mut datagram in flush(&mut back, &mut far, now) {
            if let Some(Packet::Connected(packet)) = Packet::read(&mut datagram).unwrap() {
                assert!(near.filter_incoming_ack(packet, now).is_none());
            }
        }
    }
    assert_eq!(out, sent);
    assert_eq!(lost_checks, 1);
    guard.prepare(&mut near, now);
    assert!(guard.resend.is_empty());
}
