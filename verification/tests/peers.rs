use bytes::{Bytes, BytesMut};
use raknet_rs::codec::config::CodecConfig;
use raknet_rs::codec::peers::{inner_pack_type, PeerCodec};
use raknet_rs::errors::CodecError;
use raknet_rs::packet::address::SocketAddr;
use raknet_rs::packet::connected::flags::Flags;
use raknet_rs::packet::connected::frame::{Fragment, Frame, Ordered};
use raknet_rs::packet::connected::frame_set::FrameSet;
use raknet_rs::packet::pack_type::PackType;
use raknet_rs::uint24::u24;

const ADDR1: SocketAddr = SocketAddr::V4 {
    ip: 0x7f00_0001,
    port: 8080,
};

const ADDR2: SocketAddr = SocketAddr::V4 {
    ip: 0x7f00_0001,
    port: 8081,
};

fn ordered_set(idx: &[(u8, u32)]) -> FrameSet<Vec<Frame<Bytes>>> {
    FrameSet {
        seq_num: u24(0),
        set: idx
            .iter()
            .map(|(channel, frame_index)| Frame {
                flags: Flags::parse(0b011_11100),
                reliable_frame_index: None,
                seq_frame_index: None,
                ordered: Some(Ordered {
                    frame_index: u24(*frame_index),
                    channel: *channel,
                }),
                fragment: None,
                body: Bytes::new(),
            })
            .collect(),
    }
}

fn parted_set(parts: &[(u32, u16, u32, &str)]) -> FrameSet<Vec<Frame<BytesMut>>> {
    FrameSet {
        seq_num: u24(0),
        set: parts
            .iter()
            .map(|(parted_size, parted_id, parted_index, body)| Frame {
                flags: Flags::parse(0b011_11100),
                reliable_frame_index: None,
                seq_frame_index: None,
                ordered: None,
                fragment: Some(Fragment {
                    parted_size: *parted_size,
                    parted_id: *parted_id,
                    parted_index: *parted_index,
                }),
                body: BytesMut::from(*body),
            })
            .collect(),
    }
}

fn numbered_set(idx: &[u32]) -> FrameSet<Vec<Frame<BytesMut>>> {
    FrameSet {
        seq_num: u24(0),
        set: idx
            .iter()
            .map(|i| Frame {
                flags: Flags::parse(0b010_00100),
                reliable_frame_index: Some(u24(*i)),
                seq_frame_index: None,
                ordered: None,
                fragment: None,
                body: BytesMut::from("x"),
            })
            .collect(),
    }
}

fn codec() -> PeerCodec {
    PeerCodec::new(CodecConfig::new(20, 512), 10)
}

#[test]
fn peers_are_ordered_on_their_own() {
    let mut codec = codec();
    assert_eq!(
        codec
            .order(ordered_set(&[(0, 1), (0, 0), (0, 2), (0, 4), (0, 3)]), ADDR1)
            .unwrap()
            .unwrap(),
        ordered_set(&[(0, 0), (0, 1), (0, 2), (0, 3), (0, 4)])
    );
    assert_eq!(codec.order(ordered_set(&[(1, 1)]), ADDR1), Ok(None));
    assert_eq!(
        codec
            .order(ordered_set(&[(3, 1), (0, 0), (0, 2), (0, 1), (0, 3)]), ADDR2)
            .unwrap()
            .unwrap(),
        ordered_set(&[(0, 0), (0, 1), (0, 2), (0, 3)])
    );
    assert_eq!(
        codec.order(ordered_set(&[(3, 0)]), ADDR2).unwrap().unwrap(),
        ordered_set(&[(3, 0), (3, 1)])
    );
}

#[test]
fn channels_of_peers_are_limited() {
    let mut codec = codec();
    assert!(matches!(
        codec.order(ordered_set(&[(0, 0), (10, 1)]), ADDR1).unwrap_err(),
        CodecError::OrderedFrame(_)
    ));
    // what came before the fault is lost with it
    assert_eq!(codec.order(ordered_set(&[(0, 0)]), ADDR1), Ok(None));
}

#[test]
fn peers_are_defragmented_on_their_own() {
    let mut codec = codec();
    let text = |r: Result<Option<FrameSet<Vec<Frame<Bytes>>>>, CodecError>| -> Vec<String> {
        r.unwrap()
            .map(|set| {
                set.set
                    .iter()
                    .map(|f| String::from_utf8(f.body.to_vec()).unwrap())
                    .collect()
            })
            .unwrap_or_default()
    };
    let first = parted_set(&[(5, 7, 0, "h"), (5, 7, 3, "p"), (5, 7, 4, "y"), (5, 6, 4, "k")]);
    assert!(text(codec.defragment(first, ADDR1)).is_empty());
    let other = parted_set(&[(5, 7, 0, "f"), (5, 7, 3, "n"), (5, 7, 4, "y")]);
    assert!(text(codec.defragment(other, ADDR2)).is_empty());
    let first = parted_set(&[(5, 7, 2, "p"), (5, 7, 1, "a"), (5, 7, 4, "y")]);
    assert_eq!(text(codec.defragment(first, ADDR1)), vec!["happy"]);
    let other = parted_set(&[(5, 7, 2, "n"), (5, 7, 1, "u"), (5, 7, 0, "f")]);
    assert_eq!(text(codec.defragment(other, ADDR2)), vec!["funny"]);

    let bad = parted_set(&[(1, 3, 0, "lost"), (10, 7, 10, "h")]);
    assert!(matches!(codec.defragment(bad, ADDR1), Err(CodecError::PartedFrame(..))));
    assert!(text(codec.defragment(parted_set(&[]), ADDR1)).is_empty());
}

#[test]
fn parts_that_wait_count_once() {
    let mut codec = codec();
    let body = |set: FrameSet<Vec<Frame<Bytes>>>| String::from_utf8(set.set[0].body.to_vec()).unwrap();
    let set = parted_set(&[(3, 7, 0, "a"), (3, 7, 0, "a"), (3, 7, 1, "b")]);
    assert_eq!(codec.defragment(set, ADDR1), Ok(None));
    let set = parted_set(&[(3, 7, 1, "b")]);
    assert_eq!(codec.defragment(set, ADDR1), Ok(None));
    let set = parted_set(&[(3, 7, 2, "c")]);
    assert_eq!(body(codec.defragment(set, ADDR1).unwrap().unwrap()), "abc");
    // a part with another body is another part
    let set = parted_set(&[(2, 8, 0, "a"), (2, 8, 0, "b")]);
    assert_eq!(body(codec.defragment(set, ADDR1).unwrap().unwrap()), "ab");
}

#[test]
fn peers_are_deduplicated_on_their_own() {
    let mut codec = codec();
    assert_eq!(codec.deduplicate(numbered_set(&[0, 1, 1]), ADDR1), numbered_set(&[0, 1]));
    assert_eq!(codec.deduplicate(numbered_set(&[1, 2]), ADDR1), numbered_set(&[2]));
    assert_eq!(codec.deduplicate(numbered_set(&[1, 2]), ADDR2), numbered_set(&[1, 2]));
    assert_eq!(codec.deduplicate(numbered_set(&[0]), ADDR1), numbered_set(&[]));
}

#[test]
fn peers_that_leave_are_forgotten() {
    let mut codec = codec();
    codec.deduplicate(numbered_set(&[0]), ADDR1);
    codec.deduplicate(numbered_set(&[0]), ADDR2);
    let body = |body: &'static [u8]| {
        let mut set = ordered_set(&[(0, 0)]);
        set.set[0].body = Bytes::from_static(body);
        set
    };
    assert_eq!(codec.sending(&body(&[0x04]), ADDR1), Ok(()));
    assert_eq!(codec.deduplicate(numbered_set(&[0]), ADDR1), numbered_set(&[]));
    assert_eq!(codec.sending(&body(&[0x15]), ADDR1), Ok(()));
    assert_eq!(codec.deduplicate(numbered_set(&[0]), ADDR1), numbered_set(&[0]));
    assert_eq!(codec.deduplicate(numbered_set(&[0]), ADDR2), numbered_set(&[]));

    assert_eq!(inner_pack_type(&body(&[0x15])), Ok(PackType::DisconnectNotification));
    assert_eq!(
        codec.sending(&body(&[0x7f]), ADDR1),
        Err(CodecError::InvalidPacketType(0x7f))
    );
    assert_eq!(
        codec.sending(&body(&[]), ADDR1),
        Err(CodecError::InvalidPacketLength("frame body"))
    );
}
