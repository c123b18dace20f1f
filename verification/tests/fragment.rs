use bytes::{Bytes, BytesMut};
use rand::seq::SliceRandom;
use raknet_rs::codec::decoder::fragment::{DeFragment, SeqQueue};
use raknet_rs::codec::encoder::fragment::Fragment as Fragmented;
use raknet_rs::errors::{CodecError, PartedError};
use raknet_rs::message::Message;
use raknet_rs::packet::connected::flags::Flags;
use raknet_rs::packet::connected::frame::{Fragment, Frame, FRAGMENT_PART_SIZE};
use raknet_rs::packet::connected::frame_set::{FrameSet, FRAME_SET_HEADER_SIZE};
use raknet_rs::packet::connected::reliability::Reliability;
use raknet_rs::uint24::u24;

fn frame_set<'a, T: AsRef<str> + 'a>(
    idx: impl IntoIterator<Item = &'a (u32, u16, u32, T)>,
) -> FrameSet<Vec<Frame<BytesMut>>> {
    FrameSet {
        seq_num: u24(0),
        set: idx
            .into_iter()
            .map(|(parted_size, parted_id, parted_index, body)| Frame {
                flags: Flags::parse(0b011_11100),
                reliable_frame_index: None,
                seq_frame_index: None,
                ordered: None,
                fragment: Some(Fragment {
                    parted_size: *parted_size,
                    parted_id: *parted_id,
                    parted_index: *parted_index,
                }),
                body: BytesMut::from(body.as_ref()),
            })
            .collect(),
    }
}

fn no_frag_frame_set<'a>(
    bodies: impl IntoIterator<Item = &'a str>,
) -> FrameSet<Vec<Frame<BytesMut>>> {
    FrameSet {
        seq_num: u24(0),
        set: bodies
            .into_iter()
            .map(|body| Frame {
                flags: Flags::parse(0b011_11100),
                reliable_frame_index: None,
                seq_frame_index: None,
                ordered: None,
                fragment: None,
                body: BytesMut::from(body),
            })
            .collect(),
    }
}

struct Layer {
    frag: DeFragment,
    acks: SeqQueue,
    nacks: SeqQueue,
}

impl Layer {
    fn new(limit_size: u32, limit_parted: usize) -> Self {
        Layer {
            frag: DeFragment::new(limit_size, limit_parted),
            acks: SeqQueue::new(),
            nacks: SeqQueue::new(),
        }
    }

    fn accept(&mut self, set: FrameSet<Vec<Frame<BytesMut>>>) -> Result<(), CodecError> {
        self.frag.accept(set, &mut self.acks, &mut self.nacks)
    }

    fn text(&mut self) -> Option<String> {
        self.frag
            .next_ready()
            .map(|set| String::from_utf8(set.set.body.to_vec()).unwrap())
    }
}

#[test]
fn fragment_test_defragment_works() {
    let mut layer = Layer::new(0, 512);
    layer
        .accept(frame_set([
            &(5, 7, 0, "h"),
            &(5, 7, 3, "p"),
            &(5, 7, 4, "y"),
            &(5, 6, 4, "k"),
        ]))
        .unwrap();
    assert!(layer.frag.next_ready().is_none());
    layer
        .accept(frame_set([&(5, 7, 2, "p"), &(5, 7, 1, "a"), &(5, 7, 4, "y")]))
        .unwrap();

    let set = layer.frag.next_ready().unwrap();
    // frames should be merged
    assert_eq!(String::from_utf8(set.set.body.to_vec()).unwrap(), "happy");
    // wiped
    assert!(!set.set.flags.parted);
    assert!(set.set.fragment.is_none());
    // could only be polled once
    assert!(layer.frag.next_ready().is_none());
}

#[test]
fn fragment_test_defragment_bad_parted_index() {
    let mut layer = Layer::new(20, 512);
    assert!(matches!(
        layer.accept(frame_set([&(10, 7, 10, "h")])),
        Err(CodecError::PartedFrame(..))
    ));
    assert!(matches!(
        layer.accept(frame_set([&(22, 7, 6, "h")])),
        Err(CodecError::PartedFrame(..))
    ));
    assert!(layer.frag.next_ready().is_none());
}

#[test]
fn fragment_test_defragment_lru_dropped() {
    let mut layer = Layer::new(0, 2);
    for set in [
        frame_set([&(3, 0, 0, "0")]),
        frame_set([&(3, 1, 0, "0")]),
        frame_set([&(3, 2, 0, "0")]), // 3rd one will motivate lru to drop 1st one
        frame_set([&(3, 0, 1, "1")]),
        frame_set([&(3, 0, 2, "2")]), // cannot collect parted_id 0
        frame_set([&(3, 2, 2, "2")]),
    ] {
        layer.accept(set).unwrap();
    }
    assert!(layer.frag.next_ready().is_none());
    assert_eq!(layer.frag.pending_messages(), 2);
    assert_eq!(layer.frag.pending_parts(0).unwrap(), 2);
    assert_eq!(layer.frag.pending_parts(2).unwrap(), 2);
    assert_eq!(layer.frag.pending_parts(1), None);
}

#[test]
fn fragment_test_defragment_mixed() {
    let mut layer = Layer::new(0, 2);
    layer
        .accept(frame_set([
            &(5, 7, 0, "h"),
            &(5, 7, 3, "p"),
            &(5, 7, 4, "y"),
            &(5, 6, 4, "k"),
        ]))
        .unwrap();
    layer.accept(no_frag_frame_set(["funny"])).unwrap();
    layer
        .accept(frame_set([&(5, 7, 2, "p"), &(5, 7, 1, "a"), &(5, 7, 4, "y")]))
        .unwrap();
    assert_eq!(layer.text().unwrap(), "funny");
    assert_eq!(layer.text().unwrap(), "happy");
}

#[test]
fn parts_may_hold_anything() {
    let mut set = frame_set([&(3, 7, 2, ""), &(3, 7, 0, "x"), &(3, 7, 1, "a long body")]);
    set.set[0].flags = Flags::new(Reliability::Unreliable, false);
    set.set[1].flags = Flags::new(Reliability::ReliableSequenced, true);
    set.set[1].seq_frame_index = Some(u24(9));
    let (first, second) = set.set.split_at(1);
    let mut drained = Vec::new();
    let mut layer = Layer::new(0, 1);
    for frames in [first, second] {
        layer
            .accept(FrameSet {
                seq_num: u24(4),
                set: frames.to_vec(),
            })
            .unwrap();
        while let Some(set) = layer.frag.next_ready() {
            drained.push(set);
        }
    }
    assert_eq!(drained.len(), 1);
    let whole = &drained[0].set;
    assert_eq!(&whole.body[..], b"xa long body");
    assert_eq!(whole.fragment, None);
    assert_eq!(whole.flags, Flags::new(Reliability::ReliableSequenced, false));
    assert_eq!(whole.seq_frame_index, Some(u24(9)));
}

#[test]
fn split_message_arrives_among_others() {
    let mut layer = Layer::new(0, 2);
    for (seq_num, parts) in [
        (0, vec![(3, 7, 2, "c"), (4, 1, 0, "x")]),
        (1, vec![(4, 1, 1, "x")]),
        (2, vec![(3, 7, 0, "a"), (4, 2, 0, "y")]),
        (3, vec![(4, 2, 3, "y"), (3, 7, 1, "b"), (4, 2, 1, "y")]),
    ] {
        let mut set = frame_set(&parts);
        set.seq_num = u24(seq_num);
        layer.accept(set).unwrap();
        layer.accept(no_frag_frame_set(["between"])).unwrap();
    }
    let mut ready = Vec::new();
    while let Some(set) = layer.frag.next_ready() {
        ready.push((set.seq_num, String::from_utf8(set.set.body.to_vec()).unwrap()));
    }
    assert_eq!(ready.len(), 5);
    assert_eq!(ready[3], (u24(3), "abc".to_string()));
    assert_eq!(layer.frag.pending_parts(7), None);
    assert_eq!(layer.frag.pending_parts(2), Some(3));
}

fn defragment_fuzzing_with_scale(scale: usize) {
    let mut parted_slice = (0..scale).collect::<Vec<_>>();
    let mut final_body = String::new();
    for i in &parted_slice {
        final_body += &i.to_string();
    }
    parted_slice.shuffle(&mut rand::thread_rng());

    let chunk_size = rand::random::<usize>() % scale + 1; // non zero
    let parts: Vec<(u32, u16, u32, String)> = parted_slice
        .into_iter()
        .map(|i| (scale as u32, 0, i as u32, i.to_string()))
        .collect();
    let mut layer = Layer::new(0, 1);
    for chunk in parts.chunks(chunk_size) {
        layer.accept(frame_set(chunk)).unwrap();
    }
    assert_eq!(layer.text().unwrap(), final_body);
}

#[test]
fn fragment_test_defragment_fuzzing_with_scale_10() {
    defragment_fuzzing_with_scale(10);
}

#[test]
fn fragment_test_defragment_fuzzing_with_scale_100() {
    defragment_fuzzing_with_scale(100);
}

#[test]
fn fragment_test_defragment_fuzzing_with_scale_1000() {
    defragment_fuzzing_with_scale(1000);
}

#[test]
fn fragment_test_defragment_fuzzing_with_scale_10000() {
    defragment_fuzzing_with_scale(10000);
}

#[test]
fn faults_are_answered() {
    let mut layer = Layer::new(20, 4);
    let mut set = frame_set([&(10, 7, 10, "h")]);
    set.seq_num = u24(3);
    assert_eq!(
        layer.accept(set),
        Err(CodecError::PartedFrame(PartedError::IndexOutOfRange {
            parted_index: 10,
            parted_size: 10
        }))
    );
    // asked for again, as bits may have flipped
    assert_eq!(layer.nacks.pop(), Some(u24(3)));
    assert_eq!(layer.acks.pop(), None);

    let mut set = frame_set([&(22, 7, 6, "h")]);
    set.seq_num = u24(4);
    assert_eq!(
        layer.accept(set),
        Err(CodecError::PartedFrame(PartedError::SizeExceeded {
            parted_size: 22,
            limit_size: 20
        }))
    );
    // not to be sent again
    assert_eq!(layer.acks.pop(), Some(u24(4)));
    assert_eq!(layer.nacks.pop(), None);
}

#[test]
fn gaps_are_asked_for() {
    let mut layer = Layer::new(0, 4);
    for seq_num in [2, 5, 4] {
        let mut set = no_frag_frame_set(["x"]);
        set.seq_num = u24(seq_num);
        layer.accept(set).unwrap();
    }
    let nacks: Vec<u32> = std::iter::from_fn(|| layer.nacks.pop()).map(u24::to_u32).collect();
    let acks: Vec<u32> = std::iter::from_fn(|| layer.acks.pop()).map(u24::to_u32).collect();
    assert_eq!(nacks, vec![0, 1, 3, 4]);
    assert_eq!(acks, vec![2, 4, 5]);
    assert_eq!(layer.frag.seq_num_read_index, u24(6));
}

#[test]
fn single_part_stays_as_it_is() {
    let mut layer = Layer::new(0, 4);
    layer.accept(frame_set([&(1, 9, 0, "whole")])).unwrap();
    let set = layer.frag.next_ready().unwrap();
    assert_eq!(&set.set.body[..], b"whole");
    assert!(set.set.flags.parted);
    assert!(set.set.fragment.is_some());
}

struct Dst {
    fragment: Fragmented,
    buf: Vec<Frame<Bytes>>,
}

impl Dst {
    fn new(mtu: usize, max_channels: usize) -> Self {
        Dst {
            fragment: Fragmented::new(mtu, max_channels),
            buf: Vec::new(),
        }
    }

    fn start_send(&mut self, reliability: Reliability, channel: u8, data: Bytes) {
        let msg = Message::new(data).reliability(reliability).order_channel(channel);
        self.buf.extend(self.fragment.fragment(msg));
    }
}

#[test]
fn test_fragmented_works() {
    let mut dst = Dst::new(50, 8);
    // 1
    dst.start_send(
        Reliability::ReliableOrdered,
        0,
        Bytes::from_static(b"hello world"),
    );
    // 2
    dst.start_send(
        Reliability::ReliableOrdered,
        1,
        Bytes::from_static(b"hello world, hello world, hello world, hello world"),
    );
    // 1
    dst.start_send(Reliability::Reliable, 0, Bytes::from_static(b"hello world"));
    // 2
    dst.start_send(
        Reliability::Unreliable, // adjust to reliable
        0,
        Bytes::from_static(b"hello world, hello world, hello world, hello world"),
    );
    // 1
    dst.start_send(Reliability::Unreliable, 0, Bytes::from_static(b"hello world"));

    assert_eq!(dst.fragment.order_write_index[0].to_u32(), 1); // 1 message on channel 0 requires ordering, next ordered frame index is 1
    assert_eq!(dst.fragment.order_write_index[1].to_u32(), 1); // 1 message on channel 1 requires ordering, next ordered frame index is 1
    assert_eq!(dst.fragment.reliable_write_index.to_u32(), 6); // 5 reliable frames, next reliable frame index is 6

    assert_eq!(dst.buf.len(), 7);
    // adjusted
    assert_eq!(dst.buf[4].flags.reliability, Reliability::Reliable);
    assert_eq!(dst.buf[5].flags.reliability, Reliability::Reliable);
}

#[test]
fn test_fragmented_fulfill_one_packet() {
    let mut dst = Dst::new(50, 8);
    dst.start_send(
        Reliability::ReliableOrdered,
        0,
        Bytes::from_iter(std::iter::repeat(0xfe).take(50 - FRAME_SET_HEADER_SIZE - 10)),
    );
    assert_eq!(dst.buf.len(), 1); // 1 frame
    assert!(dst.buf[0].fragment.is_none()); // not fragmented
    assert_eq!(dst.buf[0].size(), 50 - FRAME_SET_HEADER_SIZE); // full size
}

#[test]
fn test_fragmented_split_packet() {
    let mut dst = Dst::new(50, 8);
    dst.start_send(
        Reliability::ReliableOrdered,
        0,
        Bytes::from_iter(std::iter::repeat(0xfe).take(50)),
    );
    assert_eq!(dst.buf.len(), 2);
    let mut fragment = dst.buf[0].fragment.unwrap();
    let r = dst.buf[0].flags.reliability.size();
    assert_eq!(fragment.parted_size, 2);
    assert_eq!(fragment.parted_id, 0);
    assert_eq!(fragment.parted_index, 0);
    assert_eq!(dst.buf[0].size(), 50 - FRAME_SET_HEADER_SIZE);
    assert_eq!(
        dst.buf[0].body.len(),
        50 - FRAME_SET_HEADER_SIZE - r - FRAGMENT_PART_SIZE
    );

    fragment = dst.buf[1].fragment.unwrap();
    assert_eq!(fragment.parted_size, 2);
    assert_eq!(fragment.parted_id, 0);
    assert_eq!(fragment.parted_index, 1);
}

#[test]
fn test_fragmented_adjust_not_exceed() {
    let mut dst = Dst::new(50, 8);
    dst.start_send(
        Reliability::Unreliable,
        0,
        Bytes::from_iter(std::iter::repeat(0xfe).take(50)),
    );
    assert_eq!(dst.buf.len(), 2); // 2 frames
    assert_eq!(dst.buf[0].flags.reliability, Reliability::Reliable); // adjusted
    assert_eq!(dst.buf[1].flags.reliability, Reliability::Reliable); // adjusted

    // after adjusting reliability, the size does not exceed the MTU
    assert_eq!(dst.buf[0].size(), 50 - FRAME_SET_HEADER_SIZE);
}

#[test]
fn split_message_is_put_together_in_any_order() {
    let data: Vec<u8> = (0..=255).collect();
    let mut dst = Dst::new(60, 2);
    dst.start_send(Reliability::ReliableOrdered, 1, Bytes::from(data.clone()));
    let ordered = dst.buf[0].ordered;
    let count = dst.buf.len();
    assert!(count > 2);
    let mut frames: Vec<Frame<BytesMut>> = dst
        .buf
        .into_iter()
        .map(|f| Frame {
            flags: f.flags,
            reliable_frame_index: f.reliable_frame_index,
            seq_frame_index: f.seq_frame_index,
            ordered: f.ordered,
            fragment: f.fragment,
            body: BytesMut::from(&f.body[..]),
        })
        .collect();
    frames.reverse();
    frames.swap(0, 1);
    let mut layer = Layer::new(0, 1);
    layer
        .accept(FrameSet {
            seq_num: u24(0),
            set: frames,
        })
        .unwrap();
    let whole = layer.frag.next_ready().unwrap().set;
    assert_eq!(&whole.body[..], &data[..]);
    assert_eq!(whole.flags, Flags::new(Reliability::ReliableOrdered, false));
    assert_eq!(whole.ordered, ordered);
    assert_eq!(whole.fragment, None);
    assert_eq!(whole.reliable_frame_index, Some(u24(0)));
}
