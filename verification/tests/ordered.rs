use bytes::Bytes;
use raknet_rs::codec::decoder::ordered::Order;
use raknet_rs::errors::{ChannelError, CodecError};
use raknet_rs::packet::connected::flags::Flags;
use raknet_rs::packet::connected::frame::{Frame, Ordered};
use raknet_rs::packet::connected::frame_set::FrameSet;
use raknet_rs::uint24::u24;

fn frame_sets(idx: impl IntoIterator<Item = (u8, u32)>) -> Vec<FrameSet<Frame<Bytes>>> {
    idx.into_iter()
        .map(|(channel, frame_index)| FrameSet {
            seq_num: u24(0),
            set: Frame {
                flags: Flags::parse(0b011_11100),
                reliable_frame_index: None,
                seq_frame_index: None,
                ordered: Some(Ordered {
                    frame_index: u24(frame_index),
                    channel,
                }),
                fragment: None,
                body: Bytes::new(),
            },
        })
        .collect()
}

/// Runs the frames through the layer and returns those that are passed on.
fn run(order: &mut Order<Bytes>, sets: Vec<FrameSet<Frame<Bytes>>>) -> Vec<FrameSet<Frame<Bytes>>> {
    let mut out = Vec::new();
    for set in sets {
        out.extend(order.accept(set).unwrap());
        while let Some(next) = order.next_ready() {
            out.push(next);
        }
    }
    out
}

#[test]
fn ordered_test_ordered_works() {
    let mut ordered = Order::new(10);
    let out = run(
        &mut ordered,
        frame_sets([(0, 1), (0, 0), (0, 2), (0, 0), (0, 4), (0, 3), (1, 1)]),
    );
    assert_eq!(out, frame_sets([(0, 0), (0, 1), (0, 2), (0, 3), (0, 4)]));
    assert!(ordered.next_ready().is_none());

    let mut ordered = Order::new(10);
    let out = run(
        &mut ordered,
        frame_sets([(3, 1), (0, 0), (0, 2), (0, 1), (0, 3), (3, 0)]),
    );
    assert_eq!(out, frame_sets([(0, 0), (0, 1), (0, 2), (0, 3), (3, 0), (3, 1)]));
}

#[test]
fn ordered_test_ordered_channel_exceed() {
    let mut ordered: Order<Bytes> = Order::new(10);
    let set = frame_sets([(10, 1)]).pop().unwrap();
    let err = ordered.accept(set).unwrap_err();
    assert!(matches!(err, CodecError::OrderedFrame(_)));
    assert_eq!(
        err,
        CodecError::OrderedFrame(ChannelError {
            channel: 10,
            max_channels: 10
        })
    );
}

#[test]
fn unordered_frames_are_passed_on_at_once() {
    let mut ordered: Order<Bytes> = Order::new(1);
    let mut set = frame_sets([(0, 7)]).pop().unwrap();
    set.set.ordered = None;
    assert!(ordered.accept(set).unwrap().is_some());
    assert!(ordered.next_ready().is_none());
}

#[test]
fn there_can_be_255_channels() {
    let mut ordered: Order<Bytes> = Order::new(255);
    let sets = frame_sets([(254, 0)]);
    let mut out = run(&mut ordered, sets);
    assert_eq!(out.pop(), frame_sets([(254, 0)]).pop());
    let set = frame_sets([(255, 0)]).pop().unwrap();
    assert!(matches!(ordered.accept(set), Err(CodecError::OrderedFrame(_))));
}

#[test]
fn lower_channels_come_first() {
    let mut ordered: Order<Bytes> = Order::new(3);
    for set in frame_sets([(2, 0), (1, 0), (0, 1)]) {
        assert!(ordered.accept(set).unwrap().is_none());
    }
    let mut out = Vec::new();
    while let Some(next) = ordered.next_ready() {
        out.push(next);
    }
    assert_eq!(out, frame_sets([(1, 0), (2, 0)]));
}
