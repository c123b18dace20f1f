use std::collections::VecDeque;

use bytes::{Bytes, BytesMut};
use raknet_rs::estimator::RFC6298Impl;
use raknet_rs::guard::outgoing::{CloseAction, Flush, FlushPhase, OutgoingGuard};
use raknet_rs::guard::resend::ResendMap;
use raknet_rs::guard::send_buffer::SendBuffer;
use raknet_rs::link::TransferLink;
use raknet_rs::message::SendDefaults;
use raknet_rs::opts::FlushStrategy;
use raknet_rs::packet::address::SocketAddr;
use raknet_rs::packet::connected::ack::AckOrNack;
use raknet_rs::packet::connected::flags::Flags;
use raknet_rs::packet::connected::frame::Frame;
use raknet_rs::packet::connected::packet as connected;
use raknet_rs::packet::datagram::Packet;
use raknet_rs::packet::unconnected;
use raknet_rs::peer::{Peer, Role};
use raknet_rs::timers::Timers;
use raknet_rs::uint24::u24;
use raknet_rs::{Message, Priority, Reliability};

const MS: u64 = 1_000_000;
const TEST_RTO: u64 = 1200 * MS;

fn acked(seq_nums: &[u32]) -> AckOrNack {
    let mut seq_nums: VecDeque<u24> = seq_nums.iter().copied().map(u24).collect();
    AckOrNack::extend_from(&mut seq_nums, 100).unwrap()
}

fn frame(reliability: Reliability, body: &'static [u8]) -> Frame<Bytes> {
    Frame {
        flags: Flags::new(reliability, false),
        reliable_frame_index: if reliability.is_reliable() { Some(u24(0)) } else { None },
        seq_frame_index: None,
        ordered: None,
        fragment: None,
        body: Bytes::from_static(body),
    }
}

fn resend_map_works() {
    let mut map = ResendMap::new(0);
    map.record(u24(0), 0, vec![], 0);
    map.record(u24(1), 0, vec![], 0);
    map.record(u24(2), 0, vec![], 0);
    map.record(u24(3), 0, vec![], 0);
    assert!(!map.is_empty());
    map.on_ack(acked(&[0, 1, 2, 3]), MS);
    assert!(map.is_empty());

    map.record(u24(4), 0, vec![frame(Reliability::Unreliable, b"1")], MS);
    map.record(
        u24(5),
        0,
        vec![frame(Reliability::Unreliable, b"2"), frame(Reliability::Unreliable, b"3")],
        MS,
    );
    let mut buffer = SendBuffer::new(0);
    map.on_nack_into(acked(&[4, 5]), &mut buffer);
    assert!(map.is_empty());
    assert_eq!(buffer.len(), 3);
    assert_eq!(buffer.resend.pop().unwrap().frame.body, Bytes::from_static(b"1"));
    assert_eq!(buffer.resend.pop().unwrap().frame.body, Bytes::from_static(b"2"));
    assert_eq!(buffer.resend.pop().unwrap().frame.body, Bytes::from_static(b"3"));
}

#[test]
fn guard_test_resend_map_works() {
    resend_map_works();
}

#[test]
fn resend_map_test_resend_map_works() {
    resend_map_works();
}

fn resend_map_stales() {
    let mut map = ResendMap::new(0);
    map.record(u24(0), 0, vec![], 0);
    map.record(u24(1), 0, vec![], 0);
    map.record(u24(2), 0, vec![], 0);
    map.record(u24(3), 0, vec![], TEST_RTO);
    let mut buffer = SendBuffer::new(0);
    map.process_stales(&mut buffer, TEST_RTO);
    assert_eq!(map.map.len(), 1);
}

#[test]
fn guard_test_resend_map_stales() {
    resend_map_stales();
}

#[test]
fn resend_map_test_resend_map_stales() {
    resend_map_stales();
}

fn resend_map_poll_wait() {
    let mut map = ResendMap::new(0);
    map.record(u24(0), 0, vec![], 0);
    let mut now = TEST_RTO;
    map.record(u24(1), 0, vec![], now);
    map.record(u24(2), 0, vec![], now);
    map.record(u24(3), 0, vec![], now);

    let mut buffer = SendBuffer::new(0);
    // ready
    assert!(map.poll_wait(now).is_none());
    map.process_stales(&mut buffer, now);
    assert_eq!(map.map.len(), 3);

    let (seq_num, expired_at) = map.poll_wait(now).unwrap();
    assert_eq!(seq_num, u24(1));
    assert!(expired_at > now as u128);
    now = expired_at as u64;
    assert!(map.poll_wait(now).is_none());
    map.process_stales(&mut buffer, now);
    assert!(map.map.len() < 3);
}

#[test]
fn guard_test_resend_map_poll_wait() {
    resend_map_poll_wait();
}

#[test]
fn resend_map_test_resend_map_poll_wait() {
    resend_map_poll_wait();
}

#[test]
fn acknowledgements_feed_the_estimate() {
    let mut map = ResendMap::new(0);
    map.record(u24(7), 0, vec![], 10 * MS);
    map.on_ack(acked(&[6, 7, 8]), 50 * MS);
    assert_eq!(map.estimator.rtt(), 40 * MS);
    // a clock that went backwards
    map.record(u24(8), 0, vec![], 90 * MS);
    map.on_ack(acked(&[8]), 50 * MS);
    assert_eq!(map.estimator.latest, 0);
}

#[test]
fn penalties_prolong_the_wait() {
    let mut map = ResendMap::new(0);
    let rto = map.estimator.rto();
    assert_eq!(rto, 501 * MS as u128);
    map.record(u24(0), 3, vec![], 5);
    assert_eq!(map.map[&0].expired_at, 5 + 4 * rto);
    assert_eq!(map.map[&0].send_at, 5);
}

#[test]
fn lost_packets_clear_the_estimate() {
    let mut map = ResendMap::new(0);
    map.record(u24(0), 0, vec![], 0);
    map.on_ack(acked(&[0]), 10 * MS);
    assert_eq!(map.estimator.smoothed, Some(10 * MS));
    map.record(u24(1), 4, vec![frame(Reliability::Reliable, b"a")], 10 * MS);
    map.record(u24(2), 255, vec![frame(Reliability::Reliable, b"b")], 10 * MS);
    let mut buffer = SendBuffer::new(8);
    let first = map.map[&1].expired_at as u64;
    map.process_stales(&mut buffer, first);
    assert_eq!(map.estimator.smoothed, None);
    assert_eq!(buffer.resend.pop().unwrap().penalty, 5);
    assert_eq!(map.map.len(), 1);
    // nothing is scanned before something can be overdue
    assert_eq!(
        map.last_record_expired_at,
        (first as u128 + 30 * MS as u128).min(map.map[&2].expired_at)
    );
    map.process_stales(&mut buffer, first + 1);
    assert_eq!(map.map.len(), 1);
    let second = map.map[&2].expired_at as u64;
    map.process_stales(&mut buffer, second);
    // the penalty does not exceed its limit
    assert_eq!(buffer.resend.pop().unwrap().penalty, 255);
    assert!(map.is_empty());
}

#[test]
fn estimator_follows_the_formulas() {
    let mut e = RFC6298Impl::new();
    assert_eq!(e.rtt(), 500 * MS);
    assert_eq!(e.rto(), 501 * MS as u128);
    e.update(100 * MS);
    assert_eq!(e.rtt(), 100 * MS);
    assert_eq!(e.var, 50 * MS);
    assert_eq!(e.rto(), 300 * MS as u128);
    e.update(180 * MS);
    assert_eq!(e.rtt(), 110 * MS);
    assert_eq!(e.var, (3 * 50 + 80) * MS / 4);
    e.update(30 * MS);
    assert_eq!(e.rtt(), 100 * MS);
    e.clear();
    assert_eq!(e.rtt(), 30 * MS);
    e.update(20 * MS);
    assert_eq!(e.rtt(), 20 * MS);
    e.update(0);
    e.clear();
    e.update(0);
    assert_eq!(e.rto(), MS as u128);
}

fn pop(buffer: &mut SendBuffer, mtu: usize) -> (Vec<Bytes>, bool, u8) {
    let mut frames = Vec::new();
    let mut reliable = false;
    let penalty = buffer.pop(mtu, &mut reliable, &mut frames);
    (frames.into_iter().map(|f| f.body).collect(), reliable, penalty)
}

#[test]
fn higher_priorities_go_first() {
    let mut buffer = SendBuffer::new(16);
    let u = Reliability::Unreliable;
    buffer.send(Priority::Low(255), frame(u, b"8"));
    buffer.send(Priority::Low(0), frame(u, b"7"));
    buffer.send(Priority::Medium, frame(u, b"5"));
    buffer.send(Priority::Medium, frame(u, b"6"));
    buffer.send(Priority::High(255), frame(u, b"4"));
    buffer.send(Priority::High(0), frame(u, b"2"));
    buffer.send(Priority::High(0), frame(u, b"3"));
    buffer.resend(vec![frame(u, b"1")], 200);
    assert_eq!(buffer.len(), 8);
    let (frames, reliable, penalty) = pop(&mut buffer, 1400);
    let text: Vec<u8> = frames.iter().map(|b| b[0]).collect();
    assert_eq!(&text[..], b"12345678");
    assert!(!reliable);
    assert_eq!(penalty, 0);
    assert!(buffer.is_empty());
    assert_eq!(pop(&mut buffer, 1400), (vec![], false, 0));
}

#[test]
fn packets_are_filled_up_to_the_mtu() {
    let mut buffer = SendBuffer::new(16);
    for body in [&b"aaaa"[..], &b"bbbb"[..], &b"cccc"[..]] {
        buffer.send(Priority::Medium, frame(Reliability::Reliable, body));
    }
    // 4 + 2 * (6 + 4) = 24
    let (frames, reliable, _) = pop(&mut buffer, 24);
    assert_eq!(frames.len(), 2);
    assert!(reliable);
    assert_eq!(pop(&mut buffer, 33).0.len(), 1);
    assert!(buffer.is_empty());
}

#[test]
fn penalty_is_the_mean_of_what_is_sent_again() {
    let mut buffer = SendBuffer::new(16);
    buffer.resend(vec![frame(Reliability::Reliable, b"a")], 3);
    buffer.resend(vec![frame(Reliability::Reliable, b"b"), frame(Reliability::Reliable, b"c")], 5);
    // (4 + 6 + 6) / 3
    assert_eq!(pop(&mut buffer, 1400).2, 5);
    buffer.resend(vec![frame(Reliability::Reliable, b"a")], 3);
    buffer.send(Priority::Low(0), frame(Reliability::Reliable, b"d"));
    assert_eq!(pop(&mut buffer, 1400).2, 0);
}

fn peer(mtu: u16) -> Peer {
    Peer {
        guid: 114514,
        addr: SocketAddr::V4 {
            ip: 0x0b2d_0e13,
            port: 19810,
        },
        mtu,
    }
}

fn guard(mtu: u16) -> OutgoingGuard {
    OutgoingGuard::new(8, peer(mtu), Role::Server { guid: 114514 }, 0)
}

/// Flushes everything and returns the datagrams.
fn flush(
    guard: &mut OutgoingGuard,
    link: &mut TransferLink,
    strategy: FlushStrategy,
    now: u64,
) -> (Vec<BytesMut>, FlushStrategy) {
    guard.prepare(link, now);
    let mut flush = Flush::new(strategy);
    let mut out = Vec::new();
    while !flush.finished(link, &guard.buf) {
        let mut wr = BytesMut::new();
        guard.flush_step(link, &mut flush, now, &mut wr);
        if !wr.is_empty() {
            out.push(wr);
        }
    }
    assert_eq!(flush.phase, FlushPhase::Ack);
    (out, flush.marked())
}

fn read(mut datagram: BytesMut) -> Packet<Vec<Frame<BytesMut>>> {
    Packet::read(&mut datagram).unwrap().unwrap()
}

#[test]
fn flush_sends_everything() {
    let mut guard = guard(1400);
    let mut link = TransferLink::new();
    for n in [2, 1, 9] {
        link.outgoing_ack(u24(n));
    }
    link.outgoing_nack(u24(5));
    link.outgoing_nack_batch(u24(6), u24(8));
    link.send_unconnected(unconnected::Packet::AlreadyConnected { server_guid: 1 });
    link.send_unconnected(unconnected::Packet::AlreadyConnected { server_guid: 2 });
    guard.send(Priority::Medium, frame(Reliability::Reliable, b"x"));
    assert!(guard.ready());
    assert!(!link.flush_empty());
    let (out, strategy) = flush(&mut guard, &mut link, FlushStrategy::default(), 7);
    assert!(link.flush_empty());
    assert_eq!(strategy.flushed_ack(), 3);
    assert_eq!(strategy.flushed_nack(), 3);
    assert_eq!(strategy.flushed_pack(), 3);
    assert_eq!(out.len(), 5);
    let mut out = out.into_iter().map(read);
    assert_eq!(
        out.next().unwrap(),
        Packet::Connected(connected::Packet::Ack(acked(&[1, 2, 9])))
    );
    assert_eq!(
        out.next().unwrap(),
        Packet::Connected(connected::Packet::Nack(acked(&[5, 6, 7])))
    );
    assert_eq!(
        out.next().unwrap(),
        Packet::Unconnected(unconnected::Packet::AlreadyConnected { server_guid: 1 })
    );
    match out.next().unwrap() {
        Packet::Connected(connected::Packet::FrameSet(set)) => {
            assert_eq!(set.seq_num, u24(0));
            assert_eq!(&set.set[0].body[..], b"x");
        }
        _ => panic!("should be a frame set"),
    }
    assert_eq!(
        out.next().unwrap(),
        Packet::Unconnected(unconnected::Packet::AlreadyConnected { server_guid: 2 })
    );
    // kept until it is acknowledged
    assert_eq!(guard.seq_num_write_index, u24(1));
    assert!(guard.resend.map.contains_key(&0));
    link.incoming_ack(acked(&[0]), 8);
    guard.prepare(&mut link, 8);
    assert!(guard.resend.is_empty());
    assert_eq!(guard.close_action(8), CloseAction::Done);
}

#[test]
fn flush_follows_the_strategy() {
    let mut guard = guard(1400);
    let mut link = TransferLink::new();
    link.outgoing_ack(u24(1));
    link.outgoing_nack(u24(5));
    guard.send(Priority::Medium, frame(Reliability::Reliable, b"x"));
    let (out, strategy) = flush(&mut guard, &mut link, FlushStrategy::new(false, true, false), 0);
    assert_eq!(out.len(), 1);
    assert_eq!(out[0][0], 0xa0);
    assert_eq!(strategy.flushed_nack(), 1);
    assert!(!link.outgoing_ack_empty());
    assert!(link.outgoing_nack_empty());
    assert!(link.unconnected_empty());
    assert!(!guard.buf.is_empty());
}

#[test]
fn long_acknowledgements_take_several_packets() {
    let mut guard = guard(21);
    let mut link = TransferLink::new();
    for n in [0, 2, 4, 6, 8, 10, 12] {
        link.outgoing_ack(u24(n));
    }
    let (out, strategy) = flush(&mut guard, &mut link, FlushStrategy::default(), 0);
    assert_eq!(out.iter().map(|d| d.len()).collect::<Vec<_>>(), vec![19, 15]);
    assert_eq!(strategy.flushed_ack(), 7);
}

#[test]
fn what_is_not_acknowledged_is_sent_again() {
    let mut guard = guard(1400);
    let mut link = TransferLink::new();
    guard.send(Priority::Medium, frame(Reliability::Reliable, b"again"));
    guard.send(Priority::Medium, frame(Reliability::Unreliable, b"once"));
    let (out, _) = flush(&mut guard, &mut link, FlushStrategy::default(), 0);
    assert_eq!(out.len(), 1);
    let due = guard.resend.map[&0].expired_at;
    assert_eq!(guard.close_action(0), CloseAction::Wait(due));
    assert_eq!(guard.close_action(due as u64), CloseAction::Again);
    let (out, _) = flush(&mut guard, &mut link, FlushStrategy::default(), due as u64);
    assert_eq!(out.len(), 1);
    // under a new number, with a penalty
    assert_eq!(guard.resend.map[&1].penalty, 1);
    // asked for
    link.incoming_nack(acked(&[1]));
    let (out, _) = flush(&mut guard, &mut link, FlushStrategy::default(), due as u64);
    assert_eq!(out.len(), 1);
    assert_eq!(guard.resend.map[&2].penalty, 2);
}

#[test]
fn closing_waits_for_every_frame() {
    // one frame each fits in a packet
    let mut guard = guard(20);
    let mut link = TransferLink::new();
    guard.send(Priority::Medium, frame(Reliability::Reliable, b"first"));
    guard.send(Priority::Medium, frame(Reliability::Reliable, b"second"));
    let (out, strategy) = flush(&mut guard, &mut link, FlushStrategy::default(), 0);
    assert_eq!(out.len(), 2);
    assert_eq!(strategy.flushed_pack(), 2);
    link.incoming_ack(acked(&[0]), 1);
    guard.prepare(&mut link, 1);
    assert!(matches!(guard.close_action(1), CloseAction::Wait(_)));
    link.incoming_nack(acked(&[1]));
    let (out, _) = flush(&mut guard, &mut link, FlushStrategy::default(), 1);
    assert_eq!(out.len(), 1);
    assert!(matches!(guard.close_action(1), CloseAction::Wait(_)));
    assert_eq!(&guard.resend.map[&2].frames[0].body[..], b"second");
    // the number that it was sent under before says nothing any more
    link.incoming_ack(acked(&[1]), 2);
    guard.prepare(&mut link, 2);
    assert!(matches!(guard.close_action(2), CloseAction::Wait(_)));
    link.incoming_ack(acked(&[2]), 3);
    guard.prepare(&mut link, 3);
    assert_eq!(guard.close_action(3), CloseAction::Done);
    assert!(guard.buf.is_empty());
}

#[test]
fn unreliable_frames_are_not_kept() {
    let mut guard = guard(1400);
    let mut link = TransferLink::new();
    guard.send(Priority::Medium, frame(Reliability::Unreliable, b"once"));
    flush(&mut guard, &mut link, FlushStrategy::default(), 0);
    assert!(guard.resend.is_empty());
    assert_eq!(guard.seq_num_write_index, u24(1));
}

#[test]
fn guard_is_ready_below_its_capacity() {
    let mut guard = guard(1400);
    for _ in 0..8 {
        assert!(guard.ready());
        guard.send(Priority::Low(1), frame(Reliability::Unreliable, b"x"));
    }
    assert!(!guard.ready());
}

#[test]
fn ack_floods_displace_the_oldest() {
    let mut link = TransferLink::new();
    for n in 0..1024 {
        assert!(link.incoming_ack(acked(&[n]), n as u64).is_none());
        assert!(link.incoming_nack(acked(&[n])).is_none());
    }
    assert!(link.incoming_ack(acked(&[1024]), 1024).is_some());
    assert!(link.incoming_nack(acked(&[1024])).is_some());
    assert_eq!(link.process_ack(), Some((acked(&[1]), 1)));
    assert_eq!(link.process_nack(), Some(acked(&[1])));
}

#[test]
fn link_passes_frame_sets_on() {
    let mut link = TransferLink::new();
    let ack = connected::Packet::Ack(acked(&[3]));
    assert!(link.filter_incoming_ack(ack, 5).is_none());
    let nack = connected::Packet::Nack(acked(&[4]));
    assert!(link.filter_incoming_ack(nack, 5).is_none());
    assert_eq!(link.process_ack(), Some((acked(&[3]), 5)));
    assert_eq!(link.process_nack(), Some(acked(&[4])));
    assert_eq!(link.process_ack(), None);
    assert_eq!(link.process_nack(), None);
}

#[test]
fn strategies_count() {
    let mut strategy = FlushStrategy::new(true, false, true);
    assert!(strategy.flush_ack());
    assert!(!strategy.flush_nack());
    assert!(strategy.flush_pack());
    strategy.mark_flushed_ack(3);
    strategy.mark_flushed_ack(4);
    strategy.mark_flushed_nack(9);
    strategy.mark_flushed_pack(1);
    assert_eq!(strategy.flushed_ack(), 7);
    assert_eq!(strategy.flushed_pack(), 1);
    assert!(!strategy.flush_nack());
}

#[test]
fn messages_and_their_defaults() {
    let msg = Message::new(Bytes::from_static(b"x"));
    assert_eq!(msg.reliability, Reliability::ReliableOrdered);
    assert_eq!(msg.order_channel, 0);
    assert_eq!(msg.priority, Priority::Medium);
    assert_eq!(Priority::default(), Priority::Medium);
    let msg = msg.reliability(Reliability::Reliable).order_channel(3).priority(Priority::High(1));
    assert_eq!(msg.reliability, Reliability::Reliable);
    assert_eq!(msg.order_channel, 3);
    assert_eq!(msg.priority, Priority::High(1));

    let mut defaults = SendDefaults::new();
    assert_eq!(defaults.get_default_reliability(), Reliability::ReliableOrdered);
    assert_eq!(defaults.get_default_order_channel(), 0);
    defaults.set_default_reliability(Reliability::Unreliable);
    defaults.set_default_order_channel(2);
    let msg = defaults.message(Bytes::from_static(b"y"));
    assert_eq!(msg.reliability, Reliability::Unreliable);
    assert_eq!(msg.order_channel, 2);
    assert_eq!(msg.data, Bytes::from_static(b"y"));
}

#[test]
fn timers_fire_in_order() {
    let mut timers: Timers<&str> = Timers::new();
    assert_eq!(timers.next_wait(0), None);
    timers.insert_timer(1, 30, "c");
    timers.insert_timer(2, 10, "a");
    timers.insert_timer(3, 20, "b");
    timers.insert_timer(4, 40, "d");
    assert_eq!(timers.next_wait(4), Some(6));
    assert_eq!(timers.cancel_timer(1), Some("c"));
    assert_eq!(timers.cancel_timer(1), None);
    // one set for exactly now is ready
    let fired: Vec<&str> = timers.process_timers(20).into_iter().map(|t| t.waker).collect();
    assert_eq!(fired, vec!["a", "b"]);
    assert_eq!(timers.cancel_timer(2), None);
    assert_eq!(timers.next_wait(50), Some(0));
    assert!(timers.process_timers(39).is_empty());
    assert_eq!(timers.process_timers(40).len(), 1);
    assert_eq!(timers.next_wait(50), None);
}

#[test]
fn timers_of_one_time_and_key_replace_each_other() {
    let mut timers: Timers<u8> = Timers::new();
    timers.insert_timer(9, 10, 1);
    timers.insert_timer(9, 10, 2);
    timers.insert_timer(8, 10, 3);
    let fired: Vec<u8> = timers.process_timers(10).into_iter().map(|t| t.waker).collect();
    assert_eq!(fired, vec![3, 2]);
}
