//! When frames are sent again: what is kept of what was sent, for how long, and what comes of it.
use vstd::prelude::*;

use crate::estimator::RFC6298Impl;
use crate::guard::outgoing::{
    acks_processed, cut, frames_flushed, frames_packet, lemma_ack_faithful, nacks_processed,
    prepared, step_packet, stepped, taken, Flush, OutgoingGuard,
};
use crate::guard::resend::{
    acked, asked_again, covers, lemma_acked, lemma_asked_again, lemma_frames_wait, lemma_overdue,
    overdue, scanned, ResendEntry, Resending,
};
use crate::guard::send_buffer::{any_reliable, raised, with_penalty, PenaltyFrame};
use crate::handover::Handover;
use crate::link::LinkView;
use crate::packet::connected::ack::{lemma_ack_len, records_expand, runs};
use crate::packet::connected::frame_set::frames_view;
use crate::packet::connected::packet as connected;
use crate::packet::datagram::PacketView;
use crate::sorted_queue::{lemma_insert_all, lemma_insert_all_from, sorted};
use crate::uint24::{u24, U24_RANGE};

verus! {

/// What comes of a frame set that is sent. It goes out under the next number, and the numbers
/// count up by one, over the end of the 24 bits. Where one of its frames must arrive it is kept
/// under that number, with its frames in their order, until it is overdue: the retransmission time
/// behind the moment it was sent, and as much again for each step of its penalty. Where none must,
/// nothing is kept of it. Where no frame waits, nothing is sent and nothing changes.
pub proof fn lemma_frame_set_sent(
    before: Flush,
    after: Flush,
    guard: OutgoingGuard,
    new_guard: OutgoingGuard,
    now: u64,
)
    requires
        guard.wf(),
        frames_flushed(before, after, guard, new_guard, now),
    ensures
        ({
            let frames = guard.buf@.packet(guard.peer.mtu as int);
            let n = guard.seq_num_write_index.0;
            let must = exists|i: int|
                0 <= i < frames.len() && (#[trigger] frames[i]).flags.reliability.reliable();
            let rto = guard.resend.estimator.spec_rto();
            &&& frames.len() == 0 ==> {
                &&& frames_packet(guard) is None
                &&& new_guard.seq_num_write_index == guard.seq_num_write_index
            }
            &&& frames.len() > 0 ==> {
                &&& frames_packet(guard) == Some(
                    PacketView::Connected(
                        connected::PacketView::FrameSet(u24(n), frames_view(frames)),
                    ),
                )
                &&& n < 0xff_ffff ==> new_guard.seq_num_write_index.0 == n + 1
                &&& n == 0xff_ffff ==> new_guard.seq_num_write_index.0 == 0
            }
            &&& must ==> {
                let entry = new_guard.resend.map@[n];
                &&& new_guard.resend.map@.contains_key(n)
                &&& entry.frames@ == frames
                &&& entry.send_at == now
                &&& entry.expired_at == now + rto + entry.penalty * rto
                &&& entry.penalty == guard.buf@.packet_penalty(guard.peer.mtu as int, 0)
            }
            &&& !must ==> new_guard.resend.map@ == guard.resend.map@
            &&& forall|k: u32|
                k != n ==> (#[trigger] new_guard.resend.map@.contains_key(k)
                    <==> guard.resend.map@.contains_key(k))
            &&& forall|k: u32|
                k != n && #[trigger] guard.resend.map@.contains_key(k) ==> new_guard.resend.map@[k]
                    == guard.resend.map@[k]
            &&& new_guard.resend.estimator == guard.resend.estimator
        }),
{
    let frames = guard.buf@.packet(guard.peer.mtu as int);
    let n = guard.seq_num_write_index.0;
    let rto = guard.resend.estimator.spec_rto();
    if any_reliable(frames) {
        let entry = new_guard.resend.map@[n];
        let p = entry.penalty as int;
        assert(rto * (1 + p) == rto + p * rto) by (nonlinear_arith);
    }
}

/// What a scan at `now` finds. Before the time of the next scan, and where nothing is kept, nothing
/// changes. Otherwise each frame set whose time has come is kept no longer, and its frames wait to
/// be sent again with their penalty raised; each other one is kept as it was. Where one was lost
/// the estimate of the round trip time starts anew. The next scan is when the first of those that
/// are kept is overdue, but no later than after the retransmission time, and after 3 seconds.
pub proof fn lemma_scan(before: Resending, after: Resending, now: u64)
    requires
        scanned(before, after, now),
        sorted(before.queue),
        forall|n: u32| #[trigger] before.map.contains_key(n) ==> n < 0x100_0000,
    ensures
        now < before.next_scan ==> after == before,
        now >= before.next_scan && before.map.dom() != Set::<u32>::empty() ==> {
            let rto = before.estimator.spec_rto();
            let lost = exists|n: u32| #[trigger]
                before.map.contains_key(n) && before.map[n].expired_at <= now;
            &&& forall|n: u32| #[trigger]
                after.map.contains_key(n) <==> before.map.contains_key(n)
                    && before.map[n].expired_at > now
            &&& forall|n: u32| #[trigger]
                after.map.contains_key(n) ==> after.map[n] == before.map[n]
            &&& forall|n: u32, i: int|
                before.map.contains_key(n) && before.map[n].expired_at <= now && 0 <= i
                    < before.map[n].frames@.len() ==> after.queue.contains(
                    PenaltyFrame {
                        penalty: raised(before.map[n].penalty),
                        frame: #[trigger] before.map[n].frames@[i],
                    },
                )
            &&& after.estimator.latest == before.estimator.latest
            &&& after.estimator.var == before.estimator.var
            &&& after.estimator.smoothed == (if lost {
                None
            } else {
                before.estimator.smoothed
            })
            &&& now < after.next_scan
            &&& after.next_scan <= now + rto
            &&& after.next_scan <= now + 3_000_000_000
            &&& forall|n: u32| #[trigger]
                after.map.contains_key(n) ==> after.next_scan <= after.map[n].expired_at
            &&& after.next_scan == now + rto || after.next_scan == now + 3_000_000_000 || exists|
                n: u32,
            | #[trigger]
                after.map.contains_key(n) && after.next_scan == after.map[n].expired_at
        },
{
    if now >= before.next_scan && before.map.dom() != Set::<u32>::empty() {
        let lost = overdue(before.map, now, 0x100_0000);
        lemma_overdue(before.map, now, 0x100_0000);
        lemma_asked_again(before.map, before.queue, lost);
        let (m, q) = asked_again(before.map, before.queue, lost);
        assert(lost == overdue(before.map, now, U24_RANGE as nat));
        assert(after.map == m && after.queue == q);
        assert forall|n: u32| #[trigger] after.map.contains_key(n) <==> before.map.contains_key(n)
            && before.map[n].expired_at > now by {
            assert(covers(lost, n) <==> n < 0x100_0000 && before.map.contains_key(n)
                && before.map[n].expired_at <= now);
        }
        assert forall|n: u32, i: int|
            before.map.contains_key(n) && before.map[n].expired_at <= now && 0 <= i
                < before.map[n].frames@.len() implies after.queue.contains(
            PenaltyFrame {
                penalty: raised(before.map[n].penalty),
                frame: #[trigger] before.map[n].frames@[i],
            },
        ) by {
            assert(covers(lost, n));
            lemma_frames_wait(before.map, before.queue, lost, n, i);
        }
        if lost.len() > 0 {
            assert(covers(lost, lost[0].0));
            assert(before.map.contains_key(lost[0].0));
        } else {
            assert forall|n: u32| #[trigger] before.map.contains_key(n) implies !(
            before.map[n].expired_at <= now) by {
                assert(!covers(lost, n));
            }
        }
    }
}

/// Nothing waits to be sent again that was not asked for: each frame that waits waited before, or
/// belongs to a frame set that was kept and asked for, and has the penalty of that set, raised.
pub proof fn lemma_only_asked(
    m: Map<u32, ResendEntry>,
    queue: Seq<PenaltyFrame>,
    nums: Seq<u24>,
    k: int,
)
    requires
        sorted(queue),
        0 <= k < asked_again(m, queue, nums).1.len(),
    ensures
        ({
            let x = asked_again(m, queue, nums).1[k];
            ||| queue.contains(x)
            ||| exists|n: u32, i: int|
                {
                    &&& m.contains_key(n)
                    &&& covers(nums, n)
                    &&& 0 <= i < m[n].frames@.len()
                    &&& x.frame == #[trigger] m[n].frames@[i]
                    &&& x.penalty == raised(m[n].penalty)
                }
        }),
        sorted(asked_again(m, queue, nums).1),
    decreases nums.len(),
{
    if nums.len() > 0 {
        let init = nums.drop_last();
        let (m1, q1) = asked_again(m, queue, init);
        let n = nums.last().0;
        let x = asked_again(m, queue, nums).1[k];
        lemma_asked_again(m, queue, init);
        lemma_asked_sorted(m, queue, init);
        assert forall|j: u32| covers(init, j) implies covers(nums, j) by {
            let i = choose|i: int| 0 <= i < init.len() && (#[trigger] init[i]).0 == j;
            assert(nums[i].0 == j);
        }
        if m1.contains_key(n) {
            let added = with_penalty(m1[n].frames@, raised(m1[n].penalty));
            lemma_insert_all(q1, added);
            lemma_insert_all_from(q1, added);
            if q1.contains(x) {
                let j = choose|j: int| 0 <= j < q1.len() && q1[j] == x;
                lemma_only_asked(m, queue, init, j);
            } else {
                assert(added.contains(x));
                let i = choose|i: int| 0 <= i < added.len() && added[i] == x;
                assert(nums[nums.len() - 1].0 == n);
                assert(m.contains_key(n) && m1[n] == m[n]);
                assert(x.frame == m[n].frames@[i]);
            }
        } else {
            lemma_only_asked(m, queue, init, k);
        }
    }
}

proof fn lemma_asked_sorted(m: Map<u32, ResendEntry>, queue: Seq<PenaltyFrame>, nums: Seq<u24>)
    requires
        sorted(queue),
    ensures
        sorted(asked_again(m, queue, nums).1),
    decreases nums.len(),
{
    if nums.len() > 0 {
        let (m1, q1) = asked_again(m, queue, nums.drop_last());
        let n = nums.last().0;
        lemma_asked_sorted(m, queue, nums.drop_last());
        lemma_insert_all(q1, with_penalty(m1[n].frames@, raised(m1[n].penalty)));
    }
}

/// What an acknowledgement that arrives at `at` says of the round trip time: a frame set that is
/// kept was on its way from when it was sent until then, or no time where the clock went back, and
/// the estimate is given that measurement. A number that is not kept says nothing, also where it
/// was acknowledged before.
pub proof fn lemma_measured(
    m: Map<u32, ResendEntry>,
    e: RFC6298Impl,
    nums: Seq<u24>,
    n: u24,
    at: u64,
)
    ensures
        ({
            let (m1, e1) = acked(m, e, nums, at);
            let (m2, e2) = acked(m, e, nums.push(n), at);
            &&& m.contains_key(n.0) && !covers(nums, n.0) ==> {
                let sent = m[n.0].send_at;
                &&& m2 == m1.remove(n.0)
                &&& sent <= at ==> e2 == e1.updated((at - sent) as u64)
                &&& sent > at ==> e2 == e1.updated(0)
            }
            &&& !m.contains_key(n.0) || covers(nums, n.0) ==> m2 == m1 && e2 == e1
        }),
{
    assert(nums.push(n).drop_last() =~= nums);
    lemma_acked(m, e, nums, at);
}

/// What was acknowledged or asked for is kept no longer, whatever else came with it.
pub proof fn lemma_settled(
    guard: OutgoingGuard,
    new_guard: OutgoingGuard,
    acks: Seq<Handover>,
    nacks: Seq<Handover>,
    now: u64,
    n: u32,
)
    requires
        guard.wf(),
        prepared(guard, new_guard, acks, nacks, now),
        (exists|i: int|
            0 <= i < acks.len() && ((#[trigger] acks[i]) matches Handover::Ack {
                records,
                received_at,
            } && covers(records_expand(records.records@), n))) || (exists|i: int|
            0 <= i < nacks.len() && ((#[trigger] nacks[i]) matches Handover::Nack(records)
                && covers(records_expand(records.records@), n))),
    ensures
        !new_guard.resend.map@.contains_key(n),
{
    let m0 = guard.resend.map@;
    let (m1, e1) = acks_processed(m0, guard.resend.estimator, acks);
    let (m2, q2) = nacks_processed(m1, guard.buf@.resend, nacks);
    lemma_acks_settle(m0, guard.resend.estimator, acks, n);
    lemma_nacks_settle(m1, guard.buf@.resend, nacks, n);
    let lost = overdue(m2, now, U24_RANGE as nat);
    lemma_asked_again(m2, q2, lost);
    let m3 = asked_again(m2, q2, lost).0;
    assert(new_guard.resend.map@ == m2 || new_guard.resend.map@ == m3);
    assert(!m3.contains_key(n));
}

proof fn lemma_acks_settle(m: Map<u32, ResendEntry>, e: RFC6298Impl, acks: Seq<Handover>, n: u32)
    ensures
        acks_processed(m, e, acks).0.contains_key(n) ==> m.contains_key(n),
        (exists|i: int|
            0 <= i < acks.len() && ((#[trigger] acks[i]) matches Handover::Ack {
                records,
                received_at,
            } && covers(records_expand(records.records@), n))) ==> !acks_processed(
            m,
            e,
            acks,
        ).0.contains_key(n),
    decreases acks.len(),
{
    if acks.len() > 0 {
        let init = acks.drop_last();
        lemma_acks_settle(m, e, init, n);
        let (m1, e1) = acks_processed(m, e, init);
        if let Handover::Ack { records, received_at } = acks.last() {
            lemma_acked(m1, e1, records_expand(records.records@), received_at);
        }
        if exists|i: int|
            0 <= i < acks.len() && ((#[trigger] acks[i]) matches Handover::Ack {
                records,
                received_at,
            } && covers(records_expand(records.records@), n)) {
            let i = choose|i: int|
                0 <= i < acks.len() && ((#[trigger] acks[i]) matches Handover::Ack {
                    records,
                    received_at,
                } && covers(records_expand(records.records@), n));
            if i < init.len() {
                assert(init[i] == acks[i]);
            }
        }
    }
}

proof fn lemma_nacks_settle(
    m: Map<u32, ResendEntry>,
    queue: Seq<PenaltyFrame>,
    nacks: Seq<Handover>,
    n: u32,
)
    ensures
        nacks_processed(m, queue, nacks).0.contains_key(n) ==> m.contains_key(n),
        (exists|i: int|
            0 <= i < nacks.len() && ((#[trigger] nacks[i]) matches Handover::Nack(records)
                && covers(records_expand(records.records@), n))) ==> !nacks_processed(
            m,
            queue,
            nacks,
        ).0.contains_key(n),
    decreases nacks.len(),
{
    if nacks.len() > 0 {
        let init = nacks.drop_last();
        lemma_nacks_settle(m, queue, init, n);
        let (m1, q1) = nacks_processed(m, queue, init);
        if let Handover::Nack(records) = nacks.last() {
            lemma_asked_again(m1, q1, records_expand(records.records@));
        }
        if exists|i: int|
            0 <= i < nacks.len() && ((#[trigger] nacks[i]) matches Handover::Nack(records)
                && covers(records_expand(records.records@), n)) {
            let i = choose|i: int|
                0 <= i < nacks.len() && ((#[trigger] nacks[i]) matches Handover::Nack(records)
                    && covers(records_expand(records.records@), n));
            if i < init.len() {
                assert(init[i] == nacks[i]);
            }
        }
    }
}

/// An ACK or a NACK covers as many numbers as there is room for: where some are left, a packet of
/// `mtu` bytes has no room for a further single number, which takes 4 bytes.
pub proof fn lemma_ack_full(s: Seq<u24>, rest: Seq<u24>, mtu: u16)
    requires
        cut(s, rest, mtu),
        rest.len() > 0,
    ensures
        taken(s, rest).len() > 0,
        taken(s, rest) + rest == s,
        connected::PacketView::Ack(runs(taken(s, rest))).bytes().len() + 4 > mtu,
        connected::PacketView::Nack(runs(taken(s, rest))).bytes().len() + 4 > mtu,
{
    lemma_ack_len(runs(taken(s, rest)));
    assert(taken(s, rest) + rest =~= s);
}

/// The order of a flush. In a round an ACK comes first, then a NACK, then an unconnected packet,
/// then a frame set, each where it is flushed and something of it waits, and then the next round
/// begins. What is not flushed stays as it is. What a step sends it takes from what waits, the
/// oldest or least first, and it leaves all else alone.
pub proof fn lemma_flush_order(
    before: Flush,
    after: Flush,
    link: LinkView,
    new_link: LinkView,
    guard: OutgoingGuard,
    new_guard: OutgoingGuard,
    now: u64,
)
    requires
        stepped(before, after, link, new_link, guard, new_guard, now),
    ensures
        ({
            let packet = step_packet(before, link, new_link, guard);
            &&& after.strategy == before.strategy
            &&& before.phase is Ack ==> {
                let acks = before.strategy.acks() is Some;
                &&& after.phase is Nack
                &&& new_guard == guard
                &&& new_link.outgoing_nack == link.outgoing_nack
                &&& new_link.unconnected == link.unconnected
                &&& new_link.frame_body == link.frame_body
                &&& !acks ==> new_link.outgoing_ack == link.outgoing_ack
                &&& packet is Some <==> acks && link.outgoing_ack.len() > 0
                &&& packet is Some ==> (packet matches Some(
                    PacketView::Connected(connected::PacketView::Ack(records)),
                ) && records_expand(records) + new_link.outgoing_ack == link.outgoing_ack)
            }
            &&& before.phase is Nack ==> {
                let nacks = before.strategy.nacks() is Some;
                &&& before.strategy.packs() is Some ==> after.phase is Unconnected
                &&& before.strategy.packs() is None ==> after.phase is Ack
                &&& new_guard == guard
                &&& new_link.outgoing_ack == link.outgoing_ack
                &&& new_link.unconnected == link.unconnected
                &&& new_link.frame_body == link.frame_body
                &&& !nacks ==> new_link.outgoing_nack == link.outgoing_nack
                &&& packet is Some <==> nacks && link.outgoing_nack.len() > 0
                &&& packet is Some ==> (packet matches Some(
                    PacketView::Connected(connected::PacketView::Nack(records)),
                ) && records_expand(records) + new_link.outgoing_nack == link.outgoing_nack)
            }
            &&& before.phase is Unconnected ==> {
                &&& after.phase is Frames
                &&& new_guard == guard
                &&& new_link.outgoing_ack == link.outgoing_ack
                &&& new_link.outgoing_nack == link.outgoing_nack
                &&& new_link.frame_body == link.frame_body
                &&& link.unconnected.len() == 0 ==> packet is None && new_link == link
                &&& link.unconnected.len() > 0 ==> {
                    &&& new_link.unconnected == link.unconnected.drop_first()
                    &&& link.unconnected[0] matches Handover::Unconnected(p) ==> packet == Some(
                        PacketView::Unconnected(p@),
                    )
                }
            }
            &&& before.phase is Frames ==> {
                &&& after.phase is Ack
                &&& new_link == link
                &&& packet is Some ==> (packet matches Some(
                    PacketView::Connected(connected::PacketView::FrameSet(n, fs)),
                ) && n == guard.seq_num_write_index)
            }
        }),
{
    if before.phase is Ack && before.strategy.acks() is Some {
        lemma_ack_faithful(link.outgoing_ack, new_link.outgoing_ack, guard.peer.mtu);
    }
    if before.phase is Nack && before.strategy.nacks() is Some {
        lemma_ack_faithful(link.outgoing_nack, new_link.outgoing_nack, guard.peer.mtu);
    }
    if link.unconnected.len() > 0 {
        assert(link.unconnected.skip(1) =~= link.unconnected.drop_first());
    }
}

/// Acknowledgements are processed one after the other, each with the time it arrived at; so are
/// requests to send again.
pub proof fn lemma_in_turn(
    m: Map<u32, ResendEntry>,
    e: RFC6298Impl,
    queue: Seq<PenaltyFrame>,
    earlier: Seq<Handover>,
    last: Handover,
)
    ensures
        last matches Handover::Ack { records, received_at } ==> ({
            let (m1, e1) = acks_processed(m, e, earlier);
            acks_processed(m, e, earlier.push(last)) == acked(
                m1,
                e1,
                records_expand(records.records@),
                received_at,
            )
        }),
        last matches Handover::Nack(records) ==> ({
            let (m1, q1) = nacks_processed(m, queue, earlier);
            nacks_processed(m, queue, earlier.push(last)) == asked_again(
                m1,
                q1,
                records_expand(records.records@),
            )
        }),
        acks_processed(m, e, Seq::empty()) == (m, e),
        nacks_processed(m, queue, Seq::empty()) == (m, queue),
{
    assert(earlier.push(last).drop_last() =~= earlier);
}

} // verus!
