//! What closing a connection promises: a frame that must arrive is let go of only when the peer
//! has acknowledged it.
use bytes::Bytes;
use vstd::prelude::*;

use crate::estimator::RFC6298Impl;
use crate::guard::outgoing::{
    acks_processed, frames_flushed, nacks_processed, prepared, stepped, taken_in, Flush,
    OutgoingGuard,
};
use crate::guard::resend::{
    acked, asked_again, covers, lemma_acked, lemma_asked_again, lemma_frames_wait,
    lemma_queue_sorted, overdue, scanned, ResendEntry, Resending,
};
use crate::guard::send_buffer::{
    any_reliable, bare, lemma_nothing_lost, raised, with_penalty, PenaltyFrame, Waiting,
};
use crate::handover::Handover;
use crate::link::LinkView;
use crate::message::Priority;
use crate::opts::FlushStrategy;
use crate::packet::connected::ack::records_expand;
use crate::packet::connected::frame::Frame;
use crate::sorted_queue::{
    insert_all, insert_sorted, lemma_insert_all, lemma_slot, slot, sorted, Keyed,
};
use crate::uint24::{u24, U24_RANGE};

verus! {

/// What is done with the outgoing guard.
pub ghost enum Deed {
    /// What arrived is processed.
    Prepare { acks: Seq<Handover>, nacks: Seq<Handover>, now: u64 },
    /// A step of a flush is taken.
    Step { before: Flush, after: Flush, link: LinkView, new_link: LinkView, now: u64 },
    /// A frame is taken in to be sent.
    Send { priority: Priority, frame: Frame<Bytes> },
}

/// The deed takes the guard from one state to the other.
pub open spec fn done(guard: OutgoingGuard, new_guard: OutgoingGuard, deed: Deed) -> bool {
    match deed {
        Deed::Prepare { acks, nacks, now } => prepared(guard, new_guard, acks, nacks, now),
        Deed::Step { before, after, link, new_link, now } => stepped(
            before,
            after,
            link,
            new_link,
            guard,
            new_guard,
            now,
        ),
        Deed::Send { priority, frame } => taken_in(guard, new_guard, priority, frame),
    }
}

/// The frame is in the frame set that is kept under `n`.
pub open spec fn in_entry(m: Map<u32, ResendEntry>, n: u32, f: Frame<Bytes>) -> bool {
    m.contains_key(n) && m[n].frames@.contains(f)
}

/// The frame is in some frame set that is kept.
pub open spec fn in_some_entry(m: Map<u32, ResendEntry>, f: Frame<Bytes>) -> bool {
    exists|n: u32| #[trigger] in_entry(m, n, f)
}

/// The guard has the frame: it waits to be sent, or it was sent and is kept to be sent again.
pub open spec fn held(guard: OutgoingGuard, f: Frame<Bytes>) -> bool {
    guard.buf@.in_order().contains(f) || in_some_entry(guard.resend.map@, f)
}

/// It is an ACK that covers the number `n`.
pub open spec fn ack_covers(h: Handover, n: u32) -> bool {
    h matches Handover::Ack { records, .. } && covers(records_expand(records.records@), n)
}

/// Some ACK covers the number `n`.
pub open spec fn acks_cover(acks: Seq<Handover>, n: u32) -> bool {
    exists|i: int| 0 <= i < acks.len() && #[trigger] ack_covers(acks[i], n)
}

/// With the deed, a frame set that the frame was sent in is acknowledged.
pub open spec fn acknowledged(guard: OutgoingGuard, deed: Deed, f: Frame<Bytes>) -> bool {
    deed matches Deed::Prepare { acks, .. } && exists|n: u32| #[trigger]
        in_entry(guard.resend.map@, n, f) && acks_cover(acks, n)
}

/// A frame set that is sent gets a number under which none is kept.
pub open spec fn number_free(guard: OutgoingGuard, deed: Deed) -> bool {
    deed matches Deed::Step { before, .. } ==> before.phase is Frames
        ==> !guard.resend.map@.contains_key(guard.seq_num_write_index.0)
}

/// The deeds take the guard from each state to the next, and no number is used again while a frame
/// set is kept under it.
pub open spec fn history(states: Seq<OutgoingGuard>, deeds: Seq<Deed>) -> bool {
    &&& states.len() == deeds.len() + 1
    &&& forall|i: int| 0 <= i < states.len() ==> (#[trigger] states[i]).wf()
    &&& forall|i: int|
        0 <= i < deeds.len() ==> done(states[i], states[i + 1], #[trigger] deeds[i])
            && number_free(states[i], deeds[i])
}

proof fn lemma_concat_contains<A>(a: Seq<A>, b: Seq<A>, x: A)
    ensures
        (a + b).contains(x) == (a.contains(x) || b.contains(x)),
{
    if a.contains(x) {
        let i = choose|i: int| 0 <= i < a.len() && a[i] == x;
        assert((a + b)[i] == x);
    }
    if b.contains(x) {
        let i = choose|i: int| 0 <= i < b.len() && b[i] == x;
        assert((a + b)[a.len() + i] == x);
    }
    if (a + b).contains(x) {
        let i = choose|i: int| 0 <= i < (a + b).len() && (a + b)[i] == x;
        if i < a.len() {
            assert(a[i] == x);
        } else {
            assert(b[i - a.len()] == x);
        }
    }
}

proof fn lemma_in_order(w: Waiting, f: Frame<Bytes>)
    ensures
        w.in_order().contains(f) == (bare(w.resend).contains(f) || bare(w.high).contains(f)
            || w.medium.contains(f) || bare(w.low).contains(f)),
{
    let a = bare(w.resend);
    let b = bare(w.high);
    lemma_concat_contains(a, b, f);
    lemma_concat_contains(a + b, w.medium, f);
    lemma_concat_contains(a + b + w.medium, bare(w.low), f);
}

proof fn lemma_bare_member(s: Seq<PenaltyFrame>, x: PenaltyFrame)
    requires
        s.contains(x),
    ensures
        bare(s).contains(x.frame),
{
    let i = choose|i: int| 0 <= i < s.len() && s[i] == x;
    assert(bare(s)[i] == x.frame);
}

proof fn lemma_bare_inserted(s: Seq<PenaltyFrame>, x: PenaltyFrame, f: Frame<Bytes>)
    requires
        sorted(s),
        bare(s).contains(f) || f == x.frame,
    ensures
        bare(insert_sorted(s, x)).contains(f),
{
    let at = slot(s, x.spec_key());
    let t = insert_sorted(s, x);
    lemma_slot(s, x.spec_key());
    if f == x.frame {
        assert(bare(t)[at] == f);
    } else {
        let i = choose|i: int| 0 <= i < bare(s).len() && bare(s)[i] == f;
        if i < at {
            assert(bare(t)[i] == f);
        } else {
            assert(bare(t)[i + 1] == f);
        }
    }
}

/// What waits to be sent again still does once more is asked for.
proof fn lemma_queue_kept(
    m: Map<u32, ResendEntry>,
    queue: Seq<PenaltyFrame>,
    nums: Seq<u24>,
    f: Frame<Bytes>,
)
    requires
        sorted(queue),
        bare(queue).contains(f),
    ensures
        bare(asked_again(m, queue, nums).1).contains(f),
    decreases nums.len(),
{
    if nums.len() > 0 {
        let (m1, q1) = asked_again(m, queue, nums.drop_last());
        lemma_queue_kept(m, queue, nums.drop_last(), f);
        lemma_queue_sorted(m, queue, nums.drop_last());
        let k = nums.last().0;
        if m1.contains_key(k) {
            let added = with_penalty(m1[k].frames@, raised(m1[k].penalty));
            lemma_insert_all(q1, added);
            let i = choose|i: int| 0 <= i < bare(q1).len() && bare(q1)[i] == f;
            assert(insert_all(q1, added).contains(q1[i]));
            lemma_bare_member(insert_all(q1, added), q1[i]);
        }
    }
}

/// What is asked for waits to be sent again, and all else is kept.
proof fn lemma_asked_kept(
    m: Map<u32, ResendEntry>,
    queue: Seq<PenaltyFrame>,
    nums: Seq<u24>,
    f: Frame<Bytes>,
)
    requires
        sorted(queue),
        bare(queue).contains(f) || in_some_entry(m, f),
    ensures
        ({
            let (m1, q1) = asked_again(m, queue, nums);
            &&& sorted(q1)
            &&& bare(q1).contains(f) || in_some_entry(m1, f)
        }),
{
    let (m1, q1) = asked_again(m, queue, nums);
    lemma_queue_sorted(m, queue, nums);
    if bare(queue).contains(f) {
        lemma_queue_kept(m, queue, nums, f);
    } else {
        let n = choose|n: u32| #[trigger] in_entry(m, n, f);
        lemma_asked_again(m, queue, nums);
        if covers(nums, n) {
            let i = choose|i: int| 0 <= i < m[n].frames@.len() && m[n].frames@[i] == f;
            lemma_frames_wait(m, queue, nums, n, i);
            lemma_bare_member(q1, PenaltyFrame { penalty: raised(m[n].penalty), frame: f });
        } else {
            assert(m1.contains_key(n));
            assert(in_entry(m1, n, f));
        }
    }
}

/// What no ACK covers is kept as it was.
proof fn lemma_acks_keep(m: Map<u32, ResendEntry>, e: RFC6298Impl, acks: Seq<Handover>, n: u32)
    requires
        m.contains_key(n),
        !acks_cover(acks, n),
    ensures
        acks_processed(m, e, acks).0.contains_key(n),
        acks_processed(m, e, acks).0[n] == m[n],
    decreases acks.len(),
{
    if acks.len() > 0 {
        let init = acks.drop_last();
        let last = acks.last();
        assert(!ack_covers(acks[acks.len() - 1], n));
        assert(!acks_cover(init, n)) by {
            if acks_cover(init, n) {
                let i = choose|i: int| 0 <= i < init.len() && #[trigger] ack_covers(init[i], n);
                assert(ack_covers(acks[i], n));
            }
        }
        lemma_acks_keep(m, e, init, n);
        let (m1, e1) = acks_processed(m, e, init);
        match last {
            Handover::Ack { records, received_at } => {
                let nums = records_expand(records.records@);
                lemma_acked(m1, e1, nums, received_at);
                assert(acked(m1, e1, nums, received_at).0.contains_key(n));
            },
            _ => {},
        }
    }
}

proof fn lemma_nacks_keep(
    m: Map<u32, ResendEntry>,
    queue: Seq<PenaltyFrame>,
    nacks: Seq<Handover>,
    f: Frame<Bytes>,
)
    requires
        sorted(queue),
        bare(queue).contains(f) || in_some_entry(m, f),
    ensures
        ({
            let (m1, q1) = nacks_processed(m, queue, nacks);
            &&& sorted(q1)
            &&& bare(q1).contains(f) || in_some_entry(m1, f)
        }),
    decreases nacks.len(),
{
    if nacks.len() > 0 {
        lemma_nacks_keep(m, queue, nacks.drop_last(), f);
        let (m1, q1) = nacks_processed(m, queue, nacks.drop_last());
        match nacks.last() {
            Handover::Nack(records) => {
                lemma_asked_kept(m1, q1, records_expand(records.records@), f);
            },
            _ => {},
        }
    }
}

proof fn lemma_scan_keeps(before: Resending, after: Resending, now: u64, f: Frame<Bytes>)
    requires
        scanned(before, after, now),
        sorted(before.queue),
        bare(before.queue).contains(f) || in_some_entry(before.map, f),
    ensures
        bare(after.queue).contains(f) || in_some_entry(after.map, f),
{
    lemma_asked_kept(
        before.map,
        before.queue,
        overdue(before.map, now, U24_RANGE as nat),
        f,
    );
}

proof fn lemma_prepare_keeps(
    guard: OutgoingGuard,
    new_guard: OutgoingGuard,
    acks: Seq<Handover>,
    nacks: Seq<Handover>,
    now: u64,
    f: Frame<Bytes>,
)
    requires
        guard.wf(),
        prepared(guard, new_guard, acks, nacks, now),
        held(guard, f),
        !acknowledged(guard, Deed::Prepare { acks, nacks, now }, f),
    ensures
        held(new_guard, f),
{
    let m0 = guard.resend.map@;
    let queue0 = guard.buf@.resend;
    let (m, e) = acks_processed(m0, guard.resend.estimator, acks);
    lemma_in_order(guard.buf@, f);
    lemma_in_order(new_guard.buf@, f);
    if bare(queue0).contains(f) || in_some_entry(m0, f) {
        if !bare(queue0).contains(f) {
            let n = choose|n: u32| #[trigger] in_entry(m0, n, f);
            lemma_acks_keep(m0, guard.resend.estimator, acks, n);
            assert(in_entry(m, n, f));
        }
        lemma_nacks_keep(m, queue0, nacks, f);
        let (m1, queue1) = nacks_processed(m, queue0, nacks);
        lemma_scan_keeps(
            Resending {
                map: m1,
                queue: queue1,
                estimator: e,
                next_scan: guard.resend.last_record_expired_at,
            },
            new_guard.resend.resending(new_guard.buf@.resend),
            now,
            f,
        );
    }
}

proof fn lemma_packet_member(w: Waiting, mtu: int, f: Frame<Bytes>)
    requires
        mtu >= 4,
        w.in_order().contains(f),
    ensures
        w.packet(mtu).contains(f) || w.after_packet(mtu).in_order().contains(f),
{
    let (a, b, c, d) = w.picked(mtu);
    let after = w.after_packet(mtu);
    lemma_in_order(w, f);
    lemma_in_order(after, f);
    lemma_nothing_lost(w, mtu);
    let q1 = bare(w.resend).take(a);
    let q2 = bare(w.high).take(b);
    let q3 = w.medium.take(c);
    let q4 = bare(w.low).take(d);
    lemma_concat_contains(q1, q2, f);
    lemma_concat_contains(q1 + q2, q3, f);
    lemma_concat_contains(q1 + q2 + q3, q4, f);
    assert(bare(w.resend) =~= q1 + bare(after.resend));
    assert(bare(w.high) =~= q2 + bare(after.high));
    assert(bare(w.low) =~= q4 + bare(after.low));
    lemma_concat_contains(q1, bare(after.resend), f);
    lemma_concat_contains(q2, bare(after.high), f);
    lemma_concat_contains(q3, after.medium, f);
    lemma_concat_contains(q4, bare(after.low), f);
}

proof fn lemma_frames_keep(
    before: Flush,
    after: Flush,
    guard: OutgoingGuard,
    new_guard: OutgoingGuard,
    now: u64,
    f: Frame<Bytes>,
)
    requires
        guard.wf(),
        frames_flushed(before, after, guard, new_guard, now),
        !guard.resend.map@.contains_key(guard.seq_num_write_index.0),
        held(guard, f),
        f.flags.reliability.reliable(),
    ensures
        held(new_guard, f),
{
    let mtu = guard.peer.mtu as int;
    let frames = guard.buf@.packet(mtu);
    if guard.buf@.in_order().contains(f) {
        lemma_packet_member(guard.buf@, mtu, f);
        if frames.contains(f) {
            let i = choose|i: int| 0 <= i < frames.len() && frames[i] == f;
            assert(frames[i].flags.reliability.reliable());
            assert(any_reliable(frames));
            assert(in_entry(new_guard.resend.map@, guard.seq_num_write_index.0, f));
        }
    } else {
        let n = choose|n: u32| #[trigger] in_entry(guard.resend.map@, n, f);
        assert(in_entry(new_guard.resend.map@, n, f));
    }
}

proof fn lemma_send_keeps(
    guard: OutgoingGuard,
    new_guard: OutgoingGuard,
    priority: Priority,
    frame: Frame<Bytes>,
    f: Frame<Bytes>,
)
    requires
        guard.wf(),
        taken_in(guard, new_guard, priority, frame),
        held(guard, f) || f == frame,
    ensures
        held(new_guard, f),
{
    let w = guard.buf@;
    lemma_in_order(w, f);
    lemma_in_order(new_guard.buf@, f);
    match priority {
        Priority::High(penalty) => {
            if bare(w.high).contains(f) || f == frame {
                lemma_bare_inserted(w.high, PenaltyFrame { penalty, frame }, f);
            }
        },
        Priority::Medium => {
            lemma_concat_contains(w.medium, seq![frame], f);
            assert(w.medium.push(frame) =~= w.medium + seq![frame]);
            assert(seq![frame][0] == frame);
        },
        Priority::Low(penalty) => {
            if bare(w.low).contains(f) || f == frame {
                lemma_bare_inserted(w.low, PenaltyFrame { penalty, frame }, f);
            }
        },
    }
}

/// A frame that must arrive is let go of only when it is acknowledged: whatever is done with the
/// guard, it waits to be sent, or the frame set that it was sent in is kept, as long as no ACK
/// covers the number of such a frame set.
pub proof fn lemma_held(
    guard: OutgoingGuard,
    new_guard: OutgoingGuard,
    deed: Deed,
    f: Frame<Bytes>,
)
    requires
        guard.wf(),
        done(guard, new_guard, deed),
        number_free(guard, deed),
        held(guard, f),
        f.flags.reliability.reliable(),
    ensures
        held(new_guard, f) || acknowledged(guard, deed, f),
{
    match deed {
        Deed::Prepare { acks, nacks, now } => {
            if !acknowledged(guard, deed, f) {
                lemma_prepare_keeps(guard, new_guard, acks, nacks, now, f);
            }
        },
        Deed::Step { before, after, link, new_link, now } => {
            if before.phase is Frames {
                lemma_frames_keep(before, after, guard, new_guard, now, f);
            }
        },
        Deed::Send { priority, frame } => {
            lemma_send_keeps(guard, new_guard, priority, frame, f);
        },
    }
}

/// A frame that must arrive is held from the time it was until it is acknowledged.
pub proof fn lemma_held_until_acknowledged(
    states: Seq<OutgoingGuard>,
    deeds: Seq<Deed>,
    f: Frame<Bytes>,
    k: int,
)
    requires
        history(states, deeds),
        0 <= k < states.len(),
        held(states[k], f),
        f.flags.reliability.reliable(),
    ensures
        held(states.last(), f) || exists|i: int|
            k <= i < deeds.len() && #[trigger] acknowledged(states[i], deeds[i], f),
    decreases states.len() - k,
{
    if k < deeds.len() {
        assert(states[k].wf());
        assert(done(states[k], states[k + 1], deeds[k]));
        lemma_held(states[k], states[k + 1], deeds[k], f);
        if !acknowledged(states[k], deeds[k], f) {
            lemma_held_until_acknowledged(states, deeds, f, k + 1);
        }
    }
}

/// Closing insures that all frames are received by the peer: once packets were flushed, none waits
/// and no frame set is kept, every frame that must arrive and was ever taken in was acknowledged
/// after it was.
pub proof fn lemma_closed(
    states: Seq<OutgoingGuard>,
    deeds: Seq<Deed>,
    strategy: FlushStrategy,
    link: LinkView,
    f: Frame<Bytes>,
    k: int,
)
    requires
        history(states, deeds),
        strategy.packs() is Some,
        strategy.flushed_all(link, states.last().buf@),
        states.last().resend.map@.dom() == Set::<u32>::empty(),
        0 <= k < deeds.len(),
        deeds[k] matches Deed::Send { frame, .. } && frame == f,
        f.flags.reliability.reliable(),
    ensures
        exists|i: int| k < i < deeds.len() && #[trigger] acknowledged(states[i], deeds[i], f),
{
    assert(states[k].wf());
    assert(done(states[k], states[k + 1], deeds[k]));
    match deeds[k] {
        Deed::Send { priority, frame } => {
            lemma_send_keeps(states[k], states[k + 1], priority, frame, f);
        },
        _ => {},
    }
    lemma_held_until_acknowledged(states, deeds, f, k + 1);
    let end = states.last();
    assert(!held(end, f)) by {
        assert(end.buf@.in_order().len() == 0);
        if in_some_entry(end.resend.map@, f) {
            let n = choose|n: u32| #[trigger] in_entry(end.resend.map@, n, f);
            assert(end.resend.map@.dom().contains(n));
        }
    }
}

} // verus!
